//! Two line-oriented puzzle analyzers: a calibration scorer that reads the
//! first and last digit (or digit word) of each line, and a cube-game reader
//! that checks draws against a limit and folds them to their maximum.
pub mod calibration;
pub mod cubes;
pub mod error;
pub mod text;
