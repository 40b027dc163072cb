use trebuchet_cubes::cubes::{parse_games, part1, part2, Game, Roll};
use trebuchet_cubes::error::ParseErrorKind;

const EXAMPLE_INPUT: &str = "Game 1: 3 blue, 4 red; 1 red, 2 green, 6 blue; 2 green
Game 2: 1 blue, 2 green; 3 green, 4 blue, 1 red; 1 green, 1 blue
Game 3: 8 green, 6 blue, 20 red; 5 blue, 4 red, 13 green; 5 green, 1 red
Game 4: 1 green, 3 red, 6 blue; 3 green, 6 red; 3 green, 15 blue, 14 red
Game 5: 6 red, 1 blue, 3 green; 2 blue, 1 red, 2 green
";

#[test]
fn test_parse() {
    let games: Vec<Game> = EXAMPLE_INPUT
        .lines()
        .filter(|l| !l.trim().is_empty())
        .map(str::parse)
        .collect::<Result<_, _>>()
        .unwrap();
    assert_eq!(
        games[0],
        Game {
            id: 1,
            rolls: vec![
                Roll {
                    blue: 3,
                    red: 4,
                    ..Default::default()
                },
                Roll {
                    blue: 6,
                    red: 1,
                    green: 2
                },
                Roll {
                    green: 2,
                    ..Default::default()
                },
            ]
        }
    );
}

#[test]
fn main_test_part1() {
    assert_eq!(part1(&parse_games(EXAMPLE_INPUT).unwrap()), 8);
}

#[test]
fn main_test_part2() {
    assert_eq!(part2(&parse_games(EXAMPLE_INPUT).unwrap()), 2286);
}

#[test]
fn missing_id_fails() {
    let e = Game::parse("Game : 3 blue").unwrap_err();
    assert_eq!(e.kind, ParseErrorKind::GameId);
    assert_eq!(e.text, "Game : 3 blue");
}

#[test]
fn id_prefix_must_be_exact() {
    assert_eq!(Game::parse("game 1: 1 red").unwrap_err().kind, ParseErrorKind::GameId);
    assert_eq!(Game::parse("Game 1 x: 1 red").unwrap_err().kind, ParseErrorKind::GameId);
    assert_eq!(Game::parse("Game -1: 1 red").unwrap_err().kind, ParseErrorKind::GameId);
    assert_eq!(Game::parse("Game 4294967296: 1 red").unwrap_err().kind, ParseErrorKind::GameId);
    assert_eq!(Game::parse("Game 4294967295: 1 red").unwrap().id, 4294967295);
}

#[test]
fn game_without_colon_has_no_rolls() {
    let e = Game::parse("Game 5").unwrap_err();
    assert_eq!(e.kind, ParseErrorKind::NoRolls);
    assert_eq!(e.text, "Game 5");
}

#[test]
fn bad_chunk_is_named() {
    let e = Game::parse("Game 1: 3 blue; 2 purple, 1 red").unwrap_err();
    assert_eq!(e.kind, ParseErrorKind::Roll);
    assert_eq!(e.text, " 2 purple");
    let e = Game::parse("Game 1:").unwrap_err();
    assert_eq!(e.kind, ParseErrorKind::Roll);
    assert_eq!(e.text, "");
    let e = Roll::parse("x red").unwrap_err();
    assert_eq!(e.kind, ParseErrorKind::Roll);
    assert_eq!(e.text, "x red");
    assert_eq!(Roll::parse("1 red 2").unwrap_err().kind, ParseErrorKind::Roll);
    assert_eq!(Roll::parse("1 Red").unwrap_err().kind, ParseErrorKind::Roll);
}

#[test]
fn repeated_color_keeps_last() {
    let r = Roll::parse("3 red, 2 blue, 5 red").unwrap();
    assert_eq!(r, Roll { blue: 2, red: 5, green: 0 });
}

#[test]
fn boundary_roll_is_possible() {
    let limit = Roll { blue: 14, red: 12, green: 13 };
    assert!(limit.possible(&limit));
    assert!(!Roll { blue: 14, red: 13, green: 13 }.possible(&limit));
    assert!(!Roll { blue: 14, red: 12, green: 14 }.possible(&limit));
    assert!(!Roll { blue: 15, red: 12, green: 13 }.possible(&limit));
}

#[test]
fn single_roll_is_its_own_limit() {
    let g = Game::parse("Game 9: 7 green, 2 red, 4 blue").unwrap();
    assert_eq!(g.find_limit(), Roll { blue: 4, red: 2, green: 7 });
    let empty = Game { id: 1, rolls: vec![] };
    assert_eq!(empty.find_limit(), Roll::default());
}

#[test]
fn power_with_missing_color_is_zero() {
    let games = parse_games("Game 1: 5 red, 7 green\nGame 2: 2 red, 3 green, 4 blue\n").unwrap();
    assert_eq!(part2(&games), 24);
    assert_eq!(part1(&games), 3);
}

#[test]
fn reparsing_written_game_gives_it_back() {
    for line in EXAMPLE_INPUT.lines() {
        let g = Game::parse(line).unwrap();
        let draws: Vec<String> = g
            .rolls
            .iter()
            .map(|r| format!(" {} red, {} green, {} blue", r.red, r.green, r.blue))
            .collect();
        let text = format!("Game {}:{}", g.id, draws.join(";"));
        assert_eq!(Game::parse(&text).unwrap(), g);
    }
}

#[test]
fn blank_game_line_fails() {
    let e = parse_games("Game 1: 1 red\n\nGame 2: 2 red\n").unwrap_err();
    assert_eq!(e.kind, ParseErrorKind::GameId);
    assert_eq!(e.text, "");
}

#[test]
fn from_str_matches_parse() {
    let g: Game = "Game 1: 3 blue, 4 red; 1 red, 2 green, 6 blue; 2 green".parse().unwrap();
    assert_eq!(g.id, 1);
    assert_eq!(g.rolls[1], Roll { blue: 6, red: 1, green: 2 });
    assert!("Game : 3 blue".parse::<Game>().is_err());
    assert!("Game 1: 3 blue: 4 red".parse::<Game>().is_err());
    assert!("Game 1: 3 blue;".parse::<Game>().is_err());
    let r: Roll = "1 red, 5 red, 2 blue".parse().unwrap();
    assert_eq!(r, Roll { blue: 2, red: 5, green: 0 });
    assert!("3 blue extra".parse::<Roll>().is_err());
    assert!("3 Blue".parse::<Roll>().is_err());
    assert!("".parse::<Roll>().is_err());
}
