//! Cube games: each line `Game <id>: <draw>; <draw>; ...` records draws of
//! red, green and blue cubes, written `<count> <color>, ...`. A game is
//! possible when every draw fits a limit; its power is the product of the
//! largest count of each color over its draws.
use vstd::prelude::*;

use crate::error::{ParseError, ParseErrorKind};
use crate::text::{
    all_digits, decimal, is_space, lemma_decimal, lemma_find_from_at,
    lemma_parse_decimal, lemma_split_on_join, lemma_split_on_plain, lemma_split_spaces_join,
    lemma_split_spaces_plain, non_empty, split_spaces, chars_of, copy_range, find_char, find_from, lines, lines_of, parse_u32, parse_u32_chars,
    same_chars, split_chars, split_on, string_of, views, words, words_of,
};

verus! {

/// One draw: how many cubes of each color were shown.
#[derive(Clone, Copy, Debug, PartialEq, Eq, Structural)]
pub struct Roll {
    pub blue: u32,
    pub red: u32,
    pub green: u32,
}

/// A numbered game and its draws, in the order they were written.
#[derive(Debug)]
pub struct Game {
    pub id: u32,
    pub rolls: Vec<Roll>,
}

impl View for Game {
    type V = (u32, Seq<Roll>);

    open spec fn view(&self) -> (u32, Seq<Roll>) {
        (self.id, self.rolls@)
    }
}

pub open spec fn zero_roll() -> Roll {
    Roll { blue: 0, red: 0, green: 0 }
}

impl Default for Roll {
    fn default() -> (r: Roll)
        ensures
            r == zero_roll(),
    {
        Roll { blue: 0, red: 0, green: 0 }
    }
}

impl PartialEq for Game {
    fn eq(&self, o: &Game) -> (r: bool) {
        if self.id != o.id || self.rolls.len() != o.rolls.len() {
            return false;
        }
        let mut i: usize = 0;
        while i < self.rolls.len()
            invariant
                i <= self.rolls.len() == o.rolls.len(),
                forall|m: int| 0 <= m < i ==> self.rolls@[m] == o.rolls@[m],
            decreases self.rolls.len() - i,
        {
            if self.rolls[i] != o.rolls[i] {
                return false;
            }
            i += 1;
        }
        assert(self.rolls@ =~= o.rolls@);
        true
    }
}

impl vstd::std_specs::cmp::PartialEqSpecImpl for Game {
    open spec fn obeys_eq_spec() -> bool {
        true
    }

    open spec fn eq_spec(&self, o: &Game) -> bool {
        self@ == o@
    }
}

/// Whether each count of `r` is at most the same count of `limit`.
pub open spec fn fits(r: Roll, limit: Roll) -> bool {
    r.red <= limit.red && r.green <= limit.green && r.blue <= limit.blue
}

pub open spec fn max_u32(a: u32, b: u32) -> u32 {
    if a >= b {
        a
    } else {
        b
    }
}

/// The componentwise maximum of `rs`, starting from all zeros.
pub open spec fn max_fold(rs: Seq<Roll>) -> Roll
    decreases rs.len(),
{
    if rs.len() == 0 {
        zero_roll()
    } else {
        let a = max_fold(rs.drop_last());
        let r = rs.last();
        Roll {
            blue: max_u32(a.blue, r.blue),
            red: max_u32(a.red, r.red),
            green: max_u32(a.green, r.green),
        }
    }
}

/// The product of the three counts of `r`.
pub open spec fn power(r: Roll) -> int {
    r.red as int * r.green as int * r.blue as int
}

/// The limit a possible game keeps to.
pub open spec fn bag() -> Roll {
    Roll { blue: 14, red: 12, green: 13 }
}

pub open spec fn all_fit(rs: Seq<Roll>, limit: Roll) -> bool {
    forall|i: int| 0 <= i < rs.len() ==> fits(#[trigger] rs[i], limit)
}

/// The sum of the ids of the possible games of `gs`.
pub open spec fn possible_id_sum(gs: Seq<Game>) -> int
    decreases gs.len(),
{
    if gs.len() == 0 {
        0
    } else {
        possible_id_sum(gs.drop_last()) + if all_fit(gs.last().rolls@, bag()) {
            gs.last().id as int
        } else {
            0
        }
    }
}

/// The sum of the powers of the games of `gs`.
pub open spec fn power_sum(gs: Seq<Game>) -> int
    decreases gs.len(),
{
    if gs.len() == 0 {
        0
    } else {
        power_sum(gs.drop_last()) + power(max_fold(gs.last().rolls@))
    }
}

impl Roll {
    /// Whether no count of this roll exceeds the same count of `limit`.
    pub fn possible(&self, limit: &Self) -> (r: bool)
        ensures
            r == fits(*self, *limit),
    {
        self.red <= limit.red && self.green <= limit.green && self.blue <= limit.blue
    }
}

impl Game {
    /// The componentwise maximum of the draws, starting from all zeros.
    pub fn find_limit(&self) -> (r: Roll)
        ensures
            r == max_fold(self.rolls@),
    {
        let mut acc = Roll::default();
        let mut i: usize = 0;
        assert(self.rolls@.take(0) =~= Seq::<Roll>::empty());
        while i < self.rolls.len()
            invariant
                i <= self.rolls.len(),
                acc == max_fold(self.rolls@.take(i as int)),
            decreases self.rolls.len() - i,
        {
            let r = self.rolls[i];
            assert(self.rolls@.take(i + 1).drop_last() =~= self.rolls@.take(i as int));
            acc = Roll {
                blue: if acc.blue >= r.blue {
                    acc.blue
                } else {
                    r.blue
                },
                red: if acc.red >= r.red {
                    acc.red
                } else {
                    r.red
                },
                green: if acc.green >= r.green {
                    acc.green
                } else {
                    r.green
                },
            };
            i += 1;
        }
        assert(self.rolls@.take(i as int) =~= self.rolls@);
        acc
    }
}

proof fn lemma_id_sum_prefix(gs: Seq<Game>, k: int)
    requires
        0 <= k <= gs.len(),
    ensures
        0 <= possible_id_sum(gs.take(k)) <= possible_id_sum(gs),
    decreases gs.len(),
{
    if k < gs.len() {
        lemma_id_sum_prefix(gs.drop_last(), k);
        assert(gs.drop_last().take(k) =~= gs.take(k));
    } else {
        assert(gs.take(k) =~= gs);
        if k > 0 {
            lemma_id_sum_prefix(gs.drop_last(), k - 1);
            assert(gs.drop_last().take(k - 1) =~= gs.drop_last());
        }
    }
}

proof fn lemma_power_nonneg(r: Roll)
    ensures
        power(r) >= 0,
{
    assert(r.red as int * r.green as int >= 0) by (nonlinear_arith);
    assert(r.red as int * r.green as int * r.blue as int >= 0) by (nonlinear_arith)
        requires
            r.red as int * r.green as int >= 0,
    ;
}

proof fn lemma_power_sum_prefix(gs: Seq<Game>, k: int)
    requires
        0 <= k <= gs.len(),
    ensures
        0 <= power_sum(gs.take(k)) <= power_sum(gs),
    decreases gs.len(),
{
    if gs.len() > 0 {
        lemma_power_nonneg(max_fold(gs.last().rolls@));
    }
    if k < gs.len() {
        lemma_power_sum_prefix(gs.drop_last(), k);
        assert(gs.drop_last().take(k) =~= gs.take(k));
    } else {
        assert(gs.take(k) =~= gs);
        if k > 0 {
            lemma_power_sum_prefix(gs.drop_last(), k - 1);
            assert(gs.drop_last().take(k - 1) =~= gs.drop_last());
        }
    }
}

/// Whether every draw of `g` fits `limit`.
fn game_fits(g: &Game, limit: &Roll) -> (r: bool)
    ensures
        r == all_fit(g.rolls@, *limit),
{
    let mut i: usize = 0;
    while i < g.rolls.len()
        invariant
            i <= g.rolls.len(),
            forall|m: int| 0 <= m < i ==> fits(#[trigger] g.rolls@[m], *limit),
        decreases g.rolls.len() - i,
    {
        if !g.rolls[i].possible(limit) {
            return false;
        }
        i += 1;
    }
    true
}

/// The sum of the ids of the games whose every draw fits the bag of 12 red,
/// 13 green and 14 blue cubes.
pub fn part1(games: &[Game]) -> (r: u32)
    requires
        possible_id_sum(games@) <= u32::MAX,
    ensures
        r == possible_id_sum(games@),
{
    let limit = Roll { blue: 14, red: 12, green: 13 };
    let mut acc: u32 = 0;
    let mut i: usize = 0;
    assert(games@.take(0) =~= Seq::<Game>::empty());
    while i < games.len()
        invariant
            i <= games.len(),
            limit == bag(),
            possible_id_sum(games@) <= u32::MAX,
            acc == possible_id_sum(games@.take(i as int)),
        decreases games.len() - i,
    {
        assert(games@.take(i + 1).drop_last() =~= games@.take(i as int));
        proof {
            lemma_id_sum_prefix(games@, i + 1);
        }
        if game_fits(&games[i], &limit) {
            acc = acc + games[i].id;
        }
        i += 1;
    }
    assert(games@.take(i as int) =~= games@);
    acc
}

/// The sum over the games of the product of their largest red, green and
/// blue counts.
pub fn part2(games: &[Game]) -> (r: u32)
    requires
        power_sum(games@) <= u32::MAX,
    ensures
        r == power_sum(games@),
{
    let mut acc: u32 = 0;
    let mut i: usize = 0;
    assert(games@.take(0) =~= Seq::<Game>::empty());
    while i < games.len()
        invariant
            i <= games.len(),
            power_sum(games@) <= u32::MAX,
            acc == power_sum(games@.take(i as int)),
        decreases games.len() - i,
    {
        assert(games@.take(i + 1).drop_last() =~= games@.take(i as int));
        proof {
            lemma_power_sum_prefix(games@, i + 1);
        }
        let m = games[i].find_limit();
        assert(m.red as int * m.green as int <= u32::MAX as int * u32::MAX as int) by (nonlinear_arith)
            requires
                m.red <= u32::MAX,
                m.green <= u32::MAX,
        ;
        let rg: u64 = m.red as u64 * m.green as u64;
        let p: u64 = if m.blue == 0 {
            0
        } else {
            assert(rg as int * m.blue as int == power(m));
            assert(rg as int <= rg as int * m.blue as int) by (nonlinear_arith)
                requires
                    m.blue >= 1,
                    rg >= 0,
            ;
            rg * m.blue as u64
        };
        assert(p as int == power(m)) by (nonlinear_arith)
            requires
                m.blue == 0 ==> p == 0,
                m.blue != 0 ==> p as int == rg as int * m.blue as int,
                rg as int == m.red as int * m.green as int,
                power(m) == m.red as int * m.green as int * m.blue as int,
        ;
        acc = acc + p as u32;
        i += 1;
    }
    assert(games@.take(i as int) =~= games@);
    acc
}

} // verus!

verus! {

pub open spec fn red_word() -> Seq<char> {
    seq!['r', 'e', 'd']
}

pub open spec fn green_word() -> Seq<char> {
    seq!['g', 'r', 'e', 'e', 'n']
}

pub open spec fn blue_word() -> Seq<char> {
    seq!['b', 'l', 'u', 'e']
}

pub open spec fn game_word() -> Seq<char> {
    seq!['G', 'a', 'm', 'e']
}

/// `acc` with the count that `chunk` (`<count> <color>`) gives set on its color.
pub open spec fn chunk_roll(acc: Roll, chunk: Seq<char>) -> Option<Roll> {
    let ws = words_of(chunk);
    if ws.len() != 2 {
        None
    } else {
        match parse_u32(ws[0]) {
            None => None,
            Some(n) => if ws[1] == red_word() {
                Some(Roll { blue: acc.blue, red: n, green: acc.green })
            } else if ws[1] == green_word() {
                Some(Roll { blue: acc.blue, red: acc.red, green: n })
            } else if ws[1] == blue_word() {
                Some(Roll { blue: n, red: acc.red, green: acc.green })
            } else {
                None
            },
        }
    }
}

/// Folds the chunks `cs` into `acc`, left to right; fails with the first
/// chunk that is not `<count> <color>`.
pub open spec fn fold_chunks(acc: Roll, cs: Seq<Seq<char>>) -> Result<Roll, Seq<char>>
    decreases cs.len(),
{
    if cs.len() == 0 {
        Ok(acc)
    } else {
        match chunk_roll(acc, cs[0]) {
            Some(a) => fold_chunks(a, cs.drop_first()),
            None => Err(cs[0]),
        }
    }
}

/// The draw that `s` writes, or the chunk of it that is malformed.
pub open spec fn roll_of(s: Seq<char>) -> Result<Roll, Seq<char>> {
    fold_chunks(zero_roll(), split_on(s, ','))
}

/// The draws that `ds` write, or the first malformed chunk.
pub open spec fn rolls_of(ds: Seq<Seq<char>>) -> Result<Seq<Roll>, Seq<char>>
    decreases ds.len(),
{
    if ds.len() == 0 {
        Ok(seq![])
    } else {
        match roll_of(ds[0]) {
            Err(c) => Err(c),
            Ok(r) => match rolls_of(ds.drop_first()) {
                Ok(rs) => Ok(seq![r] + rs),
                Err(c) => Err(c),
            },
        }
    }
}

/// The id that the text before the colon gives: exactly the word `Game` and
/// an unsigned number.
pub open spec fn game_id(pre: Seq<char>) -> Option<u32> {
    let ws = words_of(pre);
    if ws.len() == 2 && ws[0] == game_word() {
        parse_u32(ws[1])
    } else {
        None
    }
}

/// The game that the line `s` writes, or why it does not.
pub open spec fn game_of(s: Seq<char>) -> Result<(u32, Seq<Roll>), (ParseErrorKind, Seq<char>)> {
    let colon = find_from(s, ':', 0);
    let pre = match colon {
        Some(k) => s.take(k),
        None => s,
    };
    match game_id(pre) {
        None => Err((ParseErrorKind::GameId, s)),
        Some(id) => match colon {
            None => Err((ParseErrorKind::NoRolls, s)),
            Some(k) => match rolls_of(split_on(s.skip(k + 1), ';')) {
                Ok(rs) => Ok((id, rs)),
                Err(c) => Err((ParseErrorKind::Roll, c)),
            },
        },
    }
}

/// The games of the lines `ls`, or the failure of the first line that is not one.
pub open spec fn games_of(ls: Seq<Seq<char>>) -> Result<
    Seq<(u32, Seq<Roll>)>,
    (ParseErrorKind, Seq<char>),
>
    decreases ls.len(),
{
    if ls.len() == 0 {
        Ok(seq![])
    } else {
        match game_of(ls[0]) {
            Err(e) => Err(e),
            Ok(g) => match games_of(ls.drop_first()) {
                Ok(gs) => Ok(seq![g] + gs),
                Err(e) => Err(e),
            },
        }
    }
}

/// `acc` with the count of `chunk` set on its color.
fn apply_chunk(acc: Roll, chunk: &Vec<char>) -> (r: Option<Roll>)
    ensures
        r == chunk_roll(acc, chunk@),
{
    let ws = words(chunk);
    if ws.len() != 2 {
        return None;
    }
    let n = match parse_u32_chars(&ws[0]) {
        Some(n) => n,
        None => {
            return None;
        },
    };
    let red = vec!['r', 'e', 'd'];
    let green = vec!['g', 'r', 'e', 'e', 'n'];
    let blue = vec!['b', 'l', 'u', 'e'];
    assert(red@ =~= red_word());
    assert(green@ =~= green_word());
    assert(blue@ =~= blue_word());
    if same_chars(&ws[1], &red) {
        Some(Roll { blue: acc.blue, red: n, green: acc.green })
    } else if same_chars(&ws[1], &green) {
        Some(Roll { blue: acc.blue, red: acc.red, green: n })
    } else if same_chars(&ws[1], &blue) {
        Some(Roll { blue: n, red: acc.red, green: acc.green })
    } else {
        None
    }
}

/// The draw that `s` writes; fails with its first malformed chunk.
fn roll_from_chars(s: &Vec<char>) -> (r: Result<Roll, ParseError>)
    ensures
        match r {
            Ok(x) => roll_of(s@) == Ok::<Roll, Seq<char>>(x),
            Err(e) => roll_of(s@) == Err::<Roll, Seq<char>>(e@.1) && e@.0 == ParseErrorKind::Roll,
        },
{
    let cs = split_chars(s, ',');
    let ghost cv = views(cs@);
    let mut acc = Roll::default();
    let mut i: usize = 0;
    assert(cv.skip(0) =~= cv);
    while i < cs.len()
        invariant
            i <= cs.len(),
            cv == views(cs@),
            cv == split_on(s@, ','),
            fold_chunks(acc, cv.skip(i as int)) == roll_of(s@),
        decreases cs.len() - i,
    {
        assert(cv.skip(i as int).drop_first() =~= cv.skip(i + 1));
        match apply_chunk(acc, &cs[i]) {
            Some(a) => {
                acc = a;
            },
            None => {
                return Err(ParseError { kind: ParseErrorKind::Roll, text: string_of(cs[i].as_slice()) });
            },
        }
        i += 1;
    }
    Ok(acc)
}

impl Roll {
    /// The draw `<count> <color>, ...`: starting from all zeros, each chunk
    /// sets the count of its color (red, green or blue); fails with the first
    /// chunk that is not of that form.
    pub fn parse(s: &str) -> (r: Result<Roll, ParseError>)
        ensures
            match r {
                Ok(x) => roll_of(s@) == Ok::<Roll, Seq<char>>(x),
                Err(e) => roll_of(s@) == Err::<Roll, Seq<char>>(e@.1) && e@.0 == ParseErrorKind::Roll,
            },
    {
        let cs = chars_of(s);
        roll_from_chars(&cs)
    }
}

/// The game that the line `s` writes.
fn game_from_chars(s: &Vec<char>) -> (r: Result<Game, ParseError>)
    ensures
        match r {
            Ok(g) => game_of(s@) == Ok::<(u32, Seq<Roll>), (ParseErrorKind, Seq<char>)>(g@),
            Err(e) => game_of(s@) == Err::<(u32, Seq<Roll>), (ParseErrorKind, Seq<char>)>(e@),
        },
{
    let colon = find_char(s, ':');
    let pre = match colon {
        Some(k) => copy_range(s, 0, k),
        None => copy_range(s, 0, s.len()),
    };
    assert(s@.subrange(0, s@.len() as int) =~= s@);
    let ws = words(&pre);
    let game = vec!['G', 'a', 'm', 'e'];
    assert(game@ =~= game_word());
    let id = if ws.len() == 2 && same_chars(&ws[0], &game) {
        parse_u32_chars(&ws[1])
    } else {
        None
    };
    let id = match id {
        Some(id) => id,
        None => {
            return Err(ParseError { kind: ParseErrorKind::GameId, text: string_of(s.as_slice()) });
        },
    };
    let k = match colon {
        Some(k) => k,
        None => {
            return Err(ParseError { kind: ParseErrorKind::NoRolls, text: string_of(s.as_slice()) });
        },
    };
    assert(pre@ =~= s@.take(k as int));
    let rest = copy_range(s, k + 1, s.len());
    assert(rest@ =~= s@.skip(k + 1));
    let ds = split_chars(&rest, ';');
    let ghost dv = views(ds@);
    let mut rolls: Vec<Roll> = Vec::new();
    let mut i: usize = 0;
    assert(dv.skip(0) =~= dv);
    assert(forall|rs: Seq<Roll>| rolls@ + rs =~= rs);
    while i < ds.len()
        invariant
            i <= ds.len(),
            dv == views(ds@),
            dv == split_on(s@.skip(k + 1), ';'),
            k < s.len(),
            find_from(s@, ':', 0) == Some(k as int),
            game_id(s@.take(k as int)) == Some(id),
            rolls_of(dv) == (match rolls_of(dv.skip(i as int)) {
                Ok(rs) => Ok(rolls@ + rs),
                Err(c) => Err(c),
            }),
        decreases ds.len() - i,
    {
        assert(dv.skip(i as int).drop_first() =~= dv.skip(i + 1));
        assert(dv.skip(i as int)[0] == dv[i as int]);
        match roll_from_chars(&ds[i]) {
            Ok(x) => {
                let ghost before = rolls@;
                rolls.push(x);
                assert(forall|rs: Seq<Roll>| before + (seq![x] + rs) =~= rolls@ + rs);
            },
            Err(e) => {
                assert(rolls_of(dv) == Err::<Seq<Roll>, Seq<char>>(e@.1));
                assert(e@ == (ParseErrorKind::Roll, e@.1));
                return Err(e);
            },
        }
        i += 1;
    }
    assert(dv.skip(i as int) =~= Seq::<Seq<char>>::empty());
    assert(rolls@ + Seq::<Roll>::empty() =~= rolls@);
    Ok(Game { id, rolls })
}

impl Game {
    /// The game of the line `Game <id>: <draw>; <draw>; ...`. The text before
    /// the first colon must be exactly the word `Game` and an unsigned id; the
    /// text after it is split on `;` into draws.
    pub fn parse(s: &str) -> (r: Result<Game, ParseError>)
        ensures
            match r {
                Ok(g) => game_of(s@) == Ok::<(u32, Seq<Roll>), (ParseErrorKind, Seq<char>)>(g@),
                Err(e) => game_of(s@) == Err::<(u32, Seq<Roll>), (ParseErrorKind, Seq<char>)>(e@),
            },
    {
        let cs = chars_of(s);
        game_from_chars(&cs)
    }
}

} // verus!

verus! {

/// The views of a sequence of games.
pub open spec fn game_views(gs: Seq<Game>) -> Seq<(u32, Seq<Roll>)> {
    gs.map_values(|g: Game| g@)
}

/// The games of the lines of `input`, one per line; fails with the first
/// line that is not a game.
pub fn parse_games(input: &str) -> (r: Result<Vec<Game>, ParseError>)
    ensures
        match r {
            Ok(gs) => games_of(lines_of(input@)) == Ok::<
                Seq<(u32, Seq<Roll>)>,
                (ParseErrorKind, Seq<char>),
            >(game_views(gs@)),
            Err(e) => games_of(lines_of(input@)) == Err::<
                Seq<(u32, Seq<Roll>)>,
                (ParseErrorKind, Seq<char>),
            >(e@),
        },
{
    let cs = chars_of(input);
    let ls = lines(&cs);
    let ghost lv = views(ls@);
    let mut out: Vec<Game> = Vec::new();
    let mut i: usize = 0;
    assert(lv.skip(0) =~= lv);
    assert(forall|gs: Seq<(u32, Seq<Roll>)>| game_views(out@) + gs =~= gs);
    while i < ls.len()
        invariant
            i <= ls.len(),
            lv == views(ls@),
            lv == lines_of(input@),
            games_of(lv) == (match games_of(lv.skip(i as int)) {
                Ok(gs) => Ok(game_views(out@) + gs),
                Err(e) => Err(e),
            }),
        decreases ls.len() - i,
    {
        assert(lv.skip(i as int).drop_first() =~= lv.skip(i + 1));
        assert(lv.skip(i as int)[0] == lv[i as int]);
        match game_from_chars(&ls[i]) {
            Ok(g) => {
                let ghost before = game_views(out@);
                let ghost gv = g@;
                out.push(g);
                assert(game_views(out@) =~= before.push(gv));
                assert(forall|gs: Seq<(u32, Seq<Roll>)>|
                    before + (seq![gv] + gs) =~= game_views(out@) + gs);
            },
            Err(e) => {
                return Err(e);
            },
        }
        i += 1;
    }
    assert(lv.skip(i as int) =~= Seq::<Seq<char>>::empty());
    assert(game_views(out@) + Seq::<(u32, Seq<Roll>)>::empty() =~= game_views(out@));
    Ok(out)
}

impl std::str::FromStr for Game {
    type Err = ParseError;

    fn from_str(s: &str) -> (r: Result<Game, ParseError>)
        ensures
            match r {
                Ok(g) => game_of(s@) == Ok::<(u32, Seq<Roll>), (ParseErrorKind, Seq<char>)>(g@),
                Err(e) => game_of(s@) == Err::<(u32, Seq<Roll>), (ParseErrorKind, Seq<char>)>(e@),
            },
    {
        Game::parse(s)
    }
}

impl std::str::FromStr for Roll {
    type Err = ParseError;

    fn from_str(s: &str) -> (r: Result<Roll, ParseError>)
        ensures
            match r {
                Ok(x) => roll_of(s@) == Ok::<Roll, Seq<char>>(x),
                Err(e) => roll_of(s@) == Err::<Roll, Seq<char>>(e@.1) && e@.0 == ParseErrorKind::Roll,
            },
    {
        Roll::parse(s)
    }
}

} // verus!

verus! {

/// A roll equal to the limit is possible, and one that exceeds the limit by
/// one in any single color is not.
pub proof fn lemma_possible_boundary(limit: Roll)
    ensures
        fits(limit, limit),
        limit.red < u32::MAX ==> !fits(
            Roll { blue: limit.blue, red: (limit.red + 1) as u32, green: limit.green },
            limit,
        ),
        limit.green < u32::MAX ==> !fits(
            Roll { blue: limit.blue, red: limit.red, green: (limit.green + 1) as u32 },
            limit,
        ),
        limit.blue < u32::MAX ==> !fits(
            Roll { blue: (limit.blue + 1) as u32, red: limit.red, green: limit.green },
            limit,
        ),
{
}

/// Folding the draws of a game of one draw gives that draw.
pub proof fn lemma_max_fold_single(r: Roll)
    ensures
        max_fold(seq![r]) == r,
{
    assert(seq![r].drop_last() =~= Seq::<Roll>::empty());
    assert(max_fold(Seq::<Roll>::empty()) == zero_roll());
}

} // verus!

verus! {

/// The chunk ` <n> <color>`.
pub open spec fn count_text(n: u32, color: Seq<char>) -> Seq<char> {
    seq![' '] + decimal(n as nat) + seq![' '] + color
}

/// A draw written with all three colors: ` <r> red, <g> green, <b> blue`.
pub open spec fn roll_text(r: Roll) -> Seq<char> {
    count_text(r.red, red_word()) + seq![','] + count_text(r.green, green_word()) + seq![',']
        + count_text(r.blue, blue_word())
}

/// The draws `rs` written one after the other, separated by `;`.
pub open spec fn draws_text(rs: Seq<Roll>) -> Seq<char>
    decreases rs.len(),
{
    if rs.len() == 0 {
        seq![]
    } else if rs.len() == 1 {
        roll_text(rs[0])
    } else {
        roll_text(rs[0]) + seq![';'] + draws_text(rs.drop_first())
    }
}

/// The line `Game <id>:<draws>`.
pub open spec fn game_text(id: u32, rs: Seq<Roll>) -> Seq<char> {
    game_word() + seq![' '] + decimal(id as nat) + seq![':'] + draws_text(rs)
}

/// A word of characters from `A` to `z`: no space, digit or separator.
pub open spec fn plain_word(w: Seq<char>) -> bool {
    w.len() > 0 && forall|i: int|
        0 <= i < w.len() ==> 'A' <= #[trigger] w[i] <= 'z'
}

proof fn lemma_count_words(n: u32, color: Seq<char>)
    requires
        plain_word(color),
    ensures
        words_of(count_text(n, color)) == seq![decimal(n as nat), color],
        forall|i: int|
            0 <= i < count_text(n, color).len() ==> #[trigger] count_text(n, color)[i] != ','
                && count_text(n, color)[i] != ';',
{
    let d = decimal(n as nat);
    lemma_decimal(n as nat);
    assert(forall|i: int| 0 <= i < d.len() ==> !is_space(#[trigger] d[i]) && d[i] != ','
        && d[i] != ';') by {
        assert(all_digits(d));
    }
    let t = count_text(n, color);
    assert(t =~= Seq::<char>::empty().push(' ') + (d.push(' ') + color));
    lemma_split_spaces_join(Seq::<char>::empty(), d.push(' ') + color, ' ');
    lemma_split_spaces_join(d, color, ' ');
    lemma_split_spaces_plain(d);
    lemma_split_spaces_plain(color);
    assert(split_spaces(Seq::<char>::empty()) == seq![Seq::<char>::empty()]);
    let parts = seq![Seq::<char>::empty()] + (seq![d] + seq![color]);
    assert(split_spaces(t) == parts);
    assert(parts =~= seq![Seq::<char>::empty(), d].push(color));
    assert(seq![Seq::<char>::empty(), d] =~= seq![Seq::<char>::empty()].push(d));
    assert(seq![Seq::<char>::empty()] =~= Seq::<Seq<char>>::empty().push(Seq::<char>::empty()));
    assert(non_empty(Seq::<Seq<char>>::empty()) == Seq::<Seq<char>>::empty());
    let e1 = seq![Seq::<char>::empty()];
    let e2 = seq![Seq::<char>::empty(), d];
    let e3 = seq![Seq::<char>::empty(), d, color];
    assert(e1.drop_last() =~= Seq::<Seq<char>>::empty());
    assert(e2.drop_last() =~= e1);
    assert(e3.drop_last() =~= e2);
    assert(parts =~= e3);
    assert(non_empty(e1) =~= Seq::<Seq<char>>::empty());
    assert(non_empty(e2) =~= seq![d]);
    assert(non_empty(e3) =~= seq![d, color]);
    assert forall|i: int| 0 <= i < t.len() implies #[trigger] t[i] != ',' && t[i] != ';' by {
        if 1 <= i < 1 + d.len() {
            assert(t[i] == d[i - 1]);
        }
    }
}

} // verus!

verus! {

proof fn lemma_roll_round(r: Roll)
    ensures
        roll_of(roll_text(r)) == Ok::<Roll, Seq<char>>(r),
        forall|i: int| 0 <= i < roll_text(r).len() ==> #[trigger] roll_text(r)[i] != ';',
{
    let c1 = count_text(r.red, red_word());
    let c2 = count_text(r.green, green_word());
    let c3 = count_text(r.blue, blue_word());
    assert(plain_word(red_word()));
    assert(plain_word(green_word()));
    assert(plain_word(blue_word()));
    lemma_count_words(r.red, red_word());
    lemma_count_words(r.green, green_word());
    lemma_count_words(r.blue, blue_word());
    lemma_parse_decimal(r.red);
    lemma_parse_decimal(r.green);
    lemma_parse_decimal(r.blue);
    let t = roll_text(r);
    assert(t =~= c1.push(',') + (c2.push(',') + c3));
    lemma_split_on_join(c1, c2.push(',') + c3, ',');
    lemma_split_on_join(c2, c3, ',');
    lemma_split_on_plain(c1, ',');
    lemma_split_on_plain(c2, ',');
    lemma_split_on_plain(c3, ',');
    let cs = seq![c1] + (seq![c2] + seq![c3]);
    assert(split_on(t, ',') == cs);
    assert(cs =~= seq![c1, c2, c3]);
    let a1 = Roll { blue: 0, red: r.red, green: 0 };
    let a2 = Roll { blue: 0, red: r.red, green: r.green };
    assert(chunk_roll(zero_roll(), c1) == Some(a1));
    assert(chunk_roll(a1, c2) == Some(a2));
    assert(chunk_roll(a2, c3) == Some(r));
    assert(seq![c1, c2, c3].drop_first() =~= seq![c2, c3]);
    assert(seq![c2, c3].drop_first() =~= seq![c3]);
    assert(seq![c3].drop_first() =~= Seq::<Seq<char>>::empty());
    assert(fold_chunks(r, Seq::<Seq<char>>::empty()) == Ok::<Roll, Seq<char>>(r));
    assert(fold_chunks(a2, seq![c3]) == Ok::<Roll, Seq<char>>(r));
    assert(fold_chunks(a1, seq![c2, c3]) == Ok::<Roll, Seq<char>>(r));
    assert forall|i: int| 0 <= i < t.len() implies #[trigger] t[i] != ';' by {
        if i < c1.len() {
            assert(t[i] == c1[i]);
        } else if i == c1.len() {
        } else if i < c1.len() + 1 + c2.len() {
            assert(t[i] == c2[i - c1.len() - 1]);
        } else if i == c1.len() + 1 + c2.len() {
        } else {
            assert(t[i] == c3[i - c1.len() - c2.len() - 2]);
        }
    }
}

} // verus!

verus! {

proof fn lemma_draws_round(rs: Seq<Roll>)
    requires
        rs.len() >= 1,
    ensures
        rolls_of(split_on(draws_text(rs), ';')) == Ok::<Seq<Roll>, Seq<char>>(rs),
    decreases rs.len(),
{
    let t = roll_text(rs[0]);
    lemma_roll_round(rs[0]);
    lemma_split_on_plain(t, ';');
    if rs.len() == 1 {
        assert(seq![t].drop_first() =~= Seq::<Seq<char>>::empty());
        assert(rolls_of(Seq::<Seq<char>>::empty()) == Ok::<Seq<Roll>, Seq<char>>(seq![]));
        assert(seq![rs[0]] + Seq::<Roll>::empty() =~= rs);
        assert(draws_text(rs) == t);
        assert(rolls_of(seq![t]) == Ok::<Seq<Roll>, Seq<char>>(rs));
    } else {
        let rest = rs.drop_first();
        lemma_draws_round(rest);
        assert(draws_text(rs) =~= t.push(';') + draws_text(rest));
        lemma_split_on_join(t, draws_text(rest), ';');
        let ds = seq![t] + split_on(draws_text(rest), ';');
        assert(ds.drop_first() =~= split_on(draws_text(rest), ';'));
        assert(ds[0] == t);
        assert(seq![rs[0]] + rest =~= rs);
        assert(split_on(draws_text(rs), ';') == ds);
        assert(rolls_of(ds) == Ok::<Seq<Roll>, Seq<char>>(rs));
    }
}

/// Writing a game as `Game <id>:` followed by its draws, each as
/// ` <r> red, <g> green, <b> blue` and separated by `;`, and reading the line
/// back gives the same id and draws.
pub proof fn lemma_game_round_trip(id: u32, rs: Seq<Roll>)
    requires
        rs.len() >= 1,
    ensures
        game_of(game_text(id, rs)) == Ok::<(u32, Seq<Roll>), (ParseErrorKind, Seq<char>)>(
            (id, rs),
        ),
{
    let g = game_word();
    let d = decimal(id as nat);
    let ds = draws_text(rs);
    let s = game_text(id, rs);
    let k: int = 5 + d.len() as int;
    lemma_decimal(id as nat);
    lemma_parse_decimal(id);
    assert(forall|i: int| 0 <= i < d.len() ==> !is_space(#[trigger] d[i]) && d[i] != ':') by {
        assert(all_digits(d));
    }
    assert(s[k] == ':');
    assert forall|j: int| 0 <= j < k implies #[trigger] s[j] != ':' by {
        if 5 <= j {
            assert(s[j] == d[j - 5]);
        }
    }
    lemma_find_from_at(s, ':', 0, k);
    let pre = s.take(k);
    assert(pre =~= g.push(' ') + d);
    lemma_split_spaces_join(g, d, ' ');
    lemma_split_spaces_plain(g);
    lemma_split_spaces_plain(d);
    let e2 = seq![g, d];
    assert(seq![g] + seq![d] =~= e2);
    assert(e2.drop_last() =~= seq![g]);
    assert(seq![g].drop_last() =~= Seq::<Seq<char>>::empty());
    assert(non_empty(Seq::<Seq<char>>::empty()) == Seq::<Seq<char>>::empty());
    assert(non_empty(seq![g]) =~= seq![g]);
    assert(non_empty(e2) =~= e2);
    assert(words_of(pre) == e2);
    assert(game_id(pre) == Some(id));
    assert(s.skip(k + 1) =~= ds);
    lemma_draws_round(rs);
}

} // verus!
