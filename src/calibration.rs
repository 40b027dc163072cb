//! Calibration lines: each line scores `10 * first + last`, where `first` and
//! `last` are the first and last digit tokens of the line. A token is an ASCII
//! digit or, in word mode, one of the words `zero` to `nine`; words may
//! overlap (`twone` holds both `two` and `one`).
use vstd::prelude::*;

use crate::error::{ParseError, ParseErrorKind};
use crate::text::{
    chars_of, digit_value, is_digit, lines, lines_of, string_of, trim, trim_chars, views,
};

verus! {

/// The spelling of the digit `k`.
pub open spec fn word(k: int) -> Seq<char> {
    if k == 0 {
        seq!['z', 'e', 'r', 'o']
    } else if k == 1 {
        seq!['o', 'n', 'e']
    } else if k == 2 {
        seq!['t', 'w', 'o']
    } else if k == 3 {
        seq!['t', 'h', 'r', 'e', 'e']
    } else if k == 4 {
        seq!['f', 'o', 'u', 'r']
    } else if k == 5 {
        seq!['f', 'i', 'v', 'e']
    } else if k == 6 {
        seq!['s', 'i', 'x']
    } else if k == 7 {
        seq!['s', 'e', 'v', 'e', 'n']
    } else if k == 8 {
        seq!['e', 'i', 'g', 'h', 't']
    } else {
        seq!['n', 'i', 'n', 'e']
    }
}

pub open spec fn starts_with(s: Seq<char>, p: Seq<char>) -> bool {
    p.len() <= s.len() && s.take(p.len() as int) == p
}

/// The first of the words `k..10` that the text at `i` begins with.
pub open spec fn word_from(s: Seq<char>, i: int, k: int) -> Option<u32>
    decreases 10 - k,
{
    if k >= 10 || k < 0 {
        None
    } else if starts_with(s.skip(i), word(k)) {
        Some(k as u32)
    } else {
        word_from(s, i, k + 1)
    }
}

/// The digit token at position `i` of `s`: the digit there, or in word mode
/// the digit word that begins there.
pub open spec fn token_at(s: Seq<char>, i: int, words: bool) -> Option<u32> {
    if is_digit(s[i]) {
        Some(digit_value(s[i]) as u32)
    } else if words {
        word_from(s, i, 0)
    } else {
        None
    }
}

/// The first token at a position `i` or later.
pub open spec fn scan_forward(s: Seq<char>, words: bool, i: int) -> Option<u32>
    decreases s.len() - i,
{
    if i < 0 || i >= s.len() {
        None
    } else {
        match token_at(s, i, words) {
            Some(v) => Some(v),
            None => scan_forward(s, words, i + 1),
        }
    }
}

/// The last token at a position before `n`.
pub open spec fn scan_backward(s: Seq<char>, words: bool, n: int) -> Option<u32>
    decreases n,
{
    if n <= 0 || n > s.len() {
        None
    } else {
        match token_at(s, n - 1, words) {
            Some(v) => Some(v),
            None => scan_backward(s, words, n - 1),
        }
    }
}

pub open spec fn first_token(s: Seq<char>, words: bool) -> Option<u32> {
    scan_forward(s, words, 0)
}

pub open spec fn last_token(s: Seq<char>, words: bool) -> Option<u32> {
    scan_backward(s, words, s.len() as int)
}

/// The score of a line, if it holds a token.
pub open spec fn line_value(s: Seq<char>, words: bool) -> Option<u32> {
    match (first_token(s, words), last_token(s, words)) {
        (Some(f), Some(l)) => Some((10 * f + l) as u32),
        _ => None,
    }
}

/// The spelling of the digit `k`.
fn word_chars(k: usize) -> (r: Vec<char>)
    requires
        k < 10,
    ensures
        r@ == word(k as int),
{
    let r = if k == 0 {
        vec!['z', 'e', 'r', 'o']
    } else if k == 1 {
        vec!['o', 'n', 'e']
    } else if k == 2 {
        vec!['t', 'w', 'o']
    } else if k == 3 {
        vec!['t', 'h', 'r', 'e', 'e']
    } else if k == 4 {
        vec!['f', 'o', 'u', 'r']
    } else if k == 5 {
        vec!['f', 'i', 'v', 'e']
    } else if k == 6 {
        vec!['s', 'i', 'x']
    } else if k == 7 {
        vec!['s', 'e', 'v', 'e', 'n']
    } else if k == 8 {
        vec!['e', 'i', 'g', 'h', 't']
    } else {
        vec!['n', 'i', 'n', 'e']
    };
    assert(r@ =~= word(k as int));
    r
}

/// Whether the text of `s` at `i` begins with `p`.
fn starts_with_at(s: &Vec<char>, i: usize, p: &Vec<char>) -> (r: bool)
    requires
        i <= s.len(),
    ensures
        r == starts_with(s@.skip(i as int), p@),
{
    if p.len() > s.len() - i {
        return false;
    }
    let mut j: usize = 0;
    while j < p.len()
        invariant
            j <= p.len() <= s.len() - i,
            forall|m: int| 0 <= m < j ==> s@[i + m] == p@[m],
        decreases p.len() - j,
    {
        if s[i + j] != p[j] {
            assert(s@.skip(i as int).take(p.len() as int)[j as int] != p@[j as int]);
            return false;
        }
        j += 1;
    }
    assert(s@.skip(i as int).take(p.len() as int) =~= p@);
    true
}

/// The digit token at position `i`.
fn token_at_exec(s: &Vec<char>, i: usize, words: bool) -> (r: Option<u32>)
    requires
        i < s.len(),
    ensures
        r == token_at(s@, i as int, words),
{
    let c = s[i];
    if '0' <= c && c <= '9' {
        return Some(c as u32 - '0' as u32);
    }
    if !words {
        return None;
    }
    let mut k: usize = 0;
    while k < 10
        invariant
            k <= 10,
            i < s.len(),
            words,
            !is_digit(s@[i as int]),
            word_from(s@, i as int, k as int) == word_from(s@, i as int, 0),
        decreases 10 - k,
    {
        let w = word_chars(k);
        if starts_with_at(s, i, &w) {
            return Some(k as u32);
        }
        k += 1;
    }
    None
}

/// The first (or, with `reverse`, the last) token of `s`.
fn find_token(s: &Vec<char>, words: bool, reverse: bool) -> (r: Option<u32>)
    ensures
        r == (if reverse {
            last_token(s@, words)
        } else {
            first_token(s@, words)
        }),
{
    if reverse {
        let mut n: usize = s.len();
        while n > 0
            invariant
                n <= s.len(),
                reverse,
                scan_backward(s@, words, n as int) == last_token(s@, words),
            decreases n,
        {
            let t = token_at_exec(s, n - 1, words);
            if t.is_some() {
                return t;
            }
            n -= 1;
        }
        None
    } else {
        let mut i: usize = 0;
        while i < s.len()
            invariant
                i <= s.len(),
                !reverse,
                scan_forward(s@, words, i as int) == first_token(s@, words),
            decreases s.len() - i,
        {
            let t = token_at_exec(s, i, words);
            if t.is_some() {
                return t;
            }
            i += 1;
        }
        None
    }
}

/// The first digit token of `line` (or the last, with `reverse`), where a
/// token is an ASCII digit or one of the words `zero` to `nine`.
pub fn find_map_inc_strings(line: &str, reverse: bool) -> (r: Option<u32>)
    ensures
        r == (if reverse {
            last_token(line@, true)
        } else {
            first_token(line@, true)
        }),
{
    let s = chars_of(line);
    find_token(&s, true, reverse)
}

} // verus!

verus! {

/// The total of a sequence of lines: blank lines (after trimming) are
/// skipped, every other line adds its score, and the first line without a
/// token ends the total with that line.
pub open spec fn calibration_total(ls: Seq<Seq<char>>, words: bool) -> Result<int, Seq<char>>
    decreases ls.len(),
{
    if ls.len() == 0 {
        Ok(0)
    } else {
        match calibration_total(ls.drop_last(), words) {
            Err(e) => Err(e),
            Ok(t) => {
                let l = trim(ls.last());
                if l.len() == 0 {
                    Ok(t)
                } else {
                    match line_value(l, words) {
                        Some(v) => Ok(t + v),
                        None => Err(l),
                    }
                }
            },
        }
    }
}

/// Whether every running total of `ls`, up to the first line without a
/// token, fits in a `u32`.
pub open spec fn total_fits(ls: Seq<Seq<char>>, words: bool) -> bool {
    forall|k: int|
        0 <= k <= ls.len() ==> (#[trigger] calibration_total(ls.take(k), words) matches Ok(t) ==> t
            <= u32::MAX)
}

proof fn lemma_total_err_stays(ls: Seq<Seq<char>>, words: bool, k: int)
    requires
        0 <= k <= ls.len(),
        calibration_total(ls.take(k), words) is Err,
    ensures
        calibration_total(ls, words) == calibration_total(ls.take(k), words),
    decreases ls.len(),
{
    if k < ls.len() {
        assert(ls.drop_last().take(k) =~= ls.take(k));
        lemma_total_err_stays(ls.drop_last(), words, k);
    } else {
        assert(ls.take(k) =~= ls);
    }
}

/// The score of a line: `10 * first + last`, over its first and last tokens.
fn score_chars(s: &Vec<char>, words: bool) -> (r: Result<u32, ParseError>)
    ensures
        match r {
            Ok(v) => line_value(s@, words) == Some(v),
            Err(e) => line_value(s@, words) is None && e@ == (ParseErrorKind::NoDigit, s@),
        },
{
    let first = find_token(s, words, false);
    let last = find_token(s, words, true);
    match (first, last) {
        (Some(f), Some(l)) => {
            proof {
                lemma_token_is_digit(s@, words, 0);
                lemma_last_token_is_digit(s@, words, s@.len() as int);
            }
            Ok(f * 10 + l)
        },
        _ => Err(ParseError { kind: ParseErrorKind::NoDigit, text: string_of(s.as_slice()) }),
    }
}

proof fn lemma_word_from_small(s: Seq<char>, i: int, k: int)
    ensures
        word_from(s, i, k) matches Some(v) ==> v < 10,
    decreases 10 - k,
{
    if 0 <= k < 10 {
        lemma_word_from_small(s, i, k + 1);
    }
}

proof fn lemma_token_is_digit(s: Seq<char>, words: bool, i: int)
    ensures
        scan_forward(s, words, i) matches Some(v) ==> v < 10,
    decreases s.len() - i,
{
    if 0 <= i < s.len() {
        lemma_word_from_small(s, i, 0);
        lemma_token_is_digit(s, words, i + 1);
    }
}

proof fn lemma_last_token_is_digit(s: Seq<char>, words: bool, n: int)
    ensures
        scan_backward(s, words, n) matches Some(v) ==> v < 10,
    decreases n,
{
    if 0 < n <= s.len() {
        lemma_word_from_small(s, n - 1, 0);
        lemma_last_token_is_digit(s, words, n - 1);
    }
}

/// The score of `line`, `10 * first + last` over its first and last digit
/// tokens (digit words count with `include_strings`); fails when the line
/// holds no token.
pub fn line_score(line: &str, include_strings: bool) -> (r: Result<u32, ParseError>)
    ensures
        match r {
            Ok(v) => line_value(line@, include_strings) == Some(v),
            Err(e) => line_value(line@, include_strings) is None && e@ == (
            ParseErrorKind::NoDigit,
            line@,
            ),
        },
{
    let s = chars_of(line);
    score_chars(&s, include_strings)
}

/// The sum of the scores of the non-blank lines of `input`; fails with the
/// first trimmed line that holds no token.
pub fn solve(input: &str, include_strings: bool) -> (r: Result<u32, ParseError>)
    requires
        total_fits(lines_of(input@), include_strings),
    ensures
        match r {
            Ok(v) => calibration_total(lines_of(input@), include_strings) == Ok::<int, Seq<char>>(v as int),
            Err(e) => calibration_total(lines_of(input@), include_strings) == Err::<int, Seq<char>>(e@.1) && e@.0
                == ParseErrorKind::NoDigit,
        },
{
    let cs = chars_of(input);
    let ls = lines(&cs);
    let ghost lv = views(ls@);
    let mut acc: u32 = 0;
    let mut i: usize = 0;
    assert(lv.take(0) =~= Seq::<Seq<char>>::empty());
    while i < ls.len()
        invariant
            i <= ls.len(),
            lv == views(ls@),
            lv == lines_of(input@),
            total_fits(lv, include_strings),
            calibration_total(lv.take(i as int), include_strings) == Ok::<int, Seq<char>>(acc as int),
        decreases ls.len() - i,
    {
        let t = trim_chars(&ls[i]);
        assert(lv.take(i + 1).drop_last() =~= lv.take(i as int));
        assert(calibration_total(lv.take(i + 1), include_strings) matches Ok(t) ==> t <= u32::MAX);
        if t.len() > 0 {
            match score_chars(&t, include_strings) {
                Ok(v) => {
                    acc = acc + v;
                },
                Err(e) => {
                    proof {
                        lemma_total_err_stays(lv, include_strings, i + 1);
                    }
                    return Err(e);
                },
            }
        }
        i += 1;
    }
    assert(lv.take(i as int) =~= lv);
    Ok(acc)
}

/// The digits-only total of `input`.
pub fn part1(input: &str) -> (r: Result<u32, ParseError>)
    requires
        total_fits(lines_of(input@), false),
    ensures
        match r {
            Ok(v) => calibration_total(lines_of(input@), false) == Ok::<int, Seq<char>>(v as int),
            Err(e) => calibration_total(lines_of(input@), false) == Err::<int, Seq<char>>(e@.1) && e@.0
                == ParseErrorKind::NoDigit,
        },
{
    solve(input, false)
}

/// The total of `input` where digit words count as digits.
pub fn part2(input: &str) -> (r: Result<u32, ParseError>)
    requires
        total_fits(lines_of(input@), true),
    ensures
        match r {
            Ok(v) => calibration_total(lines_of(input@), true) == Ok::<int, Seq<char>>(v as int),
            Err(e) => calibration_total(lines_of(input@), true) == Err::<int, Seq<char>>(e@.1) && e@.0
                == ParseErrorKind::NoDigit,
        },
{
    solve(input, true)
}

} // verus!

verus! {

proof fn lemma_scan_forward_digit(s: Seq<char>, i: int, k: int)
    requires
        0 <= k <= i < s.len(),
        is_digit(s[i]),
        forall|m: int| 0 <= m < i ==> !is_digit(#[trigger] s[m]),
    ensures
        scan_forward(s, false, k) == Some(digit_value(s[i]) as u32),
    decreases i - k,
{
    if k < i {
        lemma_scan_forward_digit(s, i, k + 1);
    }
}

proof fn lemma_scan_backward_digit(s: Seq<char>, j: int, n: int)
    requires
        0 <= j < n <= s.len(),
        is_digit(s[j]),
        forall|m: int| j < m < s.len() ==> !is_digit(#[trigger] s[m]),
    ensures
        scan_backward(s, false, n) == Some(digit_value(s[j]) as u32),
    decreases n - j,
{
    if n - 1 > j {
        lemma_scan_backward_digit(s, j, n - 1);
    }
}

/// In digits-only mode, a line whose first digit stands at `i` and whose last
/// digit stands at `j` scores ten times the first digit plus the last.
pub proof fn lemma_digits_only_score(s: Seq<char>, i: int, j: int)
    requires
        0 <= i <= j < s.len(),
        is_digit(s[i]),
        is_digit(s[j]),
        forall|m: int| 0 <= m < i ==> !is_digit(#[trigger] s[m]),
        forall|m: int| j < m < s.len() ==> !is_digit(#[trigger] s[m]),
    ensures
        line_value(s, false) == Some((10 * digit_value(s[i]) + digit_value(s[j])) as u32),
{
    lemma_scan_forward_digit(s, i, 0);
    lemma_scan_backward_digit(s, j, s.len() as int);
}

} // verus!
