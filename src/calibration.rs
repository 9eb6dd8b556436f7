//! Calibration values: the first and the last digit of each line, read as a
//! two-digit number.
use vstd::prelude::*;
use crate::text::{chars_of, is_digit, digit_of};

verus! {

pub open spec fn has_digit(s: Seq<char>) -> bool {
    exists|i: int| 0 <= i < s.len() && is_digit(#[trigger] s[i])
}

/// The first digit of `s`.
pub open spec fn first_digit(s: Seq<char>) -> int
    decreases s.len(),
{
    if s.len() == 0 {
        0
    } else if is_digit(s[0]) {
        digit_of(s[0])
    } else {
        first_digit(s.drop_first())
    }
}

/// The last digit of `s`.
pub open spec fn last_digit(s: Seq<char>) -> int
    decreases s.len(),
{
    if s.len() == 0 {
        0
    } else if is_digit(s.last()) {
        digit_of(s.last())
    } else {
        last_digit(s.drop_last())
    }
}

pub open spec fn calibration_value(s: Seq<char>) -> int {
    first_digit(s) * 10 + last_digit(s)
}

/// The calibration values of the first `k` lines, added up.
pub open spec fn calibration_total(lines: Seq<String>, k: int) -> int
    decreases k,
{
    if k <= 0 || k > lines.len() {
        0
    } else {
        calibration_total(lines, k - 1) + calibration_value(lines[k - 1]@)
    }
}

proof fn lemma_digits_range(s: Seq<char>)
    ensures
        0 <= first_digit(s) <= 9,
        0 <= last_digit(s) <= 9,
    decreases s.len(),
{
    if s.len() > 0 {
        lemma_digits_range(s.drop_first());
        lemma_digits_range(s.drop_last());
    }
}

proof fn lemma_total_mono(lines: Seq<String>, k: int)
    requires
        0 <= k <= lines.len(),
    ensures
        0 <= calibration_total(lines, k) <= calibration_total(lines, lines.len() as int),
    decreases lines.len() - k,
{
    lemma_total_nonneg(lines, k);
    if k < lines.len() {
        lemma_total_mono(lines, k + 1);
        lemma_digits_range(lines[k]@);
    }
}

proof fn lemma_total_nonneg(lines: Seq<String>, k: int)
    ensures
        calibration_total(lines, k) >= 0,
    decreases k,
{
    if !(k <= 0 || k > lines.len()) {
        lemma_total_nonneg(lines, k - 1);
        lemma_digits_range(lines[k - 1]@);
    }
}

/// The calibration value of one line.
fn line_value(line: &String) -> (r: u32)
    ensures
        r == calibration_value(line@),
{
    let cs = chars_of(line.as_str());
    let ghost s = cs@;
    proof {
        lemma_digits_range(s);
    }
    let mut first: u32 = 0;
    let mut i: usize = 0;
    assert(s.subrange(0, s.len() as int) == s);
    while i < cs.len()
        invariant_except_break
            first == 0,
        invariant
            s == cs@,
            0 <= i <= s.len(),
            first_digit(s) == first_digit(s.subrange(i as int, s.len() as int)),
        ensures
            first == first_digit(s),
        decreases s.len() - i,
    {
        assert(s.subrange(i as int, s.len() as int).drop_first() == s.subrange(i as int + 1, s.len() as int));
        let c = cs[i];
        if '0' <= c && c <= '9' {
            first = c as u32 - '0' as u32;
            break;
        }
        i = i + 1;
    }
    assert(s.subrange(s.len() as int, s.len() as int).len() == 0);
    let mut last: u32 = 0;
    let mut j: usize = cs.len();
    assert(s.take(s.len() as int) == s);
    while j > 0
        invariant_except_break
            last == 0,
        invariant
            s == cs@,
            0 <= j <= s.len(),
            last_digit(s) == last_digit(s.take(j as int)),
        ensures
            last == last_digit(s),
        decreases j,
    {
        assert(s.take(j as int).drop_last() == s.take(j as int - 1));
        let c = cs[j - 1];
        if '0' <= c && c <= '9' {
            last = c as u32 - '0' as u32;
            break;
        }
        j = j - 1;
    }
    assert(s.take(0).len() == 0);
    first * 10 + last
}

/// The sum of the calibration values of all lines.
pub fn pt1_calibration_sum(lines: Vec<String>) -> (r: u32)
    requires
        forall|i: int| 0 <= i < lines@.len() ==> has_digit(#[trigger] lines@[i]@),
        calibration_total(lines@, lines@.len() as int) <= u32::MAX,
    ensures
        r == calibration_total(lines@, lines@.len() as int),
{
    let mut acc: u32 = 0;
    let mut k: usize = 0;
    while k < lines.len()
        invariant
            0 <= k <= lines@.len(),
            calibration_total(lines@, lines@.len() as int) <= u32::MAX,
            acc == calibration_total(lines@, k as int),
        decreases lines@.len() - k,
    {
        proof {
            lemma_total_mono(lines@, k + 1);
        }
        let v = line_value(&lines[k]);
        acc = acc + v;
        k = k + 1;
    }
    acc
}

/// `s` with every match of `from`, left to right and not overlapping, made `to`.
pub open spec fn replaced(s: Seq<char>, from: Seq<char>, to: Seq<char>) -> Seq<char>
    decreases s.len(),
{
    if s.len() == 0 || from.len() == 0 {
        s
    } else if from.len() <= s.len() && s.take(from.len() as int) == from {
        to + replaced(s.skip(from.len() as int), from, to)
    } else {
        seq![s[0]] + replaced(s.drop_first(), from, to)
    }
}

/// Relies on `str::replace`: every match of `from`, taken left to right and
/// not overlapping, is replaced by `to`.
#[verifier::external_body]
fn replace_all(s: &str, from: &str, to: &str) -> (r: String)
    requires
        from@.len() > 0,
    ensures
        r@ == replaced(s@, from@, to@),
{
    s.replace(from, to)
}

/// The line with the digits that are spelled out written as digits; where
/// two words share a letter both count.
pub open spec fn spelled_out(s: Seq<char>) -> Seq<char> {
    let s = replaced(s, "oneight"@, "18"@);
    let s = replaced(s, "twone"@, "21"@);
    let s = replaced(s, "eightwo"@, "82"@);
    let s = replaced(s, "eighthree"@, "83"@);
    let s = replaced(s, "sevenine"@, "79"@);
    let s = replaced(s, "nineight"@, "98"@);
    let s = replaced(s, "one"@, "1"@);
    let s = replaced(s, "two"@, "2"@);
    let s = replaced(s, "three"@, "3"@);
    let s = replaced(s, "four"@, "4"@);
    let s = replaced(s, "five"@, "5"@);
    let s = replaced(s, "six"@, "6"@);
    let s = replaced(s, "seven"@, "7"@);
    let s = replaced(s, "eight"@, "8"@);
    replaced(s, "nine"@, "9"@)
}

/// The calibration values, digits spelled out counting, of the first `k` lines.
pub open spec fn spelled_total(lines: Seq<String>, k: int) -> int
    decreases k,
{
    if k <= 0 || k > lines.len() {
        0
    } else {
        spelled_total(lines, k - 1) + calibration_value(spelled_out(lines[k - 1]@))
    }
}

proof fn lemma_spelled_mono(lines: Seq<String>, k: int)
    requires
        0 <= k <= lines.len(),
    ensures
        0 <= spelled_total(lines, k) <= spelled_total(lines, lines.len() as int),
    decreases lines.len() - k,
{
    lemma_spelled_nonneg(lines, k);
    if k < lines.len() {
        lemma_spelled_mono(lines, k + 1);
        lemma_digits_range(spelled_out(lines[k]@));
    }
}

proof fn lemma_spelled_nonneg(lines: Seq<String>, k: int)
    ensures
        spelled_total(lines, k) >= 0,
    decreases k,
{
    if !(k <= 0 || k > lines.len()) {
        lemma_spelled_nonneg(lines, k - 1);
        lemma_digits_range(spelled_out(lines[k - 1]@));
    }
}

/// One step of spelling out: replaces `from` by `to` in `s`.
fn spell(s: &String, from: &str, to: &str) -> (r: String)
    requires
        from@.len() > 0,
    ensures
        r@ == replaced(s@, from@, to@),
{
    replace_all(s.as_str(), from, to)
}

/// The line with its spelled-out digits written as digits.
fn spell_out(line: &String) -> (r: String)
    ensures
        r@ == spelled_out(line@),
{
    proof {
        reveal_strlit("oneight");
        reveal_strlit("twone");
        reveal_strlit("eightwo");
        reveal_strlit("eighthree");
        reveal_strlit("sevenine");
        reveal_strlit("nineight");
        reveal_strlit("one");
        reveal_strlit("two");
        reveal_strlit("three");
        reveal_strlit("four");
        reveal_strlit("five");
        reveal_strlit("six");
        reveal_strlit("seven");
        reveal_strlit("eight");
        reveal_strlit("nine");
    }
    let s = spell(line, "oneight", "18");
    let s = spell(&s, "twone", "21");
    let s = spell(&s, "eightwo", "82");
    let s = spell(&s, "eighthree", "83");
    let s = spell(&s, "sevenine", "79");
    let s = spell(&s, "nineight", "98");
    let s = spell(&s, "one", "1");
    let s = spell(&s, "two", "2");
    let s = spell(&s, "three", "3");
    let s = spell(&s, "four", "4");
    let s = spell(&s, "five", "5");
    let s = spell(&s, "six", "6");
    let s = spell(&s, "seven", "7");
    let s = spell(&s, "eight", "8");
    spell(&s, "nine", "9")
}

/// The sum of the calibration values, with digits spelled out in letters
/// counting as digits.
pub fn pt2_calibration_sum(lines: Vec<String>) -> (r: u32)
    requires
        forall|i: int| 0 <= i < lines@.len() ==> has_digit(spelled_out(#[trigger] lines@[i]@)),
        spelled_total(lines@, lines@.len() as int) <= u32::MAX,
    ensures
        r == spelled_total(lines@, lines@.len() as int),
{
    let mut acc: u32 = 0;
    let mut k: usize = 0;
    while k < lines.len()
        invariant
            0 <= k <= lines@.len(),
            spelled_total(lines@, lines@.len() as int) <= u32::MAX,
            acc == spelled_total(lines@, k as int),
        decreases lines@.len() - k,
    {
        proof {
            lemma_spelled_mono(lines@, k + 1);
        }
        let t = spell_out(&lines[k]);
        let v = line_value(&t);
        acc = acc + v;
        k = k + 1;
    }
    acc
}

} // verus!
