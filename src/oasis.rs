//! Extrapolating number sequences by repeated differences.
use vstd::prelude::*;
use crate::text::{chars_of, split_chars, split_on, lines_of, split_lines, parse_u64, decimal, all_digits};

verus! {

pub open spec fn ints(v: Seq<i64>) -> Seq<int> {
    v.map_values(|x: i64| x as int)
}

/// The differences between consecutive numbers.
pub open spec fn diffs(s: Seq<int>) -> Seq<int> {
    if s.len() == 0 {
        Seq::empty()
    } else {
        Seq::new((s.len() - 1) as nat, |i: int| s[i + 1] - s[i])
    }
}

pub open spec fn all_zero(s: Seq<int>) -> bool {
    forall|i: int| 0 <= i < s.len() ==> s[i] == 0
}

/// The rows of differences below `s`, down to the last row that is not all zeros.
pub open spec fn stack(s: Seq<int>) -> Seq<Seq<int>>
    decreases s.len(),
{
    if s.len() == 0 || all_zero(diffs(s)) {
        Seq::empty()
    } else {
        seq![diffs(s)] + stack(diffs(s))
    }
}

pub open spec fn in_i64(v: int) -> bool {
    i64::MIN <= v <= i64::MAX
}

/// `s` and every row of differences below it hold only numbers that fit in an `i64`.
pub open spec fn fits(s: Seq<int>) -> bool
    decreases s.len(),
{
    &&& forall|i: int| 0 <= i < s.len() ==> in_i64(#[trigger] s[i])
    &&& s.len() > 0 ==> fits(diffs(s))
}

/// The sum of the last numbers of the rows from `k` on.
pub open spec fn sum_lasts(rows: Seq<Seq<int>>, k: int) -> int
    decreases rows.len() - k,
{
    if k >= rows.len() || k < 0 {
        0
    } else {
        rows[k].last() + sum_lasts(rows, k + 1)
    }
}

/// The alternating sum `f(k) - (f(k+1) - (... - f(last)))` of the first numbers of the rows.
pub open spec fn alt_firsts(rows: Seq<Seq<int>>, k: int) -> int
    decreases rows.len() - k,
{
    if k >= rows.len() - 1 || k < 0 {
        if 0 <= k < rows.len() {
            rows[k][0]
        } else {
            0
        }
    } else {
        rows[k][0] - alt_firsts(rows, k + 1)
    }
}

/// The next number of `s`.
pub open spec fn next_value(s: Seq<int>) -> int {
    s.last() + sum_lasts(stack(s), 0)
}

/// The number before the first of `s`.
pub open spec fn prev_value(s: Seq<int>) -> int {
    s[0] - alt_firsts(stack(s), 0)
}

pub struct Sequence {
    pub numbers: Vec<i64>,
}

proof fn lemma_stack_rows(s: Seq<int>)
    requires
        fits(s),
    ensures
        forall|k: int| 0 <= k < stack(s).len() ==> (#[trigger] stack(s)[k]).len() > 0 && fits(stack(s)[k]),
        stack(s).len() < s.len() || s.len() == 0,
    decreases s.len(),
{
    if s.len() > 0 && !all_zero(diffs(s)) {
        let d = diffs(s);
        lemma_stack_rows(d);
        assert forall|k: int| 0 <= k < stack(s).len() implies (#[trigger] stack(s)[k]).len() > 0 && fits(stack(s)[k]) by {
            if k > 0 {
                assert(stack(s)[k] == stack(d)[k - 1]);
            } else {
                assert(stack(s)[0] == d);
            }
        }
    }
}

impl Sequence {
    pub fn increments(&self) -> (r: Self)
        requires
            self.numbers@.len() >= 1,
            fits(ints(self.numbers@)),
        ensures
            ints(r.numbers@) == diffs(ints(self.numbers@)),
    {
        let ghost s = ints(self.numbers@);
        let ghost d = diffs(s);
        proof {
            reveal_with_fuel(fits, 2);
        }
        assert(forall|i: int| 0 <= i < d.len() ==> in_i64(#[trigger] d[i]));
        let mut out: Vec<i64> = Vec::new();
        let mut i: usize = 0;
        while i < self.numbers.len() - 1
            invariant
                s == ints(self.numbers@),
                d == diffs(s),
                self.numbers@.len() >= 1,
                forall|i: int| 0 <= i < d.len() ==> in_i64(#[trigger] d[i]),
                0 <= i < self.numbers@.len(),
                out@.len() == i,
                forall|k: int| 0 <= k < i ==> #[trigger] out@[k] as int == d[k],
            decreases self.numbers@.len() - i,
        {
            assert(in_i64(d[i as int]));
            out.push(self.numbers[i + 1] - self.numbers[i]);
            i = i + 1;
        }
        let r = Sequence { numbers: out };
        assert(ints(r.numbers@) =~= d);
        r
    }

    /// The rows of differences below this sequence, down to the last that is not all zeros.
    pub fn increments_stack(&self) -> (r: Vec<Self>)
        requires
            self.numbers@.len() >= 1,
            fits(ints(self.numbers@)),
        ensures
            r@.map_values(|q: Sequence| ints(q.numbers@)) == stack(ints(self.numbers@)),
    {
        let ghost s = ints(self.numbers@);
        let mut rows: Vec<Sequence> = Vec::new();
        let mut cur = self.increments();
        loop
            invariant
                s == ints(self.numbers@),
                s.len() >= 1,
                fits(ints(cur.numbers@)),
                stack(s) == rows@.map_values(|q: Sequence| ints(q.numbers@)) + if all_zero(ints(cur.numbers@)) {
                    Seq::<Seq<int>>::empty()
                } else {
                    seq![ints(cur.numbers@)] + stack(ints(cur.numbers@))
                },
            ensures
                stack(s) == rows@.map_values(|q: Sequence| ints(q.numbers@)),
            decreases cur.numbers@.len(),
        {
            let mut zero = true;
            let mut i: usize = 0;
            while i < cur.numbers.len()
                invariant
                    0 <= i <= cur.numbers@.len(),
                    zero == forall|k: int| 0 <= k < i ==> cur.numbers@[k] == 0,
                decreases cur.numbers@.len() - i,
            {
                if cur.numbers[i] != 0 {
                    zero = false;
                }
                i = i + 1;
            }
            proof {
                assert(zero == all_zero(ints(cur.numbers@))) by {
                    assert forall|k: int| 0 <= k < cur.numbers@.len() implies ints(cur.numbers@)[k] == cur.numbers@[k] as int by {}
                }
            }
            if zero {
                proof {
                    let mapped = rows@.map_values(|q: Sequence| ints(q.numbers@));
                    assert(mapped + Seq::<Seq<int>>::empty() =~= mapped);
                    assert(stack(s) == mapped);
                }
                break;
            }
            let next = cur.increments();
            let ghost old_rows = rows@;
            rows.push(cur);
            proof {
                assert(rows@.map_values(|q: Sequence| ints(q.numbers@)) == old_rows.map_values(
                    |q: Sequence| ints(q.numbers@),
                ).push(ints(cur.numbers@)));
            }
            cur = next;
        }
        rows
    }

    /// The next number of the sequence.
    pub fn next_num(&self) -> (r: i64)
        requires
            self.numbers@.len() >= 1,
            fits(ints(self.numbers@)),
            in_i64(next_value(ints(self.numbers@))),
        ensures
            r == next_value(ints(self.numbers@)),
    {
        let ghost s = ints(self.numbers@);
        let rows = self.increments_stack();
        let ghost st = stack(s);
        proof {
            lemma_stack_rows(s);
        }
        let n = self.numbers.len();
        let mut acc: i128 = self.numbers[n - 1] as i128;
        let mut k: usize = 0;
        while k < rows.len()
            invariant
                st == stack(s),
                rows@.map_values(|q: Sequence| ints(q.numbers@)) == st,
                forall|j: int| 0 <= j < st.len() ==> (#[trigger] st[j]).len() > 0,
                st.len() < s.len(),
                s.len() == n,
                0 <= k <= rows@.len(),
                acc + sum_lasts(st, k as int) == next_value(s),
                -(k + 1) * 0x8000_0000_0000_0000 <= acc <= (k + 1) * 0x8000_0000_0000_0000,
            decreases rows@.len() - k,
        {
            let row = &rows[k];
            assert(ints(row.numbers@) == st[k as int]);
            assert(row.numbers@.len() == st[k as int].len());
            let last = row.numbers[row.numbers.len() - 1];
            assert(last as int == st[k as int].last());
            acc = acc + last as i128;
            k = k + 1;
        }
        acc as i64
    }

    /// The number before the first of the sequence.
    pub fn prev_num(&self) -> (r: i64)
        requires
            self.numbers@.len() >= 1,
            fits(ints(self.numbers@)),
            stack(ints(self.numbers@)).len() >= 1,
            in_i64(prev_value(ints(self.numbers@))),
        ensures
            r == prev_value(ints(self.numbers@)),
    {
        let ghost s = ints(self.numbers@);
        let rows = self.increments_stack();
        let ghost st = stack(s);
        proof {
            lemma_stack_rows(s);
        }
        let count = rows.len();
        assert(ints(rows@[count - 1].numbers@) == st[count - 1]);
        let mut acc: i128 = rows[count - 1].numbers[0] as i128;
        let mut k: usize = count - 1;
        while k > 0
            invariant
                st == stack(s),
                rows@.map_values(|q: Sequence| ints(q.numbers@)) == st,
                forall|j: int| 0 <= j < st.len() ==> (#[trigger] st[j]).len() > 0,
                st.len() < s.len(),
                count == st.len(),
                0 <= k < count,
                acc == alt_firsts(st, k as int),
                -(count - k) * 0x8000_0000_0000_0000 <= acc <= (count - k) * 0x8000_0000_0000_0000,
            decreases k,
        {
            k = k - 1;
            let row = &rows[k];
            assert(ints(row.numbers@) == st[k as int]);
            assert(row.numbers@.len() == st[k as int].len());
            acc = row.numbers[0] as i128 - acc;
        }
        (self.numbers[0] as i128 - acc) as i64
    }

}

/// The sum of the next numbers of the first `k` sequences.
pub open spec fn total_next(seqs: Seq<Sequence>, k: int) -> int
    decreases k,
{
    if k <= 0 {
        0
    } else {
        total_next(seqs, k - 1) + next_value(ints(seqs[k - 1].numbers@))
    }
}

/// The sum of the numbers before the first of the first `k` sequences.
pub open spec fn total_prev(seqs: Seq<Sequence>, k: int) -> int
    decreases k,
{
    if k <= 0 {
        0
    } else {
        total_prev(seqs, k - 1) + prev_value(ints(seqs[k - 1].numbers@))
    }
}

pub open spec fn extrapolates(q: Sequence) -> bool {
    &&& q.numbers@.len() >= 1
    &&& fits(ints(q.numbers@))
    &&& in_i64(next_value(ints(q.numbers@)))
}

pub open spec fn extrapolates_back(q: Sequence) -> bool {
    &&& q.numbers@.len() >= 1
    &&& fits(ints(q.numbers@))
    &&& stack(ints(q.numbers@)).len() >= 1
    &&& in_i64(prev_value(ints(q.numbers@)))
}

pub struct Report {
    pub sequences: Vec<Sequence>,
}

/// The words of a line: the pieces between spaces that are not empty.
pub open spec fn words(line: Seq<char>) -> Seq<Seq<char>> {
    split_on(line, ' ').filter(|w: Seq<char>| w.len() > 0)
}

/// The number a word writes: decimal digits, with a `-` in front for a negative one.
pub open spec fn signed_value(w: Seq<char>) -> int {
    if w.len() > 0 && w[0] == '-' {
        -decimal(w.drop_first())
    } else {
        decimal(w)
    }
}

pub open spec fn word_ok(w: Seq<char>) -> bool {
    let digits = if w.len() > 0 && w[0] == '-' { w.drop_first() } else { w };
    &&& digits.len() > 0
    &&& all_digits(digits)
    &&& decimal(digits) <= i64::MAX
}

/// Every word of the line is a number that fits in an `i64`.
pub open spec fn line_ok(line: Seq<char>) -> bool {
    forall|j: int|
        0 <= j < split_on(line, ' ').len() && (#[trigger] split_on(line, ' ')[j]).len() > 0 ==> word_ok(
            split_on(line, ' ')[j],
        )
}

/// Every word of every line is a number that fits in an `i64`.
pub open spec fn report_ok(s: Seq<char>) -> bool {
    forall|i: int| 0 <= i < lines_of(s).len() ==> line_ok(#[trigger] lines_of(s)[i])
}

/// The value of the word `w`.
fn parse_word(w: &Vec<char>) -> (r: i64)
    requires
        word_ok(w@),
    ensures
        r == signed_value(w@),
{
    if w.len() > 0 && w[0] == '-' {
        assert(w@.subrange(1, w@.len() as int) == w@.drop_first());
        match parse_u64(w, 1, w.len()) {
            Some(v) => -(v as i64),
            None => 0,
        }
    } else {
        assert(w@.subrange(0, w@.len() as int) == w@);
        match parse_u64(w, 0, w.len()) {
            Some(v) => v as i64,
            None => 0,
        }
    }
}

/// The numbers of one line.
fn parse_line(line: &Vec<char>) -> (r: Sequence)
    requires
        line_ok(line@),
    ensures
        ints(r.numbers@) == words(line@).map_values(|w: Seq<char>| signed_value(w)),
{
    let pieces = split_chars(line, ' ');
    let ghost ps = split_on(line@, ' ');
    let mut numbers: Vec<i64> = Vec::new();
    let mut k: usize = 0;
    while k < pieces.len()
        invariant
            ps == split_on(line@, ' '),
            pieces@.len() == ps.len(),
            forall|i: int| 0 <= i < pieces@.len() ==> #[trigger] pieces@[i]@ == ps[i],
            line_ok(line@),
            0 <= k <= pieces@.len(),
            ints(numbers@) == ps.take(k as int).filter(|w: Seq<char>| w.len() > 0).map_values(
                |w: Seq<char>| signed_value(w),
            ),
        decreases pieces@.len() - k,
    {
        proof {
            reveal(Seq::filter);
            assert(ps.take(k as int + 1).drop_last() == ps.take(k as int));
        }
        let piece = &pieces[k];
        if piece.len() > 0 {
            assert(word_ok(ps[k as int]));
            let v = parse_word(piece);
            let ghost before = numbers@;
            numbers.push(v);
            assert(ints(numbers@) =~= ints(before).push(v as int));
        }
        k = k + 1;
    }
    assert(ps.take(k as int) == ps);
    Sequence { numbers }
}

impl Report {
    /// One sequence per line.
    pub fn load(contents: String) -> (r: Self)
        requires
            report_ok(contents@),
        ensures
            r.sequences@.len() == lines_of(contents@).len(),
            forall|i: int|
                0 <= i < r.sequences@.len() ==> ints(#[trigger] r.sequences@[i].numbers@) == words(
                    lines_of(contents@)[i],
                ).map_values(|w: Seq<char>| signed_value(w)),
    {
        let cs = chars_of(contents.as_str());
        let rows = split_lines(&cs);
        let mut sequences: Vec<Sequence> = Vec::new();
        let mut k: usize = 0;
        while k < rows.len()
            invariant
                cs@ == contents@,
                report_ok(contents@),
                rows@.len() == lines_of(cs@).len(),
                forall|i: int| 0 <= i < rows@.len() ==> #[trigger] rows@[i]@ == lines_of(cs@)[i],
                0 <= k <= rows@.len(),
                sequences@.len() == k,
                forall|i: int|
                    0 <= i < k ==> ints(#[trigger] sequences@[i].numbers@) == words(lines_of(cs@)[i]).map_values(
                        |w: Seq<char>| signed_value(w),
                    ),
            decreases rows@.len() - k,
        {
            let row = &rows[k];
            assert(row@ == lines_of(cs@)[k as int]);
            assert(line_ok(lines_of(cs@)[k as int]));
            sequences.push(parse_line(row));
            k = k + 1;
        }
        Self { sequences }
    }

    pub fn part1(&self) -> (r: i64)
        requires
            forall|i: int| 0 <= i < self.sequences@.len() ==> extrapolates(#[trigger] self.sequences@[i]),
            in_i64(total_next(self.sequences@, self.sequences@.len() as int)),
        ensures
            r == total_next(self.sequences@, self.sequences@.len() as int),
    {
        let mut acc: i128 = 0;
        let mut k: usize = 0;
        while k < self.sequences.len()
            invariant
                forall|i: int| 0 <= i < self.sequences@.len() ==> extrapolates(#[trigger] self.sequences@[i]),
                0 <= k <= self.sequences@.len(),
                acc == total_next(self.sequences@, k as int),
                -k * 0x8000_0000_0000_0000 <= acc <= k * 0x8000_0000_0000_0000,
            decreases self.sequences@.len() - k,
        {
            assert(extrapolates(self.sequences@[k as int]));
            let v = self.sequences[k].next_num();
            acc = acc + v as i128;
            k = k + 1;
        }
        acc as i64
    }

    pub fn part2(&self) -> (r: i64)
        requires
            forall|i: int| 0 <= i < self.sequences@.len() ==> extrapolates_back(#[trigger] self.sequences@[i]),
            in_i64(total_prev(self.sequences@, self.sequences@.len() as int)),
        ensures
            r == total_prev(self.sequences@, self.sequences@.len() as int),
    {
        let mut acc: i128 = 0;
        let mut k: usize = 0;
        while k < self.sequences.len()
            invariant
                forall|i: int| 0 <= i < self.sequences@.len() ==> extrapolates_back(#[trigger] self.sequences@[i]),
                0 <= k <= self.sequences@.len(),
                acc == total_prev(self.sequences@, k as int),
                -k * 0x8000_0000_0000_0000 <= acc <= k * 0x8000_0000_0000_0000,
            decreases self.sequences@.len() - k,
        {
            assert(extrapolates_back(self.sequences@[k as int]));
            let v = self.sequences[k].prev_num();
            acc = acc + v as i128;
            k = k + 1;
        }
        acc as i64
    }
}

} // verus!
