//! Records of hot springs: `#` damaged, `.` operational, `?` unknown, with the
//! sizes of the runs of damaged springs.
use vstd::prelude::*;
use crate::text::{chars_of, split_chars, split_on, lines_of, split_lines, string_of, first_pos, find_char,
    parse_u64, all_digits, decimal};

verus! {

pub struct Record {
    pub sequence: String,
    pub groups: Vec<usize>,
}

pub open spec fn nonempty(ps: Seq<Seq<char>>) -> Seq<Seq<char>> {
    ps.filter(|p: Seq<char>| p.len() > 0)
}

/// The runs of damaged springs: the pieces between `.` that are not empty.
pub open spec fn runs(s: Seq<char>) -> Seq<Seq<char>> {
    nonempty(split_on(s, '.'))
}

/// The runs have exactly the sizes `groups`, in order.
pub open spec fn matches(s: Seq<char>, groups: Seq<usize>) -> bool {
    &&& runs(s).len() == groups.len()
    &&& forall|i: int| 0 <= i < groups.len() ==> #[trigger] runs(s)[i].len() == groups[i]
}

/// Every way of reading the unknown springs from position `i` on, each `?`
/// first as `.` and then as `#`.
pub open spec fn completions(s: Seq<char>, i: int) -> Seq<Seq<char>>
    decreases s.len() - i,
{
    if i >= s.len() || i < 0 {
        seq![s]
    } else if s[i] == '?' {
        completions(s.update(i, '.'), i + 1) + completions(s.update(i, '#'), i + 1)
    } else {
        completions(s, i + 1)
    }
}

/// How many of `cs` match the groups.
pub open spec fn count_matching(cs: Seq<Seq<char>>, groups: Seq<usize>) -> nat
    decreases cs.len(),
{
    if cs.len() == 0 {
        0
    } else {
        count_matching(cs.drop_last(), groups) + if matches(cs.last(), groups) {
            1nat
        } else {
            0nat
        }
    }
}

impl Record {
    pub fn is_match(&self) -> (r: bool)
        ensures
            r == matches(self.sequence@, self.groups@),
    {
        let cs = chars_of(self.sequence.as_str());
        let pieces = split_chars(&cs, '.');
        let ghost ps = split_on(cs@, '.');
        let mut lens: Vec<usize> = Vec::new();
        let mut k: usize = 0;
        while k < pieces.len()
            invariant
                ps == split_on(cs@, '.'),
                cs@ == self.sequence@,
                pieces@.len() == ps.len(),
                forall|i: int| 0 <= i < pieces@.len() ==> #[trigger] pieces@[i]@ == ps[i],
                0 <= k <= pieces@.len(),
                lens@.len() == nonempty(ps.take(k as int)).len(),
                forall|i: int| 0 <= i < lens@.len() ==> #[trigger] lens@[i] == nonempty(ps.take(k as int))[i].len(),
            decreases pieces@.len() - k,
        {
            proof {
                reveal(Seq::filter);
                assert(ps.take(k as int + 1).drop_last() == ps.take(k as int));
            }
            let len = pieces[k].len();
            if len > 0 {
                lens.push(len);
            }
            k = k + 1;
        }
        assert(ps.take(k as int) == ps);
        if lens.len() != self.groups.len() {
            return false;
        }
        let mut i: usize = 0;
        while i < lens.len()
            invariant
                lens@.len() == self.groups@.len(),
                lens@.len() == runs(self.sequence@).len(),
                forall|j: int| 0 <= j < lens@.len() ==> #[trigger] lens@[j] == runs(self.sequence@)[j].len(),
                0 <= i <= lens@.len(),
                forall|j: int| 0 <= j < i ==> #[trigger] runs(self.sequence@)[j].len() == self.groups@[j],
            decreases lens@.len() - i,
        {
            if lens[i] != self.groups[i] {
                assert(lens@[i as int] == runs(self.sequence@)[i as int].len());
                return false;
            }
            i = i + 1;
        }
        true
    }

    /// Every way of reading the unknown springs, each `?` first as `.` and then as `#`.
    pub fn expand(&self) -> (r: Vec<Self>)
        ensures
            r@.len() == completions(self.sequence@, 0).len(),
            forall|i: int|
                0 <= i < r@.len() ==> (#[trigger] r@[i]).sequence@ == completions(self.sequence@, 0)[i]
                    && r@[i].groups@ == self.groups@,
    {
        let cs = chars_of(self.sequence.as_str());
        expand_from(cs, 0, &self.groups)
    }

    /// How many readings of the unknown springs match the groups.
    pub fn arrangements(&self) -> (r: usize)
        ensures
            r == count_matching(completions(self.sequence@, 0), self.groups@),
    {
        let all = self.expand();
        let ghost cs = completions(self.sequence@, 0);
        let mut count: usize = 0;
        let mut k: usize = 0;
        while k < all.len()
            invariant
                all@.len() == cs.len(),
                forall|i: int|
                    0 <= i < all@.len() ==> (#[trigger] all@[i]).sequence@ == cs[i] && all@[i].groups@
                        == self.groups@,
                0 <= k <= all@.len(),
                count == count_matching(cs.take(k as int), self.groups@),
                count <= k,
            decreases all@.len() - k,
        {
            assert(cs.take(k as int + 1).drop_last() == cs.take(k as int));
            if all[k].is_match() {
                count = count + 1;
            }
            k = k + 1;
        }
        assert(cs.take(k as int) == cs);
        count
    }
}

/// A copy of the groups.
fn copy_groups(g: &Vec<usize>) -> (r: Vec<usize>)
    ensures
        r@ == g@,
{
    let mut r: Vec<usize> = Vec::new();
    let mut i: usize = 0;
    while i < g.len()
        invariant
            0 <= i <= g@.len(),
            r@ == g@.take(i as int),
        decreases g@.len() - i,
    {
        r.push(g[i]);
        assert(g@.take(i as int + 1) == g@.take(i as int).push(g@[i as int]));
        i = i + 1;
    }
    assert(g@.take(i as int) == g@);
    r
}

/// A copy of the characters.
fn copy_chars(g: &Vec<char>) -> (r: Vec<char>)
    ensures
        r@ == g@,
{
    let mut r: Vec<char> = Vec::new();
    let mut i: usize = 0;
    while i < g.len()
        invariant
            0 <= i <= g@.len(),
            r@ == g@.take(i as int),
        decreases g@.len() - i,
    {
        r.push(g[i]);
        assert(g@.take(i as int + 1) == g@.take(i as int).push(g@[i as int]));
        i = i + 1;
    }
    assert(g@.take(i as int) == g@);
    r
}

/// The records for every reading of the unknown springs of `cs` from `i` on.
fn expand_from(cs: Vec<char>, i: usize, groups: &Vec<usize>) -> (r: Vec<Record>)
    requires
        i <= cs@.len(),
    ensures
        r@.len() == completions(cs@, i as int).len(),
        forall|k: int|
            0 <= k < r@.len() ==> (#[trigger] r@[k]).sequence@ == completions(cs@, i as int)[k]
                && r@[k].groups@ == groups@,
    decreases cs@.len() - i,
{
    let mut j = i;
    while j < cs.len() && cs[j] != '?'
        invariant
            i <= j <= cs@.len(),
            completions(cs@, i as int) == completions(cs@, j as int),
        decreases cs@.len() - j,
    {
        j = j + 1;
    }
    if j == cs.len() {
        let mut out: Vec<Record> = Vec::new();
        out.push(Record { sequence: string_of(&cs, 0, cs.len()), groups: copy_groups(groups) });
        assert(cs@.subrange(0, cs@.len() as int) == cs@);
        return out;
    }
    let mut dot = copy_chars(&cs);
    let mut hash = cs;
    dot.set(j, '.');
    hash.set(j, '#');
    let mut a = expand_from(dot, j + 1, groups);
    let b = expand_from(hash, j + 1, groups);
    let ghost left = a@;
    let ghost c1 = completions(cs@.update(j as int, '.'), j + 1);
    let ghost c2 = completions(cs@.update(j as int, '#'), j + 1);
    assert(completions(cs@, i as int) == c1 + c2);
    let mut k: usize = 0;
    while k < b.len()
        invariant
            a@.len() == left.len() + k,
            left.len() == c1.len(),
            b@.len() == c2.len(),
            forall|m: int| 0 <= m < left.len() ==> #[trigger] a@[m] == left[m],
            forall|m: int| 0 <= m < left.len() ==> (#[trigger] left[m]).sequence@ == c1[m] && left[m].groups@ == groups@,
            forall|m: int| 0 <= m < b@.len() ==> (#[trigger] b@[m]).sequence@ == c2[m] && b@[m].groups@ == groups@,
            forall|m: int|
                0 <= m < k ==> (#[trigger] a@[left.len() + m]).sequence@ == c2[m] && a@[left.len() + m].groups@
                    == groups@,
            0 <= k <= b@.len(),
        decreases b@.len() - k,
    {
        let rec = Record { sequence: b[k].sequence.clone(), groups: copy_groups(&b[k].groups) };
        a.push(rec);
        k = k + 1;
    }
    assert forall|m: int| 0 <= m < a@.len() implies (#[trigger] a@[m]).sequence@ == (c1 + c2)[m] && a@[m].groups@
        == groups@ by {
        if m >= left.len() {
            assert(a@[left.len() + (m - left.len())] == a@[m]);
        }
    }
    a
}

/// A line `springs sizes`: the springs, one space, then sizes in decimal
/// separated by commas.
pub open spec fn record_text_ok(s: Seq<char>) -> bool {
    let sp = first_pos(s, ' ');
    &&& sp < s.len()
    &&& forall|i: int|
        0 <= i < split_on(s.subrange(sp + 1, s.len() as int), ',').len() ==> {
            let w = #[trigger] split_on(s.subrange(sp + 1, s.len() as int), ',')[i];
            w.len() > 0 && all_digits(w) && decimal(w) <= usize::MAX
        }
}

/// `r` is the record that the line `s` writes.
pub open spec fn record_matches(r: Record, s: Seq<char>) -> bool {
    let sp = first_pos(s, ' ');
    let ws = split_on(s.subrange(sp + 1, s.len() as int), ',');
    &&& r.sequence@ == s.take(sp)
    &&& r.groups@.len() == ws.len()
    &&& forall|i: int| 0 <= i < ws.len() ==> #[trigger] r.groups@[i] == decimal(ws[i])
}

impl Record {
    pub fn load(contents: &str) -> (r: Self)
        requires
            record_text_ok(contents@),
        ensures
            record_matches(r, contents@),
    {
        let cs = chars_of(contents);
        let sp = find_char(&cs, ' ');
        let n = cs.len();
        assert(sp < n);
        let sequence = string_of(&cs, 0, sp);
        assert(cs@.subrange(0, sp as int) == cs@.take(sp as int));
        let mut rest: Vec<char> = Vec::new();
        let mut j: usize = sp + 1;
        while j < cs.len()
            invariant
                sp + 1 <= j <= cs@.len(),
                rest@ == cs@.subrange(sp + 1, j as int),
            decreases cs@.len() - j,
        {
            rest.push(cs[j]);
            assert(cs@.subrange(sp + 1, j + 1) == cs@.subrange(sp + 1, j as int).push(cs@[j as int]));
            j = j + 1;
        }
        let words = split_chars(&rest, ',');
        let ghost ws = split_on(rest@, ',');
        let mut groups: Vec<usize> = Vec::new();
        let mut k: usize = 0;
        while k < words.len()
            invariant
                ws == split_on(rest@, ','),
                rest@ == cs@.subrange(sp + 1, cs@.len() as int),
                cs@ == contents@,
                sp == first_pos(cs@, ' '),
                record_text_ok(contents@),
                words@.len() == ws.len(),
                forall|i: int| 0 <= i < words@.len() ==> #[trigger] words@[i]@ == ws[i],
                0 <= k <= words@.len(),
                groups@.len() == k,
                forall|i: int| 0 <= i < k ==> #[trigger] groups@[i] == decimal(ws[i]),
            decreases words@.len() - k,
        {
            let w = &words[k];
            assert(w@ == ws[k as int]);
            assert(w@.subrange(0, w@.len() as int) == w@);
            let v = match parse_u64(w, 0, w.len()) {
                Some(v) => v as usize,
                None => 0,
            };
            groups.push(v);
            k = k + 1;
        }
        Self { sequence, groups }
    }
}

pub struct Puzzle {
    pub records: Vec<Record>,
}

/// The arrangements of the first `k` records, added up.
pub open spec fn total_arrangements(rs: Seq<Record>, k: int) -> int
    decreases k,
{
    if k <= 0 || k > rs.len() {
        0
    } else {
        total_arrangements(rs, k - 1) + count_matching(completions(rs[k - 1].sequence@, 0), rs[k - 1].groups@)
    }
}

proof fn lemma_total_mono(rs: Seq<Record>, k: int)
    requires
        0 <= k <= rs.len(),
    ensures
        0 <= total_arrangements(rs, k) <= total_arrangements(rs, rs.len() as int),
    decreases rs.len() - k,
{
    lemma_total_nonneg(rs, k);
    if k < rs.len() {
        lemma_total_mono(rs, k + 1);
    }
}

proof fn lemma_total_nonneg(rs: Seq<Record>, k: int)
    ensures
        total_arrangements(rs, k) >= 0,
    decreases k,
{
    if !(k <= 0 || k > rs.len()) {
        lemma_total_nonneg(rs, k - 1);
    }
}

impl Puzzle {
    /// One record per line.
    pub fn load(contents: String) -> (r: Self)
        requires
            forall|i: int| 0 <= i < lines_of(contents@).len() ==> record_text_ok(#[trigger] lines_of(contents@)[i]),
        ensures
            r.records@.len() == lines_of(contents@).len(),
            forall|i: int| 0 <= i < r.records@.len() ==> record_matches(#[trigger] r.records@[i], lines_of(contents@)[i]),
    {
        let cs = chars_of(contents.as_str());
        let rows = split_lines(&cs);
        let mut records: Vec<Record> = Vec::new();
        let mut k: usize = 0;
        while k < rows.len()
            invariant
                cs@ == contents@,
                rows@.len() == lines_of(cs@).len(),
                forall|i: int| 0 <= i < rows@.len() ==> #[trigger] rows@[i]@ == lines_of(cs@)[i],
                forall|i: int| 0 <= i < lines_of(cs@).len() ==> record_text_ok(#[trigger] lines_of(cs@)[i]),
                0 <= k <= rows@.len(),
                records@.len() == k,
                forall|i: int| 0 <= i < k ==> record_matches(#[trigger] records@[i], lines_of(cs@)[i]),
            decreases rows@.len() - k,
        {
            let row = &rows[k];
            assert(row@ == lines_of(cs@)[k as int]);
            let line = string_of(row, 0, row.len());
            assert(row@.subrange(0, row@.len() as int) == row@);
            records.push(Record::load(line.as_str()));
            k = k + 1;
        }
        Self { records }
    }

    /// The arrangements of all records, added up.
    pub fn part1(&self) -> (r: usize)
        requires
            total_arrangements(self.records@, self.records@.len() as int) <= usize::MAX,
        ensures
            r == total_arrangements(self.records@, self.records@.len() as int),
    {
        let mut acc: usize = 0;
        let mut k: usize = 0;
        while k < self.records.len()
            invariant
                0 <= k <= self.records@.len(),
                total_arrangements(self.records@, self.records@.len() as int) <= usize::MAX,
                acc == total_arrangements(self.records@, k as int),
            decreases self.records@.len() - k,
        {
            proof {
                lemma_total_mono(self.records@, k + 1);
            }
            let a = self.records[k].arrangements();
            acc = acc + a;
            k = k + 1;
        }
        acc
    }
}

} // verus!
