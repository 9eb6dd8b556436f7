//! Patterns of ash `.` and rocks `#`, and the lines they mirror about.
use vstd::prelude::*;
use crate::text::{chars_of, lines_of, split_lines, string_of, sections, split_sections, rows_of, join_lines,
    joined, lemma_lines_of_joined, lemma_lines_no_newline, lemma_sections_no_newline, lemma_split_update, split_on,
    lemma_split_on_nonempty};

verus! {

pub struct Pattern {
    pub contents: String,
    pub rows: Vec<String>,
    pub cols: Vec<String>,
}

pub open spec fn strs(v: Seq<String>) -> Seq<Seq<char>> {
    v.map_values(|s: String| s@)
}

/// The columns of the rows `g`, each read top to bottom, as wide as the first row.
pub open spec fn columns(g: Seq<Seq<char>>) -> Seq<Seq<char>> {
    Seq::new(g[0].len(), |c: int| Seq::new(g.len(), |r: int| g[r][c]))
}

/// At least one row, and no row shorter than the first.
pub open spec fn pattern_ok(g: Seq<Seq<char>>) -> bool {
    &&& g.len() > 0
    &&& forall|i: int| 0 <= i < g.len() ==> (#[trigger] g[i]).len() >= g[0].len()
}

/// The lines mirror about the gap after line `i`: each pair of lines at equal
/// distance from the gap is equal, as far as both sides reach.
pub open spec fn reflects_at(ls: Seq<Seq<char>>, i: int) -> bool {
    forall|k: int| 0 <= k <= i && i + 1 + k < ls.len() ==> #[trigger] ls[i - k] == ls[i + 1 + k]
}

/// The gaps below `k` after which the lines mirror, in order (the last line has none after it).
pub open spec fn reflections(ls: Seq<Seq<char>>, k: int) -> Seq<usize>
    decreases k,
{
    if k <= 0 {
        Seq::empty()
    } else if k - 1 < ls.len() - 1 && reflects_at(ls, k - 1) {
        reflections(ls, k - 1).push((k - 1) as usize)
    } else {
        reflections(ls, k - 1)
    }
}

pub open spec fn plus_one(v: Seq<usize>) -> Seq<usize> {
    v.map_values(|i: usize| (i + 1) as usize)
}

/// A pattern's summary: the rows above its first horizontal mirror times 100,
/// plus the columns left of its first vertical mirror.
pub open spec fn summary_of(g: Seq<Seq<char>>) -> int {
    let rs = plus_one(reflections(g, g.len() - 1));
    let cs = plus_one(reflections(columns(g), columns(g).len() - 1));
    (if rs.len() > 0 { rs[0] as int } else { 0 }) * 100 + if cs.len() > 0 { cs[0] as int } else { 0 }
}

proof fn lemma_reflections_bound(ls: Seq<Seq<char>>, k: int)
    ensures
        forall|j: int| 0 <= j < reflections(ls, k).len() ==> #[trigger] reflections(ls, k)[j] < k,
        reflections(ls, k).len() <= if k > 0 { k } else { 0 },
    decreases k,
{
    if k > 0 {
        lemma_reflections_bound(ls, k - 1);
    }
}

impl Pattern {
    /// The rows of the text and its columns.
    pub fn load(contents: String) -> (r: Self)
        requires
            pattern_ok(lines_of(contents@)),
        ensures
            r.contents@ == contents@,
            strs(r.rows@) == lines_of(contents@),
            strs(r.cols@) == columns(lines_of(contents@)),
    {
        let cs = chars_of(contents.as_str());
        let g = split_lines(&cs);
        let ghost want = lines_of(contents@);
        let mut rows: Vec<String> = Vec::new();
        let mut k: usize = 0;
        while k < g.len()
            invariant
                want == lines_of(contents@),
                g@.len() == want.len(),
                forall|i: int| 0 <= i < g@.len() ==> #[trigger] g@[i]@ == want[i],
                0 <= k <= g@.len(),
                strs(rows@) == want.take(k as int),
            decreases g@.len() - k,
        {
            let row = &g[k];
            let s = string_of(row, 0, row.len());
            assert(row@.subrange(0, row@.len() as int) == row@);
            let ghost before = rows@;
            rows.push(s);
            assert(strs(rows@) == strs(before).push(want[k as int]));
            assert(want.take(k as int + 1) == want.take(k as int).push(want[k as int]));
            k = k + 1;
        }
        assert(want.take(k as int) == want);
        let w = g[0].len();
        let mut cols: Vec<String> = Vec::new();
        let mut c: usize = 0;
        while c < w
            invariant
                want == lines_of(contents@),
                pattern_ok(want),
                g@.len() == want.len(),
                forall|i: int| 0 <= i < g@.len() ==> #[trigger] g@[i]@ == want[i],
                w == want[0].len(),
                0 <= c <= w,
                strs(cols@) == columns(want).take(c as int),
            decreases w - c,
        {
            let mut col: Vec<char> = Vec::new();
            let mut r: usize = 0;
            while r < g.len()
                invariant
                    pattern_ok(want),
                    g@.len() == want.len(),
                    forall|i: int| 0 <= i < g@.len() ==> #[trigger] g@[i]@ == want[i],
                    w == want[0].len(),
                    c < w,
                    0 <= r <= g@.len(),
                    col@ == Seq::new(r as nat, |i: int| want[i][c as int]),
                decreases g@.len() - r,
            {
                assert(want[r as int].len() >= w);
                col.push(g[r][c]);
                assert(col@ =~= Seq::new((r + 1) as nat, |i: int| want[i][c as int]));
                r = r + 1;
            }
            let s = string_of(&col, 0, col.len());
            assert(col@.subrange(0, col@.len() as int) == col@);
            let ghost before = cols@;
            cols.push(s);
            assert(strs(cols@) =~= strs(before).push(columns(want)[c as int]));
            assert(columns(want).take(c as int + 1) =~= columns(want).take(c as int).push(columns(want)[c as int]));
            c = c + 1;
        }
        assert(columns(want).take(c as int) =~= columns(want));
        Self { contents, rows, cols }
    }

    /// The gaps after which `lines` mirror.
    pub fn reflection_indices(&self, lines: &Vec<String>) -> (r: Vec<usize>)
        requires
            lines@.len() >= 1,
        ensures
            r@ == reflections(strs(lines@), lines@.len() - 1),
    {
        let ghost ls = strs(lines@);
        let n = lines.len();
        let mut out: Vec<usize> = Vec::new();
        let mut i: usize = 0;
        while i < n - 1
            invariant
                ls == strs(lines@),
                n == ls.len(),
                n >= 1,
                0 <= i <= n - 1,
                out@ == reflections(ls, i as int),
            decreases n - 1 - i,
        {
            let mut ok = true;
            let mut k: usize = 0;
            while k <= i && k < n - 1 - i
                invariant
                    ls == strs(lines@),
                    n == ls.len(),
                    i < n - 1,
                    0 <= k <= i + 1,
                    ok == forall|j: int| 0 <= j < k && i + 1 + j < n ==> #[trigger] ls[i - j] == ls[i + 1 + j],
                decreases i + 1 - k,
            {
                let same = lines[i - k] == lines[i + 1 + k];
                assert(ls[i - k] == lines@[i - k]@ && ls[i + 1 + k] == lines@[i + 1 + k]@);
                if !same {
                    ok = false;
                }
                k = k + 1;
            }
            proof {
                assert(ok == reflects_at(ls, i as int));
            }
            if ok {
                out.push(i);
            }
            i = i + 1;
        }
        out
    }

    /// The numbers of rows above each horizontal mirror.
    pub fn reflection_rows(&self) -> (r: Vec<usize>)
        requires
            self.rows@.len() >= 1,
        ensures
            r@ == plus_one(reflections(strs(self.rows@), self.rows@.len() - 1)),
    {
        let idx = self.reflection_indices(&self.rows);
        let n = self.rows.len();
        assert(strs(self.rows@).len() == n);
        add_one(&idx, Ghost(strs(self.rows@)))
    }

    /// The numbers of columns left of each vertical mirror.
    pub fn reflection_cols(&self) -> (r: Vec<usize>)
        requires
            self.cols@.len() >= 1,
        ensures
            r@ == plus_one(reflections(strs(self.cols@), self.cols@.len() - 1)),
    {
        let idx = self.reflection_indices(&self.cols);
        let n = self.cols.len();
        assert(strs(self.cols@).len() == n);
        add_one(&idx, Ghost(strs(self.cols@)))
    }

    /// The rows above the first horizontal mirror times 100, plus the columns
    /// left of the first vertical mirror; none counts as 0.
    pub fn summary(&self) -> (r: usize)
        requires
            pattern_ok(strs(self.rows@)),
            strs(self.cols@) == columns(strs(self.rows@)),
            self.cols@.len() >= 1,
            self.rows@.len() * 100 + self.cols@.len() <= usize::MAX,
        ensures
            r == summary_of(strs(self.rows@)),
    {
        let rs = self.reflection_rows();
        let cs = self.reflection_cols();
        proof {
            lemma_reflections_bound(strs(self.rows@), self.rows@.len() - 1);
            lemma_reflections_bound(strs(self.cols@), self.cols@.len() - 1);
        }
        let a = if rs.len() > 0 { rs[0] } else { 0 };
        let b = if cs.len() > 0 { cs[0] } else { 0 };
        a * 100 + b
    }
}

/// Each index plus one.
fn add_one(v: &Vec<usize>, ls: Ghost<Seq<Seq<char>>>) -> (r: Vec<usize>)
    requires
        v@ == reflections(ls@, ls@.len() - 1),
        ls@.len() <= usize::MAX,
    ensures
        r@ == plus_one(v@),
{
    proof {
        lemma_reflections_bound(ls@, ls@.len() - 1);
    }
    let mut out: Vec<usize> = Vec::new();
    let mut i: usize = 0;
    while i < v.len()
        invariant
            v@ == reflections(ls@, ls@.len() - 1),
            ls@.len() <= usize::MAX,
            forall|j: int| 0 <= j < v@.len() ==> #[trigger] v@[j] < ls@.len() - 1,
            0 <= i <= v@.len(),
            out@ == plus_one(v@.take(i as int)),
        decreases v@.len() - i,
    {
        assert(v@[i as int] < ls@.len() - 1);
        out.push(v[i] + 1);
        assert(plus_one(v@.take(i as int + 1)) =~= plus_one(v@.take(i as int)).push((v@[i as int] + 1) as usize));
        i = i + 1;
    }
    assert(v@.take(i as int) == v@);
    out
}

pub open spec fn rock_or_ash(c: char) -> bool {
    c == '.' || c == '#'
}

/// The text with the character at `i` turned: `.` into `#` and `#` into `.`.
pub open spec fn flipped(s: Seq<char>, i: int) -> Seq<char> {
    s.update(i, if s[i] == '.' { '#' } else { '.' })
}

pub open spec fn row_mirrors(g: Seq<Seq<char>>) -> Seq<usize> {
    plus_one(reflections(g, g.len() - 1))
}

pub open spec fn col_mirrors(g: Seq<Seq<char>>) -> Seq<usize> {
    plus_one(reflections(columns(g), columns(g).len() - 1))
}

/// Turning the character at `i` gives horizontal mirrors, and other ones.
pub open spec fn row_fix(p: Pattern, i: int) -> bool {
    let g = lines_of(flipped(p.contents@, i));
    &&& rock_or_ash(p.contents@[i])
    &&& row_mirrors(g).len() > 0
    &&& row_mirrors(g) != row_mirrors(strs(p.rows@))
}

/// Turning the character at `i` gives vertical mirrors, and other ones (and
/// no new horizontal ones).
pub open spec fn col_fix(p: Pattern, i: int) -> bool {
    let g = lines_of(flipped(p.contents@, i));
    &&& rock_or_ash(p.contents@[i])
    &&& !row_fix(p, i)
    &&& col_mirrors(g).len() > 0
    &&& col_mirrors(g) != col_mirrors(strs(p.rows@))
}

/// The smudge is at `i`: the first character whose turning changes the mirrors.
pub open spec fn first_fix(p: Pattern, i: int) -> bool {
    &&& 0 <= i < p.contents@.len()
    &&& row_fix(p, i) || col_fix(p, i)
    &&& forall|j: int| 0 <= j < i ==> !(#[trigger] row_fix(p, j) || col_fix(p, j))
}

/// The first of `new` that is not in `old`.
pub open spec fn first_not_in(new: Seq<usize>, old: Seq<usize>) -> Option<usize>
    decreases new.len(),
{
    if new.len() == 0 {
        None
    } else if !old.contains(new[0]) {
        Some(new[0])
    } else {
        first_not_in(new.drop_first(), old)
    }
}

/// The summary after fixing the smudge at `i`: the new horizontal mirror
/// times 100, or else the new vertical one.
pub open spec fn fix_value(p: Pattern, i: int) -> int {
    let g = lines_of(flipped(p.contents@, i));
    if row_fix(p, i) {
        first_not_in(row_mirrors(g), row_mirrors(strs(p.rows@)))->0 * 100
    } else {
        first_not_in(col_mirrors(g), col_mirrors(strs(p.rows@)))->0 as int
    }
}

/// A new mirror can be named at the fix `i`.
pub open spec fn fix_found(p: Pattern, i: int) -> bool {
    let g = lines_of(flipped(p.contents@, i));
    &&& row_fix(p, i) ==> first_not_in(row_mirrors(g), row_mirrors(strs(p.rows@))) is Some
    &&& col_fix(p, i) ==> first_not_in(col_mirrors(g), col_mirrors(strs(p.rows@))) is Some
}

/// A pattern whose smudge can be found and fixed.
pub open spec fn smudged(p: Pattern) -> bool {
    &&& pattern_ok(lines_of(p.contents@))
    &&& lines_of(p.contents@)[0].len() > 0
    &&& strs(p.rows@) == lines_of(p.contents@)
    &&& strs(p.cols@) == columns(lines_of(p.contents@))
    &&& p.rows@.len() * 100 <= usize::MAX
    &&& exists|i: int| #[trigger] first_fix(p, i) && fix_found(p, i)
}

/// The summary of a smudged pattern once fixed.
pub open spec fn smudge_value(p: Pattern) -> int {
    fix_value(p, choose|i: int| #[trigger] first_fix(p, i) && fix_found(p, i))
}

proof fn lemma_first_fix_unique(p: Pattern, i: int, j: int)
    requires
        first_fix(p, i),
        first_fix(p, j),
    ensures
        i == j,
{
    if i < j {
        assert(!(row_fix(p, i) || col_fix(p, i)));
    }
    if j < i {
        assert(!(row_fix(p, j) || col_fix(p, j)));
    }
}

/// Turning one `.` or `#` keeps the shape of the lines.
proof fn lemma_flip_shape(s: Seq<char>, i: int)
    requires
        0 <= i < s.len(),
        rock_or_ash(s[i]),
        pattern_ok(lines_of(s)),
        lines_of(s)[0].len() > 0,
    ensures
        pattern_ok(lines_of(flipped(s, i))),
        lines_of(flipped(s, i))[0].len() > 0,
        lines_of(flipped(s, i)).len() == lines_of(s).len(),
{
    let c = if s[i] == '.' { '#' } else { '.' };
    lemma_split_update(s, i, c, '\n');
    lemma_split_on_nonempty(s, '\n');
    let a = split_on(s, '\n');
    let b = split_on(flipped(s, i), '\n');
    assert(b.last().len() == a.last().len());
    assert forall|k: int| 0 <= k < lines_of(flipped(s, i)).len() implies (#[trigger] lines_of(flipped(s, i))[k]).len()
        == lines_of(s)[k].len() by {
        assert(b[k].len() == a[k].len());
    }
}

/// Whether the two lists are equal.
fn same_list(a: &Vec<usize>, b: &Vec<usize>) -> (r: bool)
    ensures
        r == (a@ == b@),
{
    if a.len() != b.len() {
        return false;
    }
    let mut i: usize = 0;
    while i < a.len()
        invariant
            a@.len() == b@.len(),
            0 <= i <= a@.len(),
            forall|k: int| 0 <= k < i ==> a@[k] == b@[k],
        decreases a@.len() - i,
    {
        if a[i] != b[i] {
            return false;
        }
        i = i + 1;
    }
    assert(a@ =~= b@);
    true
}

/// The first of `new` that is not in `old`.
fn first_new(new: &Vec<usize>, old: &Vec<usize>) -> (r: Option<usize>)
    ensures
        r == first_not_in(new@, old@),
{
    let mut i: usize = 0;
    assert(new@.subrange(0, new@.len() as int) == new@);
    while i < new.len()
        invariant
            0 <= i <= new@.len(),
            first_not_in(new@, old@) == first_not_in(new@.subrange(i as int, new@.len() as int), old@),
        decreases new@.len() - i,
    {
        assert(new@.subrange(i as int, new@.len() as int).drop_first() == new@.subrange(i as int + 1, new@.len() as int));
        let x = new[i];
        let mut found = false;
        let mut j: usize = 0;
        while j < old.len()
            invariant
                0 <= j <= old@.len(),
                found == exists|k: int| 0 <= k < j && old@[k] == x,
            decreases old@.len() - j,
        {
            if old[j] == x {
                found = true;
            }
            j = j + 1;
        }
        proof {
            if old@.contains(x) {
                let k = choose|k: int| 0 <= k < old@.len() && old@[k] == x;
                assert(old@[k] == x);
            }
        }
        if !found {
            return Some(x);
        }
        i = i + 1;
    }
    None
}

impl Pattern {
    /// Finds the smudge: the first `.` or `#` whose turning gives new mirror
    /// lines; returns the fixed summary and the fixed pattern.
    pub fn fix_smudge(&self) -> (r: (usize, Self))
        requires
            smudged(*self),
        ensures
            r.0 == smudge_value(*self),
            exists|i: int|
                first_fix(*self, i) && r.1.contents@ == flipped(self.contents@, i) && strs(r.1.rows@) == lines_of(
                    flipped(self.contents@, i),
                ),
    {
        let ghost i0 = choose|i: int| #[trigger] first_fix(*self, i) && fix_found(*self, i);
        let cs = chars_of(self.contents.as_str());
        let old_rows = self.reflection_rows();
        proof {
            assert(self.cols@.len() == columns(lines_of(self.contents@)).len());
        }
        let old_cols = self.reflection_cols();
        let mut i: usize = 0;
        while i < cs.len()
            invariant
                cs@ == self.contents@,
                smudged(*self),
                first_fix(*self, i0),
                fix_found(*self, i0),
                old_rows@ == row_mirrors(strs(self.rows@)),
                old_cols@ == plus_one(reflections(strs(self.cols@), self.cols@.len() - 1)),
                0 <= i <= i0,
            decreases cs@.len() - i,
        {
            let c = cs[i];
            if c == '.' || c == '#' {
                let mut f: Vec<char> = crate::text::string_chars(&cs);
                f.set(i, if c == '.' { '#' } else { '.' });
                assert(f@ == flipped(self.contents@, i as int));
                let text = string_of(&f, 0, f.len());
                assert(f@.subrange(0, f@.len() as int) == f@);
                proof {
                    lemma_flip_shape(self.contents@, i as int);
                }
                let fixed = Pattern::load(text);
                let new_rows = fixed.reflection_rows();
                if new_rows.len() > 0 && !same_list(&new_rows, &old_rows) {
                    proof {
                        assert(row_fix(*self, i as int));
                        if (i as int) < i0 {
                            assert(!(row_fix(*self, i as int) || col_fix(*self, i as int)));
                        }
                    }
                    let x = match first_new(&new_rows, &old_rows) {
                        Some(x) => x,
                        None => 0,
                    };
                    proof {
                        let g = lines_of(flipped(self.contents@, i as int));
                        lemma_reflections_len(g);
                        lemma_first_not_in_member(new_rows@, old_rows@);
                        let k = choose|k: int| 0 <= k < new_rows@.len() && new_rows@[k] == x;
                        assert(new_rows@[k] <= g.len());
                        assert(strs(self.rows@).len() == self.rows@.len());
                        assert(x * 100 <= self.rows@.len() * 100) by (nonlinear_arith)
                            requires
                                x <= self.rows@.len(),
                        ;
                    }
                    return (x * 100, fixed);
                }
                proof {
                    let g = lines_of(flipped(self.contents@, i as int));
                    assert(strs(fixed.cols@).len() == fixed.cols@.len());
                    assert(columns(g).len() == g[0].len());
                }
                let new_cols = fixed.reflection_cols();
                if new_cols.len() > 0 && !same_list(&new_cols, &old_cols) {
                    proof {
                        assert(col_fix(*self, i as int));
                        if (i as int) < i0 {
                            assert(!(row_fix(*self, i as int) || col_fix(*self, i as int)));
                        }
                    }
                    let x = match first_new(&new_cols, &old_cols) {
                        Some(x) => x,
                        None => 0,
                    };
                    return (x, fixed);
                }
                proof {
                    assert(!row_fix(*self, i as int));
                    assert(!col_fix(*self, i as int));
                }
            }
            i = i + 1;
        }
        proof {
            assert(false);
        }
        (0, Pattern { contents: String::new(), rows: Vec::new(), cols: Vec::new() })
    }
}

proof fn lemma_first_not_in_member(new: Seq<usize>, old: Seq<usize>)
    ensures
        first_not_in(new, old) matches Some(x) ==> exists|k: int| 0 <= k < new.len() && new[k] == x,
    decreases new.len(),
{
    if new.len() > 0 {
        lemma_first_not_in_member(new.drop_first(), old);
        if old.contains(new[0]) {
            if let Some(x) = first_not_in(new, old) {
                let k = choose|k: int| 0 <= k < new.drop_first().len() && new.drop_first()[k] == x;
                assert(new[k + 1] == x);
            }
        } else {
            assert(new[0] == new[0]);
        }
    }
}

/// A mirror found after the gap it follows lies within the lines.
proof fn lemma_reflections_len(g: Seq<Seq<char>>)
    ensures
        forall|j: int| 0 <= j < row_mirrors(g).len() ==> #[trigger] row_mirrors(g)[j] <= g.len(),
{
    lemma_reflections_bound(g, g.len() - 1);
}

pub struct Puzzle {
    pub patterns: Vec<Pattern>,
}

/// A pattern whose columns are read from its rows and which fits the summary's arithmetic.
pub open spec fn summarizable(p: Pattern) -> bool {
    &&& pattern_ok(strs(p.rows@))
    &&& strs(p.cols@) == columns(strs(p.rows@))
    &&& p.cols@.len() >= 1
    &&& p.rows@.len() * 100 + p.cols@.len() <= usize::MAX
}

/// The fixed summaries of the first `k` patterns, added up.
pub open spec fn fixed_summaries(ps: Seq<Pattern>, k: int) -> int
    decreases k,
{
    if k <= 0 || k > ps.len() {
        0
    } else {
        fixed_summaries(ps, k - 1) + smudge_value(ps[k - 1])
    }
}

/// The summaries of the first `k` patterns, added up.
pub open spec fn summaries(ps: Seq<Pattern>, k: int) -> int
    decreases k,
{
    if k <= 0 || k > ps.len() {
        0
    } else {
        summaries(ps, k - 1) + summary_of(strs(ps[k - 1].rows@))
    }
}

impl Puzzle {
    /// The patterns of the text, separated by empty lines.
    pub fn load(contents: String) -> (r: Self)
        requires
            forall|i: int|
                0 <= i < sections(lines_of(contents@)).len() ==> pattern_ok(#[trigger] sections(lines_of(contents@))[i]),
        ensures
            r.patterns@.len() == sections(lines_of(contents@)).len(),
            forall|i: int|
                0 <= i < r.patterns@.len() ==> strs((#[trigger] r.patterns@[i]).rows@) == sections(lines_of(contents@))[i]
                    && strs(r.patterns@[i].cols@) == columns(sections(lines_of(contents@))[i]),
    {
        let cs = chars_of(contents.as_str());
        let rows = split_lines(&cs);
        assert(rows_of(rows@) =~= lines_of(cs@));
        let secs = split_sections(&rows);
        let ghost ss = sections(lines_of(contents@));
        proof {
            lemma_lines_no_newline(contents@);
            lemma_sections_no_newline(lines_of(contents@));
        }
        let mut patterns: Vec<Pattern> = Vec::new();
        let mut k: usize = 0;
        while k < secs.len()
            invariant
                ss == sections(lines_of(contents@)),
                forall|i: int| 0 <= i < ss.len() ==> pattern_ok(#[trigger] ss[i]),
                forall|i: int, j: int|
                    0 <= i < ss.len() && 0 <= j < ss[i].len() ==> crate::text::no_newline(#[trigger] ss[i][j]),
                secs@.len() == ss.len(),
                forall|i: int| 0 <= i < secs@.len() ==> rows_of(#[trigger] secs@[i]@) == ss[i],
                0 <= k <= secs@.len(),
                patterns@.len() == k,
                forall|i: int|
                    0 <= i < k ==> strs((#[trigger] patterns@[i]).rows@) == ss[i] && strs(patterns@[i].cols@)
                        == columns(ss[i]),
            decreases secs@.len() - k,
        {
            let text = join_lines(&secs[k]);
            proof {
                let sec = ss[k as int];
                assert(rows_of(secs@[k as int]@) == sec);
                assert forall|j: int| 0 <= j < sec.len() implies crate::text::no_newline(#[trigger] sec[j]) by {
                    assert(crate::text::no_newline(ss[k as int][j]));
                }
                lemma_lines_of_joined(sec);
            }
            patterns.push(Pattern::load(text));
            k = k + 1;
        }
        Self { patterns }
    }

    pub fn part1(&self) -> (r: usize)
        requires
            forall|i: int| 0 <= i < self.patterns@.len() ==> summarizable(#[trigger] self.patterns@[i]),
            forall|k: int| 0 <= k <= self.patterns@.len() ==> #[trigger] summaries(self.patterns@, k) <= usize::MAX,
        ensures
            r == summaries(self.patterns@, self.patterns@.len() as int),
    {
        let mut acc: usize = 0;
        let mut k: usize = 0;
        while k < self.patterns.len()
            invariant
                forall|i: int| 0 <= i < self.patterns@.len() ==> summarizable(#[trigger] self.patterns@[i]),
                forall|k: int| 0 <= k <= self.patterns@.len() ==> #[trigger] summaries(self.patterns@, k) <= usize::MAX,
                0 <= k <= self.patterns@.len(),
                acc == summaries(self.patterns@, k as int),
            decreases self.patterns@.len() - k,
        {
            assert(summarizable(self.patterns@[k as int]));
            let s = self.patterns[k].summary();
            assert(summaries(self.patterns@, k + 1) <= usize::MAX);
            acc = acc + s;
            k = k + 1;
        }
        acc
    }

    /// The summaries of all patterns once their smudges are fixed, added up.
    pub fn part2(&self) -> (r: usize)
        requires
            forall|i: int| 0 <= i < self.patterns@.len() ==> smudged(#[trigger] self.patterns@[i]),
            forall|k: int| 0 <= k <= self.patterns@.len() ==> #[trigger] fixed_summaries(self.patterns@, k) <= usize::MAX,
        ensures
            r == fixed_summaries(self.patterns@, self.patterns@.len() as int),
    {
        let mut acc: usize = 0;
        let mut k: usize = 0;
        while k < self.patterns.len()
            invariant
                forall|i: int| 0 <= i < self.patterns@.len() ==> smudged(#[trigger] self.patterns@[i]),
                forall|k: int| 0 <= k <= self.patterns@.len() ==> #[trigger] fixed_summaries(self.patterns@, k) <= usize::MAX,
                0 <= k <= self.patterns@.len(),
                acc == fixed_summaries(self.patterns@, k as int),
            decreases self.patterns@.len() - k,
        {
            assert(smudged(self.patterns@[k as int]));
            let (v, _) = self.patterns[k].fix_smudge();
            assert(fixed_summaries(self.patterns@, k + 1) <= usize::MAX);
            acc = acc + v;
            k = k + 1;
        }
        acc
    }

}

} // verus!
