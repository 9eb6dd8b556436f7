//! Galaxies in an image of the sky, and the grid distances between them.
use vstd::prelude::*;
use crate::text::{chars_of, lines_of, split_lines, first_pos, find_char};

verus! {

#[derive(Clone, Copy, Debug, PartialEq, Eq, Structural)]
pub struct Galaxy {
    pub number: u32,
    pub x: usize,
    pub y: usize,
}

pub open spec fn abs_diff(a: int, b: int) -> int {
    if a >= b {
        a - b
    } else {
        b - a
    }
}

/// Steps between two galaxies moving only along rows and columns.
pub open spec fn path_len(a: Galaxy, b: Galaxy) -> int {
    abs_diff(a.x as int, b.x as int) + abs_diff(a.y as int, b.y as int)
}

impl Galaxy {
    pub fn shortest_path(&self, to: &Self) -> (r: usize)
        requires
            path_len(*self, *to) <= usize::MAX,
        ensures
            r == path_len(*self, *to),
    {
        let dx = if self.x >= to.x {
            self.x - to.x
        } else {
            to.x - self.x
        };
        let dy = if self.y >= to.y {
            self.y - to.y
        } else {
            to.y - self.y
        };
        dx + dy
    }
}

/// The distances from galaxy `i` to each of the galaxies after it.
pub open spec fn paths_from(gs: Seq<Galaxy>, i: int, k: int) -> int
    decreases k - i,
{
    if k <= i + 1 || k > gs.len() {
        0
    } else {
        paths_from(gs, i, k - 1) + path_len(gs[i], gs[k - 1])
    }
}

/// The distances of all pairs among the first `n` galaxies.
pub open spec fn all_paths(gs: Seq<Galaxy>, n: int) -> int
    decreases n,
{
    if n <= 0 || n > gs.len() {
        0
    } else {
        all_paths(gs, n - 1) + paths_from(gs, n - 1, gs.len() as int)
    }
}

proof fn lemma_paths_from_mono(gs: Seq<Galaxy>, i: int, k: int)
    requires
        0 <= i,
        i + 1 <= k <= gs.len(),
    ensures
        0 <= paths_from(gs, i, k) <= paths_from(gs, i, gs.len() as int),
    decreases gs.len() - k,
{
    if k < gs.len() {
        lemma_paths_from_mono(gs, i, k + 1);
    }
    lemma_paths_from_nonneg(gs, i, k);
}

proof fn lemma_paths_from_nonneg(gs: Seq<Galaxy>, i: int, k: int)
    ensures
        paths_from(gs, i, k) >= 0,
    decreases k - i,
{
    if !(k <= i + 1 || k > gs.len()) {
        lemma_paths_from_nonneg(gs, i, k - 1);
    }
}

proof fn lemma_all_paths_mono(gs: Seq<Galaxy>, n: int)
    requires
        0 <= n <= gs.len(),
    ensures
        0 <= all_paths(gs, n) <= all_paths(gs, gs.len() as int),
    decreases gs.len() - n,
{
    if n < gs.len() {
        lemma_all_paths_mono(gs, n + 1);
        lemma_paths_from_nonneg(gs, n, gs.len() as int);
    }
    if n > 0 {
        lemma_all_paths_nonneg(gs, n);
    }
}

proof fn lemma_all_paths_nonneg(gs: Seq<Galaxy>, n: int)
    ensures
        all_paths(gs, n) >= 0,
    decreases n,
{
    if !(n <= 0 || n > gs.len()) {
        lemma_all_paths_nonneg(gs, n - 1);
        lemma_paths_from_nonneg(gs, n - 1, gs.len() as int);
    }
}

pub struct Universe {
    pub galaxies: Vec<Galaxy>,
    pub width: usize,
    pub height: usize,
}

impl Universe {
    /// The first galaxy with this number.
    pub fn get_galaxy(&self, number: u32) -> (r: &Galaxy)
        requires
            exists|i: int| 0 <= i < self.galaxies@.len() && (#[trigger] self.galaxies@[i]).number == number,
        ensures
            exists|i: int|
                0 <= i < self.galaxies@.len() && self.galaxies@[i] == *r && r.number == number && forall|j: int|
                    0 <= j < i ==> (#[trigger] self.galaxies@[j]).number != number,
    {
        let mut k: usize = 0;
        while k < self.galaxies.len()
            invariant
                0 <= k <= self.galaxies@.len(),
                exists|i: int| 0 <= i < self.galaxies@.len() && (#[trigger] self.galaxies@[i]).number == number,
                forall|j: int| 0 <= j < k ==> (#[trigger] self.galaxies@[j]).number != number,
            decreases self.galaxies@.len() - k,
        {
            if self.galaxies[k].number == number {
                return &self.galaxies[k];
            }
            k = k + 1;
        }
        proof {
            let i = choose|i: int| 0 <= i < self.galaxies@.len() && (#[trigger] self.galaxies@[i]).number == number;
            assert(self.galaxies@[i].number != number);
        }
        &self.galaxies[0]
    }

    /// The sum of the distances between all pairs of galaxies.
    pub fn sum_shortest_paths(&self) -> (r: usize)
        requires
            all_paths(self.galaxies@, self.galaxies@.len() as int) <= usize::MAX,
        ensures
            r == all_paths(self.galaxies@, self.galaxies@.len() as int),
    {
        let ghost gs = self.galaxies@;
        let n = self.galaxies.len();
        let mut sum: usize = 0;
        let mut i: usize = 0;
        while i < n
            invariant
                gs == self.galaxies@,
                n == gs.len(),
                all_paths(gs, n as int) <= usize::MAX,
                0 <= i <= n,
                sum == all_paths(gs, i as int),
            decreases n - i,
        {
            proof {
                lemma_all_paths_mono(gs, i + 1);
            }
            let mut k: usize = i + 1;
            let mut part: usize = 0;
            while k < n
                invariant
                    gs == self.galaxies@,
                    n == gs.len(),
                    0 <= i < n,
                    i + 1 <= k <= n,
                    part == paths_from(gs, i as int, k as int),
                    sum == all_paths(gs, i as int),
                    sum + paths_from(gs, i as int, n as int) <= usize::MAX,
                decreases n - k,
            {
                proof {
                    lemma_paths_from_mono(gs, i as int, k + 1);
                    lemma_paths_from_nonneg(gs, i as int, k as int);
                }
                let d = self.galaxies[i].shortest_path(&self.galaxies[k]);
                part = part + d;
                k = k + 1;
            }
            sum = sum + part;
            i = i + 1;
        }
        sum
    }
}

/// The places of `#` among the first `x` characters of row `y`, in order.
pub open spec fn marks_in_row(row: Seq<char>, y: int, x: int) -> Seq<(int, int)>
    decreases x,
{
    if x <= 0 || x > row.len() {
        Seq::empty()
    } else if row[x - 1] == '#' {
        marks_in_row(row, y, x - 1).push((x - 1, y))
    } else {
        marks_in_row(row, y, x - 1)
    }
}

/// The places of `#` in the first `y` rows, in reading order.
pub open spec fn marks(g: Seq<Seq<char>>, y: int) -> Seq<(int, int)>
    decreases y,
{
    if y <= 0 || y > g.len() {
        Seq::empty()
    } else {
        marks(g, y - 1) + marks_in_row(g[y - 1], y - 1, g[y - 1].len() as int)
    }
}

/// `gs` numbers the places `ps` from 1 in order.
pub open spec fn numbered(gs: Seq<Galaxy>, ps: Seq<(int, int)>) -> bool {
    &&& gs.len() == ps.len()
    &&& forall|i: int|
        0 <= i < gs.len() ==> (#[trigger] gs[i]).number == i + 1 && gs[i].x == ps[i].0 && gs[i].y == ps[i].1
}

impl Universe {
    /// The galaxies of the image, numbered from 1 in reading order; the width
    /// is the length of the first line and the height one less than the
    /// number of lines.
    pub fn load(contents: String) -> (r: Self)
        requires
            first_pos(contents@, '\n') < contents@.len(),
            lines_of(contents@).len() >= 1,
            marks(lines_of(contents@), lines_of(contents@).len() as int).len() <= u32::MAX,
        ensures
            numbered(r.galaxies@, marks(lines_of(contents@), lines_of(contents@).len() as int)),
            r.width == first_pos(contents@, '\n'),
            r.height == lines_of(contents@).len() - 1,
    {
        let cs = chars_of(contents.as_str());
        let width = find_char(&cs, '\n');
        let rows = split_lines(&cs);
        let ghost g = lines_of(cs@);
        let mut galaxies: Vec<Galaxy> = Vec::new();
        let mut count: u32 = 0;
        let mut y: usize = 0;
        proof {
            lemma_marks_mono(g, 0, g.len() as int);
        }
        while y < rows.len()
            invariant
                g == lines_of(cs@),
                cs@ == contents@,
                rows@.len() == g.len(),
                forall|i: int| 0 <= i < rows@.len() ==> #[trigger] rows@[i]@ == g[i],
                marks(g, g.len() as int).len() <= u32::MAX,
                0 <= y <= rows@.len(),
                count == galaxies@.len(),
                numbered(galaxies@, marks(g, y as int)),
                forall|k: int| y <= k <= g.len() ==> marks(g, y as int).len() <= #[trigger] marks(g, k).len(),
            decreases rows@.len() - y,
        {
            let row = &rows[y];
            assert(row@ == g[y as int]);
            proof {
                lemma_marks_mono(g, y as int + 1, g.len() as int);
            }
            let mut x: usize = 0;
            while x < row.len()
                invariant
                    g == lines_of(cs@),
                    row@ == g[y as int],
                    0 <= y < g.len(),
                    marks(g, g.len() as int).len() <= u32::MAX,
                    forall|k: int| y < k <= g.len() ==> marks(g, y as int + 1).len() <= #[trigger] marks(g, k).len(),
                    0 <= x <= row@.len(),
                    count == galaxies@.len(),
                    numbered(galaxies@, marks(g, y as int) + marks_in_row(row@, y as int, x as int)),
                decreases row@.len() - x,
            {
                proof {
                    lemma_row_prefix(g, y as int, x as int + 1);
                    assert(marks(g, y as int + 1).len() <= marks(g, g.len() as int).len());
                }
                if row[x] == '#' {
                    let ghost before = galaxies@;
                    count = count + 1;
                    galaxies.push(Galaxy { number: count, x, y });
                    proof {
                        let ps = marks(g, y as int) + marks_in_row(row@, y as int, x as int + 1);
                        assert(ps == (marks(g, y as int) + marks_in_row(row@, y as int, x as int)).push((x as int, y as int)));
                    }
                } else {
                    proof {
                        assert(marks(g, y as int) + marks_in_row(row@, y as int, x as int + 1) == marks(g, y as int)
                            + marks_in_row(row@, y as int, x as int));
                    }
                }
                x = x + 1;
            }
            y = y + 1;
        }
        let height = rows.len() - 1;
        Self { galaxies, width, height }
    }
}

proof fn lemma_marks_in_row_len(row: Seq<char>, y: int, x: int)
    ensures
        marks_in_row(row, y, x).len() <= marks_in_row(row, y, row.len() as int).len() || x > row.len(),
    decreases row.len() - x,
{
    if 0 <= x < row.len() {
        lemma_marks_in_row_len(row, y, x + 1);
    }
}

/// The marks up to column `x` of row `y` are no more than those of all rows up to `y`.
proof fn lemma_row_prefix(g: Seq<Seq<char>>, y: int, x: int)
    requires
        0 <= y < g.len(),
        0 <= x <= g[y].len(),
    ensures
        marks(g, y) .len() + marks_in_row(g[y], y, x).len() <= marks(g, y + 1).len(),
{
    lemma_marks_in_row_len(g[y], y, x);
}

proof fn lemma_marks_mono(g: Seq<Seq<char>>, a: int, b: int)
    requires
        0 <= a <= b <= g.len(),
    ensures
        forall|k: int| a <= k <= b ==> marks(g, a).len() <= #[trigger] marks(g, k).len(),
    decreases b - a,
{
    if a < b {
        lemma_marks_mono(g, a + 1, b);
        assert(marks(g, a + 1).len() >= marks(g, a).len());
    }
}

/// No galaxy stands in column `c` (or, with `rows`, in row `c`).
pub open spec fn line_empty(gs: Seq<Galaxy>, c: int, rows: bool) -> bool {
    forall|i: int| 0 <= i < gs.len() ==> (if rows { gs[i].y } else { gs[i].x }) != c
}

/// The empty lines `c` with `a <= c < end` and `c < b`.
pub open spec fn empty_lines(gs: Seq<Galaxy>, a: int, end: int, b: int, rows: bool) -> int
    decreases end - a,
{
    if a >= end {
        0
    } else {
        empty_lines(gs, a + 1, end, b, rows) + if a < b && line_empty(gs, a, rows) {
            1int
        } else {
            0int
        }
    }
}

/// Each galaxy moved right by `times - 1` for every empty column to its left,
/// and down by `times - 1` for every empty row above it.
pub open spec fn expanded(gs: Seq<Galaxy>, times: int, w: int, h: int) -> Seq<Galaxy> {
    gs.map_values(
        |g: Galaxy|
            Galaxy {
                number: g.number,
                x: (g.x + (times - 1) * empty_lines(gs, 0, w, g.x as int, false)) as usize,
                y: (g.y + (times - 1) * empty_lines(gs, 0, h, g.y as int, true)) as usize,
            },
    )
}

pub open spec fn coord(g: Galaxy, rows: bool) -> int {
    if rows {
        g.y as int
    } else {
        g.x as int
    }
}

proof fn lemma_empty_lines_bound(gs: Seq<Galaxy>, a: int, end: int, b: int, rows: bool)
    requires
        a <= end,
    ensures
        0 <= empty_lines(gs, a, end, b, rows) <= end - a,
        b <= a ==> empty_lines(gs, a, end, b, rows) == 0,
    decreases end - a,
{
    if a < end {
        lemma_empty_lines_bound(gs, a + 1, end, b, rows);
    }
}

proof fn lemma_empty_lines_mono(gs: Seq<Galaxy>, a: int, end: int, b: int, rows: bool)
    requires
        0 <= a <= end,
    ensures
        empty_lines(gs, a, end, b, rows) <= empty_lines(gs, 0, end, b, rows),
    decreases a,
{
    if a > 0 {
        lemma_empty_lines_mono(gs, a - 1, end, b, rows);
    }
}

impl Universe {
    /// Moves the galaxies apart: each empty column (then each empty row) becomes `times` wide.
    pub fn expand(&mut self, times: usize)
        requires
            times >= 1,
            forall|i: int|
                0 <= i < old(self).galaxies@.len() ==> #[trigger] old(self).galaxies@[i].x + (times - 1) * empty_lines(
                    old(self).galaxies@,
                    0,
                    old(self).width as int,
                    old(self).galaxies@[i].x as int,
                    false,
                ) <= usize::MAX && old(self).galaxies@[i].y + (times - 1) * empty_lines(
                    old(self).galaxies@,
                    0,
                    old(self).height as int,
                    old(self).galaxies@[i].y as int,
                    true,
                ) <= usize::MAX,
        ensures
            final(self).width == old(self).width,
            final(self).height == old(self).height,
            final(self).galaxies@ == expanded(old(self).galaxies@, times as int, old(self).width as int, old(self).height as int),
    {
        let ghost gs = self.galaxies@;
        let w = self.width;
        let h = self.height;
        assert forall|i: int| 0 <= i < gs.len() implies coord(#[trigger] gs[i], false) + (times - 1) * empty_lines(
            gs,
            0,
            w as int,
            coord(gs[i], false),
            false,
        ) <= usize::MAX && coord(gs[i], true) + (times - 1) * empty_lines(gs, 0, h as int, coord(gs[i], true), true)
            <= usize::MAX by {
            assert(gs[i] == old(self).galaxies@[i]);
        }
        expand_axis(&mut self.galaxies, times, w, false, Ghost(gs));
        expand_axis(&mut self.galaxies, times, h, true, Ghost(gs));
        assert(self.galaxies@ =~= expanded(gs, times as int, w as int, h as int));
    }
}

/// Moves the galaxies along one axis: apart by `times - 1` at each empty line
/// below `end`. `gs` are the galaxies before any move; along this axis they
/// have not moved yet.
fn expand_axis(galaxies: &mut Vec<Galaxy>, times: usize, end: usize, rows: bool, gs: Ghost<Seq<Galaxy>>)
    requires
        times >= 1,
        old(galaxies)@.len() == gs@.len(),
        forall|i: int|
            0 <= i < gs@.len() ==> (#[trigger] old(galaxies)@[i]).number == gs@[i].number
                && coord(old(galaxies)@[i], rows) == coord(gs@[i], rows),
        forall|i: int|
            0 <= i < gs@.len() ==> coord(#[trigger] gs@[i], rows) + (times - 1) * empty_lines(
                gs@,
                0,
                end as int,
                coord(gs@[i], rows),
                rows,
            ) <= usize::MAX,
    ensures
        final(galaxies)@.len() == gs@.len(),
        forall|i: int|
            0 <= i < gs@.len() ==> (#[trigger] final(galaxies)@[i]).number == gs@[i].number
                && coord(final(galaxies)@[i], rows) == coord(gs@[i], rows) + (times - 1) * empty_lines(
                gs@,
                0,
                end as int,
                coord(gs@[i], rows),
                rows,
            ) && coord(final(galaxies)@[i], !rows) == coord(old(galaxies)@[i], !rows),
{
    let ghost start = galaxies@;
    let mut c: usize = end;
    assert forall|i: int|
        0 <= i < gs@.len() implies (#[trigger] galaxies@[i]).number == gs@[i].number && coord(galaxies@[i], rows)
            == coord(gs@[i], rows) + (times - 1) * empty_lines(gs@, c as int, end as int, coord(gs@[i], rows), rows)
            && coord(galaxies@[i], !rows) == coord(start[i], !rows) by {
        assert(empty_lines(gs@, end as int, end as int, coord(gs@[i], rows), rows) == 0);
        assert((times - 1) * 0int == 0) by (nonlinear_arith);
    }
    while c > 0
        invariant
            times >= 1,
            galaxies@.len() == gs@.len(),
            0 <= c <= end,
            forall|i: int|
                0 <= i < gs@.len() ==> coord(#[trigger] gs@[i], rows) + (times - 1) * empty_lines(
                    gs@,
                    0,
                    end as int,
                    coord(gs@[i], rows),
                    rows,
                ) <= usize::MAX,
            forall|i: int|
                0 <= i < gs@.len() ==> (#[trigger] galaxies@[i]).number == gs@[i].number
                    && coord(galaxies@[i], rows) == coord(gs@[i], rows) + (times - 1) * empty_lines(
                    gs@,
                    c as int,
                    end as int,
                    coord(gs@[i], rows),
                    rows,
                ) && coord(galaxies@[i], !rows) == coord(start[i], !rows),
        decreases c,
    {
        let line = c - 1;
        // the line is empty now exactly when it was empty before any move
        let mut empty = true;
        let mut i: usize = 0;
        while i < galaxies.len()
            invariant
                galaxies@.len() == gs@.len(),
                0 <= i <= gs@.len(),
                line + 1 == c,
                c <= end,
                times >= 1,
                forall|k: int|
                    0 <= k < gs@.len() ==> (#[trigger] galaxies@[k]).number == gs@[k].number
                        && coord(galaxies@[k], rows) == coord(gs@[k], rows) + (times - 1) * empty_lines(
                        gs@,
                        c as int,
                        end as int,
                        coord(gs@[k], rows),
                        rows,
                    ),
                empty == forall|k: int| 0 <= k < i ==> coord(#[trigger] gs@[k], rows) != line,
            decreases gs@.len() - i,
        {
            let g = galaxies[i];
            let at = if rows { g.y } else { g.x };
            proof {
                let o = coord(gs@[i as int], rows);
                lemma_empty_lines_bound(gs@, c as int, end as int, o, rows);
                if o <= line {
                    assert(empty_lines(gs@, c as int, end as int, o, rows) == 0);
                    assert((times - 1) * empty_lines(gs@, c as int, end as int, o, rows) == 0) by (nonlinear_arith)
                        requires
                            empty_lines(gs@, c as int, end as int, o, rows) == 0,
                    ;
                }
                assert((times - 1) * empty_lines(gs@, c as int, end as int, o, rows) >= 0) by (nonlinear_arith)
                    requires
                        times >= 1,
                        empty_lines(gs@, c as int, end as int, o, rows) >= 0,
                ;
                assert(at == coord(galaxies@[i as int], rows));
                assert((at == line) == (o == line));
            }
            if at == line {
                empty = false;
            }
            i = i + 1;
        }
        assert(empty == line_empty(gs@, line as int, rows));
        if empty {
            let mut k: usize = 0;
            while k < galaxies.len()
                invariant
                    galaxies@.len() == gs@.len(),
                    0 <= k <= gs@.len(),
                    line + 1 == c,
                    c <= end,
                    times >= 1,
                    line_empty(gs@, line as int, rows),
                    forall|i: int|
                        0 <= i < gs@.len() ==> coord(#[trigger] gs@[i], rows) + (times - 1) * empty_lines(
                            gs@,
                            0,
                            end as int,
                            coord(gs@[i], rows),
                            rows,
                        ) <= usize::MAX,
                    forall|j: int|
                        k <= j < gs@.len() ==> (#[trigger] galaxies@[j]).number == gs@[j].number
                            && coord(galaxies@[j], rows) == coord(gs@[j], rows) + (times - 1) * empty_lines(
                            gs@,
                            c as int,
                            end as int,
                            coord(gs@[j], rows),
                            rows,
                        ) && coord(galaxies@[j], !rows) == coord(start[j], !rows),
                    forall|j: int|
                        0 <= j < k ==> (#[trigger] galaxies@[j]).number == gs@[j].number
                            && coord(galaxies@[j], rows) == coord(gs@[j], rows) + (times - 1) * empty_lines(
                            gs@,
                            line as int,
                            end as int,
                            coord(gs@[j], rows),
                            rows,
                        ) && coord(galaxies@[j], !rows) == coord(start[j], !rows),
                decreases gs@.len() - k,
            {
                let g = galaxies[k];
                let at = if rows { g.y } else { g.x };
                let ghost o = coord(gs@[k as int], rows);
                proof {
                    lemma_empty_lines_bound(gs@, c as int, end as int, o, rows);
                    lemma_empty_lines_mono(gs@, line as int, end as int, o, rows);
                    lemma_empty_lines_bound(gs@, line as int, end as int, o, rows);
                    if o <= line {
                        assert(empty_lines(gs@, c as int, end as int, o, rows) == 0);
                        assert((times - 1) * empty_lines(gs@, c as int, end as int, o, rows) == 0) by (nonlinear_arith)
                            requires
                                empty_lines(gs@, c as int, end as int, o, rows) == 0,
                        ;
                    }
                    assert((times - 1) * empty_lines(gs@, c as int, end as int, o, rows) >= 0) by (nonlinear_arith)
                        requires
                            times >= 1,
                            empty_lines(gs@, c as int, end as int, o, rows) >= 0,
                    ;
                    assert((times - 1) * empty_lines(gs@, line as int, end as int, o, rows) <= (times - 1) * empty_lines(gs@, 0, end as int, o, rows)) by (nonlinear_arith)
                        requires
                            times >= 1,
                            empty_lines(gs@, line as int, end as int, o, rows) <= empty_lines(gs@, 0, end as int, o, rows),
                    ;
                    assert((times - 1) * empty_lines(gs@, line as int, end as int, o, rows) == (times - 1) * empty_lines(gs@, c as int, end as int, o, rows) + if o > line { times - 1 } else { 0 }) by (nonlinear_arith)
                        requires
                            empty_lines(gs@, line as int, end as int, o, rows) == empty_lines(gs@, c as int, end as int, o, rows) + if o > line { 1int } else { 0int },
                    ;
                }
                proof {
                    assert(at == coord(galaxies@[k as int], rows));
                    assert(coord(gs@[k as int], rows) + (times - 1) * empty_lines(gs@, 0, end as int, coord(gs@[k as int], rows), rows) <= usize::MAX);
                }
                if at > line {
                    let moved = if rows {
                        Galaxy { number: g.number, x: g.x, y: g.y + (times - 1) }
                    } else {
                        Galaxy { number: g.number, x: g.x + (times - 1), y: g.y }
                    };
                    galaxies.set(k, moved);
                }
                k = k + 1;
            }
        } else {
            assert forall|j: int| 0 <= j < gs@.len() implies empty_lines(gs@, line as int, end as int, coord(#[trigger] gs@[j], rows), rows)
                == empty_lines(gs@, c as int, end as int, coord(gs@[j], rows), rows) by {}
        }
        c = line;
    }
}

} // verus!
