//! A tilting platform of round rocks `O`, cube rocks `#` and empty space `.`.
use vstd::prelude::*;
use crate::text::{chars_of, lines_of, split_lines, string_of};
use crate::lenses::{trim, trimmed};

verus! {

pub struct Platform {
    pub rows: Vec<String>,
}

pub open spec fn rows_view(rows: Seq<String>) -> Seq<Seq<char>> {
    rows.map_values(|r: String| r@)
}

/// At least one row, and no row shorter than the first.
pub open spec fn rectangular(g: Seq<Seq<char>>) -> bool {
    &&& g.len() > 0
    &&& forall|i: int| 0 <= i < g.len() ==> (#[trigger] g[i]).len() >= g[0].len()
}

/// The rows turned a quarter counterclockwise: row `k` is column `width - 1 - k`, read from the top.
pub open spec fn ccw(g: Seq<Seq<char>>) -> Seq<Seq<char>> {
    Seq::new(g[0].len(), |k: int| Seq::new(g.len(), |i: int| g[i][g[0].len() - 1 - k]))
}

/// The rows turned a quarter clockwise: row `k` is column `k`, read from the bottom.
pub open spec fn cw(g: Seq<Seq<char>>) -> Seq<Seq<char>> {
    Seq::new(g[0].len(), |k: int| Seq::new(g.len(), |i: int| g[g.len() - 1 - i][k]))
}

pub open spec fn rock_char(c: char) -> bool {
    c == 'O' || c == '.' || c == '#'
}

/// Every row holds only round rocks, cube rocks and empty space.
pub open spec fn rocks_only(g: Seq<Seq<char>>) -> bool {
    forall|i: int, j: int| 0 <= i < g.len() && 0 <= j < g[i].len() ==> rock_char(#[trigger] g[i][j])
}

/// Where the run without cube rocks that holds position `i` begins.
pub open spec fn seg_start(r: Seq<char>, i: int) -> int
    decreases i,
{
    if i <= 0 {
        0
    } else if r[i - 1] == '#' {
        i
    } else {
        seg_start(r, i - 1)
    }
}

/// Where the run without cube rocks that holds position `i` ends.
pub open spec fn seg_end(r: Seq<char>, i: int) -> int
    decreases r.len() - i,
{
    if i >= r.len() {
        r.len() as int
    } else if r[i] == '#' {
        i
    } else {
        seg_end(r, i + 1)
    }
}

/// The round rocks in `r[a..b]`.
pub open spec fn rounds_between(r: Seq<char>, a: int, b: int) -> int
    decreases b - a,
{
    if b <= a {
        0
    } else {
        rounds_between(r, a, b - 1) + if r[b - 1] == 'O' {
            1int
        } else {
            0int
        }
    }
}

proof fn lemma_seg_start(r: Seq<char>, a: int, e: int, j: int)
    requires
        0 <= a <= j < e <= r.len(),
        a == 0 || r[a - 1] == '#',
        forall|k: int| a <= k < e ==> r[k] != '#',
    ensures
        seg_start(r, j) == a,
    decreases j,
{
    if j > a {
        lemma_seg_start(r, a, e, j - 1);
    }
}

proof fn lemma_seg_end(r: Seq<char>, a: int, e: int, j: int)
    requires
        0 <= a <= j < e <= r.len(),
        e == r.len() || r[e] == '#',
        forall|k: int| a <= k < e ==> r[k] != '#',
    ensures
        seg_end(r, j) == e,
    decreases e - j,
{
    if j + 1 < e {
        lemma_seg_end(r, a, e, j + 1);
    } else {
        assert(seg_end(r, e) == e);
    }
}

/// The row with every round rock rolled left until a cube rock or the edge
/// stops it.
pub open spec fn tilted_left(r: Seq<char>) -> Seq<char> {
    Seq::new(
        r.len(),
        |i: int|
            if r[i] == '#' {
                '#'
            } else if i - seg_start(r, i) < rounds_between(r, seg_start(r, i), seg_end(r, i)) {
                'O'
            } else {
                '.'
            },
    )
}

/// The round rocks in the first `k` characters of a row.
pub open spec fn rounds(r: Seq<char>, k: int) -> int
    decreases k,
{
    if k <= 0 || k > r.len() {
        0
    } else {
        rounds(r, k - 1) + if r[k - 1] == 'O' {
            1int
        } else {
            0int
        }
    }
}

/// The load on the north beams of the first `k` rows: each round rock counts
/// the number of rows from its own to the south edge.
pub open spec fn north_load(g: Seq<Seq<char>>, k: int) -> int
    decreases k,
{
    if k <= 0 || k > g.len() {
        0
    } else {
        north_load(g, k - 1) + rounds(g[k - 1], g[k - 1].len() as int) * (g.len() - (k - 1))
    }
}

proof fn lemma_rounds_bound(r: Seq<char>, k: int)
    requires
        0 <= k <= r.len(),
    ensures
        0 <= rounds(r, k) <= k,
    decreases k,
{
    if k > 0 {
        lemma_rounds_bound(r, k - 1);
    }
}

proof fn lemma_north_load_mono(g: Seq<Seq<char>>, k: int)
    requires
        0 <= k <= g.len(),
    ensures
        0 <= north_load(g, k) <= north_load(g, g.len() as int),
    decreases g.len() - k,
{
    lemma_north_load_nonneg(g, k);
    if k < g.len() {
        lemma_north_load_mono(g, k + 1);
        lemma_rounds_bound(g[k], g[k].len() as int);
        let a = rounds(g[k], g[k].len() as int);
        let b = g.len() - k;
        assert(a * b >= 0) by (nonlinear_arith)
            requires
                a >= 0,
                b >= 0,
        ;
    }
}

proof fn lemma_north_load_nonneg(g: Seq<Seq<char>>, k: int)
    ensures
        north_load(g, k) >= 0,
    decreases k,
{
    if !(k <= 0 || k > g.len()) {
        lemma_north_load_nonneg(g, k - 1);
        lemma_rounds_bound(g[k - 1], g[k - 1].len() as int);
        let a = rounds(g[k - 1], g[k - 1].len() as int);
        let b = g.len() - (k - 1);
        assert(a * b >= 0) by (nonlinear_arith)
            requires
                a >= 0,
                b >= 0,
        ;
    }
}

impl Platform {
    /// The rows of the text, after the blanks at either end are cut.
    pub fn load(contents: String) -> (r: Self)
        ensures
            rows_view(r.rows@) == lines_of(trim(contents@)),
    {
        let cs = chars_of(contents.as_str());
        let t = trimmed(&cs);
        let pieces = split_lines(&t);
        let ghost want = lines_of(trim(contents@));
        let mut rows: Vec<String> = Vec::new();
        let mut k: usize = 0;
        while k < pieces.len()
            invariant
                want == lines_of(trim(contents@)),
                pieces@.len() == want.len(),
                forall|i: int| 0 <= i < pieces@.len() ==> #[trigger] pieces@[i]@ == want[i],
                0 <= k <= pieces@.len(),
                rows_view(rows@) == want.take(k as int),
            decreases pieces@.len() - k,
        {
            let piece = &pieces[k];
            let line = string_of(piece, 0, piece.len());
            proof {
                assert(piece@.subrange(0, piece@.len() as int) == piece@);
            }
            let ghost before = rows@;
            rows.push(line);
            proof {
                assert(rows_view(rows@) == rows_view(before).push(want[k as int]));
                assert(want.take(k as int + 1) == want.take(k as int).push(want[k as int]));
            }
            k = k + 1;
        }
        assert(want.take(k as int) == want);
        Self { rows }
    }

    /// The load on the north support beams.
    pub fn total_load_north(&self) -> (r: usize)
        requires
            north_load(rows_view(self.rows@), self.rows@.len() as int) <= usize::MAX,
        ensures
            r == north_load(rows_view(self.rows@), self.rows@.len() as int),
    {
        let ghost g = rows_view(self.rows@);
        let n = self.rows.len();
        let mut acc: usize = 0;
        let mut k: usize = 0;
        while k < n
            invariant
                g == rows_view(self.rows@),
                n == g.len(),
                north_load(g, n as int) <= usize::MAX,
                0 <= k <= n,
                acc == north_load(g, k as int),
            decreases n - k,
        {
            proof {
                lemma_north_load_mono(g, k + 1);
                lemma_north_load_nonneg(g, k as int);
            }
            let row = chars_of(self.rows[k].as_str());
            assert(row@ == g[k as int]);
            let mut count: usize = 0;
            let mut i: usize = 0;
            while i < row.len()
                invariant
                    0 <= i <= row@.len(),
                    count == rounds(row@, i as int),
                    count <= i,
                decreases row@.len() - i,
            {
                if row[i] == 'O' {
                    count = count + 1;
                }
                i = i + 1;
            }
            proof {
                let b = n - k;
                assert(count * b <= usize::MAX) by (nonlinear_arith)
                    requires
                        acc + count * b <= usize::MAX,
                        acc >= 0,
                        count >= 0,
                        b >= 0,
                ;
            }
            acc = acc + count * (n - k);
            k = k + 1;
        }
        acc
    }

    /// The platform turned a quarter counterclockwise: row `k` is column
    /// `width - 1 - k`, read from the top.
    pub fn rotate_ccw(&self) -> (r: Self)
        requires
            rectangular(rows_view(self.rows@)),
        ensures
            rows_view(r.rows@) == ccw(rows_view(self.rows@)),
    {
        let g = self.char_rows();
        let w = g[0].len();
        let mut out: Vec<String> = Vec::new();
        let mut k: usize = 0;
        while k < w
            invariant
                g@.len() == self.rows@.len(),
                forall|i: int| 0 <= i < g@.len() ==> (#[trigger] g@[i])@ == rows_view(self.rows@)[i],
                rectangular(rows_view(self.rows@)),
                w == rows_view(self.rows@)[0].len(),
                0 <= k <= w,
                out@.len() == k,
                forall|j: int|
                    0 <= j < k ==> (#[trigger] out@[j])@ == Seq::new(
                        self.rows@.len(),
                        |i: int| rows_view(self.rows@)[i][w - 1 - j],
                    ),
            decreases w - k,
        {
            let col = w - 1 - k;
            let s = column_string(&g, col, false);
            proof {
                assert(s@ =~= Seq::new(self.rows@.len(), |i: int| rows_view(self.rows@)[i][w - 1 - k]));
            }
            out.push(s);
            k = k + 1;
        }
        assert(rows_view(out@) =~= ccw(rows_view(self.rows@)));
        Self { rows: out }
    }

    /// The platform turned a quarter clockwise: row `k` is column `k`, read
    /// from the bottom.
    pub fn rotate_cw(&self) -> (r: Self)
        requires
            rectangular(rows_view(self.rows@)),
        ensures
            rows_view(r.rows@) == cw(rows_view(self.rows@)),
    {
        let g = self.char_rows();
        let w = g[0].len();
        let mut out: Vec<String> = Vec::new();
        let mut k: usize = 0;
        while k < w
            invariant
                g@.len() == self.rows@.len(),
                forall|i: int| 0 <= i < g@.len() ==> (#[trigger] g@[i])@ == rows_view(self.rows@)[i],
                rectangular(rows_view(self.rows@)),
                w == rows_view(self.rows@)[0].len(),
                0 <= k <= w,
                out@.len() == k,
                forall|j: int|
                    0 <= j < k ==> (#[trigger] out@[j])@ == Seq::new(
                        self.rows@.len(),
                        |i: int| rows_view(self.rows@)[self.rows@.len() - 1 - i][j],
                    ),
            decreases w - k,
        {
            let s = column_string(&g, k, true);
            proof {
                assert(s@ =~= Seq::new(self.rows@.len(), |i: int| rows_view(self.rows@)[self.rows@.len() - 1 - i][k as int]));
            }
            out.push(s);
            k = k + 1;
        }
        assert(rows_view(out@) =~= cw(rows_view(self.rows@)));
        Self { rows: out }
    }

    /// Every round rock rolled as far left as it goes, in every row.
    pub fn move_boulders_left(&self) -> (r: Self)
        requires
            rocks_only(rows_view(self.rows@)),
        ensures
            rows_view(r.rows@) == rows_view(self.rows@).map_values(|row: Seq<char>| tilted_left(row)),
    {
        let g = self.char_rows();
        let mut out: Vec<String> = Vec::new();
        let mut k: usize = 0;
        while k < g.len()
            invariant
                g@.len() == self.rows@.len(),
                forall|i: int| 0 <= i < g@.len() ==> (#[trigger] g@[i])@ == rows_view(self.rows@)[i],
                0 <= k <= g@.len(),
                rows_view(out@) == rows_view(self.rows@).take(k as int).map_values(
                    |row: Seq<char>| tilted_left(row),
                ),
            decreases g@.len() - k,
        {
            let t = tilt_row(&g[k]);
            let s = string_of(&t, 0, t.len());
            assert(t@.subrange(0, t@.len() as int) == t@);
            let ghost before = out@;
            assert(s@ == tilted_left(rows_view(self.rows@)[k as int]));
            out.push(s);
            assert(rows_view(out@) =~= rows_view(before).push(s@));
            assert(rows_view(self.rows@).take(k as int + 1) =~= rows_view(self.rows@).take(k as int).push(
                rows_view(self.rows@)[k as int],
            ));
            assert(rows_view(out@) =~= rows_view(self.rows@).take(k as int + 1).map_values(
                |row: Seq<char>| tilted_left(row),
            ));
            k = k + 1;
        }
        assert(rows_view(self.rows@).take(k as int) == rows_view(self.rows@));
        Self { rows: out }
    }

    /// The round rocks rolled north: turned counterclockwise, rolled left,
    /// turned back.
    pub fn slide_north(&self) -> (r: Self)
        requires
            rectangular(rows_view(self.rows@)),
            rows_view(self.rows@)[0].len() > 0,
            rocks_only(rows_view(self.rows@)),
        ensures
            rows_view(r.rows@) == cw(ccw(rows_view(self.rows@)).map_values(|row: Seq<char>| tilted_left(row))),
    {
        let ghost g = rows_view(self.rows@);
        let a = self.rotate_ccw();
        assert forall|i: int, j: int| 0 <= i < ccw(g).len() && 0 <= j < ccw(g)[i].len() implies rock_char(
            #[trigger] ccw(g)[i][j],
        ) by {
            assert(g[j].len() >= g[0].len());
        }
        let b = a.move_boulders_left();
        let ghost t = ccw(g).map_values(|row: Seq<char>| tilted_left(row));
        assert(rectangular(t));
        b.rotate_cw()
    }

    /// One spin cycle from the side that tilts left: tilt left and turn
    /// clockwise, four times.
    fn spin_once(&self) -> (r: Self)
        requires
            grid_ok(rows_view(self.rows@)),
        ensures
            rows_view(r.rows@) == spin(rows_view(self.rows@)),
            grid_ok(rows_view(r.rows@)),
    {
        let ghost g = rows_view(self.rows@);
        proof {
            lemma_tilt_ok(g);
            lemma_cw_ok(tilt(g));
            lemma_tilt_ok(cw(tilt(g)));
            lemma_cw_ok(tilt(cw(tilt(g))));
            lemma_tilt_ok(cw(tilt(cw(tilt(g)))));
            lemma_cw_ok(tilt(cw(tilt(cw(tilt(g))))));
            lemma_tilt_ok(cw(tilt(cw(tilt(cw(tilt(g)))))));
            lemma_cw_ok(tilt(cw(tilt(cw(tilt(cw(tilt(g))))))));
        }
        let a = self.move_boulders_left().rotate_cw();
        let b = a.move_boulders_left().rotate_cw();
        let c = b.move_boulders_left().rotate_cw();
        c.move_boulders_left().rotate_cw()
    }

    /// Whether two platforms hold the same rows.
    fn same_rows(&self, other: &Self) -> (r: bool)
        ensures
            r == (rows_view(self.rows@) == rows_view(other.rows@)),
    {
        if self.rows.len() != other.rows.len() {
            return false;
        }
        let mut i: usize = 0;
        while i < self.rows.len()
            invariant
                self.rows@.len() == other.rows@.len(),
                0 <= i <= self.rows@.len(),
                forall|k: int| 0 <= k < i ==> self.rows@[k]@ == other.rows@[k]@,
            decreases self.rows@.len() - i,
        {
            if self.rows[i] != other.rows[i] {
                assert(rows_view(self.rows@)[i as int] != rows_view(other.rows@)[i as int]);
                return false;
            }
            i = i + 1;
        }
        assert(rows_view(self.rows@) =~= rows_view(other.rows@));
        true
    }

    /// A platform with the same rows.
    fn copy(&self) -> (r: Self)
        ensures
            rows_view(r.rows@) == rows_view(self.rows@),
    {
        let mut rows: Vec<String> = Vec::new();
        let mut i: usize = 0;
        while i < self.rows.len()
            invariant
                0 <= i <= self.rows@.len(),
                rows_view(rows@) == rows_view(self.rows@).take(i as int),
            decreases self.rows@.len() - i,
        {
            let ghost before = rows@;
            let row = self.rows[i].clone();
            assert(row@ == self.rows@[i as int]@);
            rows.push(row);
            assert(rows_view(rows@) =~= rows_view(before).push(self.rows@[i as int]@));
            assert(rows_view(rows@) =~= rows_view(self.rows@).take(i as int + 1));
            i = i + 1;
        }
        assert(rows_view(self.rows@).take(i as int) =~= rows_view(self.rows@));
        Self { rows }
    }

    /// The platform after `times` spin cycles (north, west, south, east),
    /// taking a shortcut once the states start to repeat.
    pub fn slide_cycle(&self, times: usize) -> (r: Self)
        requires
            grid_ok(rows_view(self.rows@)),
        ensures
            rows_view(r.rows@) == cw(spins(ccw(rows_view(self.rows@)), times as nat)),
    {
        let ghost g = rows_view(self.rows@);
        let ghost s0 = ccw(g);
        proof {
            lemma_ccw_ok(g);
        }
        let mut current = self.rotate_ccw();
        let mut history: Vec<Platform> = Vec::new();
        let mut t: usize = 0;
        while t < times
            invariant
                g == rows_view(self.rows@),
                s0 == ccw(g),
                grid_ok(s0),
                0 <= t <= times,
                history@.len() == t,
                forall|k: int| 0 <= k < t ==> rows_view((#[trigger] history@[k]).rows@) == spins(s0, k as nat),
                rows_view(current.rows@) == spins(s0, t as nat),
            decreases times - t,
        {
            proof {
                lemma_spins_ok(s0, t as nat);
            }
            history.push(current.copy());
            current = current.spin_once();
            assert(rows_view(current.rows@) == spins(s0, (t + 1) as nat));
            let mut p: usize = 0;
            while p < history.len()
                invariant
                    0 <= p <= history@.len(),
                    history@.len() == t + 1,
                    forall|k: int| 0 <= k < t + 1 ==> rows_view((#[trigger] history@[k]).rows@) == spins(s0, k as nat),
                    rows_view(current.rows@) == spins(s0, (t + 1) as nat),
                    forall|k: int| 0 <= k < p ==> rows_view(history@[k].rows@) != rows_view(current.rows@),
                decreases history@.len() - p,
            {
                if history[p].same_rows(&current) {
                    break;
                }
                p = p + 1;
            }
            if p < history.len() && history[p].same_rows(&current) {
                let cycle_length = history.len() - p;
                let cycle_range = times - p;
                let remainder = cycle_range % cycle_length;
                proof {
                    let l = cycle_length as nat;
                    let q = (cycle_range / cycle_length) as nat;
                    assert(rows_view(history@[p as int].rows@) == rows_view(current.rows@));
                    assert((p + l) as nat == (t + 1) as nat);
                    assert(spins(s0, p as nat) == spins(s0, (p + l) as nat));
                    lemma_spins_period(s0, p as nat, l, q, remainder as nat);
                    vstd::arithmetic::div_mod::lemma_fundamental_div_mod(cycle_range as int, cycle_length as int);
                    assert(p + q * l + remainder == times) by (nonlinear_arith)
                        requires
                            cycle_range == cycle_length * q + remainder,
                            cycle_range == times - p,
                            l == cycle_length,
                    ;
                    vstd::arithmetic::div_mod::lemma_mod_bound(cycle_range as int, cycle_length as int);
                }
                let back = history[p + remainder].copy();
                proof {
                    lemma_spins_ok(s0, times as nat);
                    assert(p + remainder < t + 1);
                    assert(rows_view(history@[(p + remainder) as int].rows@) == spins(s0, (p + remainder) as nat));
                    assert(rows_view(back.rows@) == spins(s0, times as nat));
                }
                return back.rotate_cw();
            }
            t = t + 1;
        }
        proof {
            lemma_spins_ok(s0, times as nat);
        }
        current.rotate_cw()
    }

    /// The rows as characters.
    fn char_rows(&self) -> (r: Vec<Vec<char>>)
        ensures
            r@.len() == self.rows@.len(),
            forall|i: int| 0 <= i < r@.len() ==> (#[trigger] r@[i])@ == rows_view(self.rows@)[i],
    {
        let mut g: Vec<Vec<char>> = Vec::new();
        let mut i: usize = 0;
        while i < self.rows.len()
            invariant
                0 <= i <= self.rows@.len(),
                g@.len() == i,
                forall|j: int| 0 <= j < i ==> (#[trigger] g@[j])@ == rows_view(self.rows@)[j],
            decreases self.rows@.len() - i,
        {
            g.push(chars_of(self.rows[i].as_str()));
            i = i + 1;
        }
        g
    }
}

/// Every row tilted left.
pub open spec fn tilt(g: Seq<Seq<char>>) -> Seq<Seq<char>> {
    g.map_values(|row: Seq<char>| tilted_left(row))
}

/// One spin cycle, seen from the side that tilts left: tilt and turn
/// clockwise, four times.
pub open spec fn spin(g: Seq<Seq<char>>) -> Seq<Seq<char>> {
    cw(tilt(cw(tilt(cw(tilt(cw(tilt(g))))))))
}

/// The grid after `k` spin cycles.
pub open spec fn spins(g: Seq<Seq<char>>, k: nat) -> Seq<Seq<char>>
    decreases k,
{
    if k == 0 {
        g
    } else {
        spin(spins(g, (k - 1) as nat))
    }
}

/// Rectangular with rows of at least one character, holding only rocks and space.
pub open spec fn grid_ok(g: Seq<Seq<char>>) -> bool {
    &&& rectangular(g)
    &&& g[0].len() > 0
    &&& forall|i: int| 0 <= i < g.len() ==> (#[trigger] g[i]).len() == g[0].len()
    &&& rocks_only(g)
}

proof fn lemma_tilt_ok(g: Seq<Seq<char>>)
    requires
        grid_ok(g),
    ensures
        grid_ok(tilt(g)),
{
    assert forall|i: int, j: int| 0 <= i < tilt(g).len() && 0 <= j < tilt(g)[i].len() implies rock_char(
        #[trigger] tilt(g)[i][j],
    ) by {
        assert(tilt(g)[i] == tilted_left(g[i]));
    }
}

proof fn lemma_cw_ok(g: Seq<Seq<char>>)
    requires
        grid_ok(g),
    ensures
        grid_ok(cw(g)),
{
    assert forall|i: int, j: int| 0 <= i < cw(g).len() && 0 <= j < cw(g)[i].len() implies rock_char(
        #[trigger] cw(g)[i][j],
    ) by {
        assert(g[g.len() - 1 - j].len() == g[0].len());
    }
}

proof fn lemma_ccw_ok(g: Seq<Seq<char>>)
    requires
        grid_ok(g),
    ensures
        grid_ok(ccw(g)),
{
    assert forall|i: int, j: int| 0 <= i < ccw(g).len() && 0 <= j < ccw(g)[i].len() implies rock_char(
        #[trigger] ccw(g)[i][j],
    ) by {
        assert(g[j].len() == g[0].len());
    }
}

proof fn lemma_spins_ok(g: Seq<Seq<char>>, k: nat)
    requires
        grid_ok(g),
    ensures
        grid_ok(spins(g, k)),
    decreases k,
{
    if k > 0 {
        lemma_spins_ok(g, (k - 1) as nat);
        let h = spins(g, (k - 1) as nat);
        lemma_tilt_ok(h);
        lemma_cw_ok(tilt(h));
        lemma_tilt_ok(cw(tilt(h)));
        lemma_cw_ok(tilt(cw(tilt(h))));
        lemma_tilt_ok(cw(tilt(cw(tilt(h)))));
        lemma_cw_ok(tilt(cw(tilt(cw(tilt(h))))));
        lemma_tilt_ok(cw(tilt(cw(tilt(cw(tilt(h)))))));
        lemma_cw_ok(tilt(cw(tilt(cw(tilt(cw(tilt(h))))))));
    }
}

/// Equal grids spin on alike.
proof fn lemma_spins_shift(g: Seq<Seq<char>>, a: nat, b: nat, m: nat)
    requires
        spins(g, a) == spins(g, b),
    ensures
        spins(g, a + m) == spins(g, b + m),
    decreases m,
{
    if m > 0 {
        lemma_spins_shift(g, a, b, (m - 1) as nat);
        assert(spins(g, a + m) == spin(spins(g, (a + m - 1) as nat)));
        assert(spins(g, b + m) == spin(spins(g, (b + m - 1) as nat)));
    }
}

/// Once the spins repeat with period `l` from `p` on, every later state is
/// one of the period.
proof fn lemma_spins_period(g: Seq<Seq<char>>, p: nat, l: nat, q: nat, r: nat)
    requires
        l > 0,
        spins(g, p) == spins(g, p + l),
    ensures
        spins(g, p + q * l + r) == spins(g, p + r),
    decreases q,
{
    if q > 0 {
        lemma_spins_period(g, p, l, (q - 1) as nat, r);
        lemma_spins_shift(g, p, p + l, ((q - 1) * l + r) as nat);
        assert(p + q * l + r == p + l + ((q - 1) * l + r)) by (nonlinear_arith)
            requires
                q > 0,
        ;
        assert(p + (q - 1) * l + r == p + ((q - 1) * l + r)) by (nonlinear_arith)
            requires
                q > 0,
        ;
    } else {
        assert(p + 0 * l + r == p + r) by (nonlinear_arith);
    }
}

/// The row with every round rock rolled left.
fn tilt_row(r: &Vec<char>) -> (t: Vec<char>)
    ensures
        t@ == tilted_left(r@),
{
    let n = r.len();
    let ghost want = tilted_left(r@);
    let mut out: Vec<char> = Vec::new();
    let mut i: usize = 0;
    while i < n
        invariant
            n == r@.len(),
            want == tilted_left(r@),
            0 <= i <= n,
            i == 0 || i == n || r@[i - 1] == '#' || r@[i as int] == '#',
            out@ == want.take(i as int),
        decreases n - i,
    {
        if r[i] == '#' {
            out.push('#');
            assert(want.take(i as int + 1) =~= want.take(i as int).push('#'));
            i = i + 1;
        } else {
            let mut e = i;
            let mut c: usize = 0;
            while e < n && r[e] != '#'
                invariant
                    n == r@.len(),
                    i <= e <= n,
                    forall|k: int| i <= k < e ==> r@[k] != '#',
                    c == rounds_between(r@, i as int, e as int),
                    c <= e - i,
                decreases n - e,
            {
                if r[e] == 'O' {
                    c = c + 1;
                }
                e = e + 1;
            }
            let mut j = i;
            while j < e
                invariant
                    n == r@.len(),
                    want == tilted_left(r@),
                    i < n,
                    r@[i as int] != '#',
                    i == 0 || r@[i - 1] == '#',
                    i <= j <= e <= n,
                    e == n || r@[e as int] == '#',
                    forall|k: int| i <= k < e ==> r@[k] != '#',
                    c == rounds_between(r@, i as int, e as int),
                    c <= e - i,
                    out@ == want.take(j as int),
                decreases e - j,
            {
                proof {
                    lemma_seg_start(r@, i as int, e as int, j as int);
                    lemma_seg_end(r@, i as int, e as int, j as int);
                }
                let ch = if j - i < c { 'O' } else { '.' };
                out.push(ch);
                assert(want.take(j as int + 1) =~= want.take(j as int).push(ch));
                j = j + 1;
            }
            i = e;
        }
    }
    assert(want.take(n as int) =~= want);
    out
}

/// Column `col` of the rows `g`, top to bottom, or bottom to top with `upward`.
fn column_string(g: &Vec<Vec<char>>, col: usize, upward: bool) -> (r: String)
    requires
        forall|i: int| 0 <= i < g@.len() ==> col < (#[trigger] g@[i])@.len(),
    ensures
        r@ == Seq::new(
            g@.len(),
            |i: int| if upward { g@[g@.len() - 1 - i]@[col as int] } else { g@[i]@[col as int] },
        ),
{
    let n = g.len();
    let mut cs: Vec<char> = Vec::new();
    let mut i: usize = 0;
    while i < n
        invariant
            n == g@.len(),
            forall|i: int| 0 <= i < g@.len() ==> col < (#[trigger] g@[i])@.len(),
            0 <= i <= n,
            cs@.len() == i,
            forall|j: int|
                0 <= j < i ==> #[trigger] cs@[j] == if upward { g@[n - 1 - j]@[col as int] } else { g@[j]@[col as int] },
        decreases n - i,
    {
        let row = if upward { &g[n - 1 - i] } else { &g[i] };
        cs.push(row[col]);
        i = i + 1;
    }
    let r = string_of(&cs, 0, cs.len());
    assert(cs@.subrange(0, cs@.len() as int) =~= cs@);
    assert(r@ =~= Seq::new(
        g@.len(),
        |i: int| if upward { g@[g@.len() - 1 - i]@[col as int] } else { g@[i]@[col as int] },
    ));
    r
}

} // verus!
