//! A closed loop of pipes in a grid of symbols: tracing the loop through the
//! start tile, the distance of each loop tile from the start, and which of the
//! other tiles the loop encloses.
use vstd::prelude::*;
use crate::text::{chars_of, split_chars, split_on, lines_of, lemma_split_on_nonempty};

verus! {

/// A position as (column, row), rows growing downward.
pub type Loc = (usize, usize);

/// A step or a turn: each component is -1, 0 or 1.
pub type Vect = (i8, i8);

#[derive(Clone, Copy, Debug, PartialEq, Eq, Structural)]
pub struct Tile {
    pub x: usize,
    pub y: usize,
    pub kind: char,
}

#[derive(Clone, Copy, Debug, PartialEq, Eq, Structural)]
pub enum GridError {
    /// Empty input, rows of different lengths, or a symbol outside the alphabet.
    MalformedGrid,
    /// No start tile `S`.
    NoOrigin,
    /// The start tile does not have exactly two connecting neighbours.
    DegenerateOrigin,
    /// The walk from the start does not come back to it as a simple cycle.
    BrokenLoop,
}

pub open spec fn is_symbol(c: char) -> bool {
    c == '|' || c == '-' || c == 'L' || c == 'J' || c == '7' || c == 'F' || c == '.' || c == 'S'
}

pub open spec fn opens_up(c: char) -> bool {
    c == '|' || c == 'L' || c == 'J'
}

pub open spec fn opens_down(c: char) -> bool {
    c == '|' || c == '7' || c == 'F'
}

pub open spec fn opens_left(c: char) -> bool {
    c == '-' || c == 'J' || c == '7'
}

pub open spec fn opens_right(c: char) -> bool {
    c == '-' || c == 'L' || c == 'F'
}

/// Whether tile `a` extends a connection toward `b`, judged by their relative
/// position, and `b` takes it. The start tile takes a connection from any side;
/// as the initiating side it connects to whatever connects back to it.
pub open spec fn connects(a: Tile, b: Tile) -> bool {
    if a.kind == 'S' {
        (b.y > a.y && opens_up(b.kind)) || (b.y < a.y && opens_down(b.kind)) || (b.x > a.x
            && opens_left(b.kind)) || (b.x < a.x && opens_right(b.kind))
    } else {
        (b.y < a.y && opens_up(a.kind) && (opens_down(b.kind) || b.kind == 'S')) || (b.y > a.y
            && opens_down(a.kind) && (opens_up(b.kind) || b.kind == 'S')) || (b.x < a.x
            && opens_left(a.kind) && (opens_right(b.kind) || b.kind == 'S')) || (b.x > a.x
            && opens_right(a.kind) && (opens_left(b.kind) || b.kind == 'S'))
    }
}

fn is_up(c: char) -> (r: bool)
    ensures
        r == opens_up(c),
{
    c == '|' || c == 'L' || c == 'J'
}

fn is_down(c: char) -> (r: bool)
    ensures
        r == opens_down(c),
{
    c == '|' || c == '7' || c == 'F'
}

fn is_left(c: char) -> (r: bool)
    ensures
        r == opens_left(c),
{
    c == '-' || c == 'J' || c == '7'
}

fn is_right(c: char) -> (r: bool)
    ensures
        r == opens_right(c),
{
    c == '-' || c == 'L' || c == 'F'
}

impl Tile {
    pub fn loc(&self) -> (r: Loc)
        ensures
            r == (self.x, self.y),
    {
        (self.x, self.y)
    }

    pub fn connects_to(&self, other: &Tile) -> (r: bool)
        ensures
            r == connects(*self, *other),
    {
        let k = other.kind;
        if self.kind == 'S' {
            (other.y > self.y && is_up(k)) || (other.y < self.y && is_down(k)) || (other.x > self.x
                && is_left(k)) || (other.x < self.x && is_right(k))
        } else {
            (other.y < self.y && is_up(self.kind) && (is_down(k) || k == 'S')) || (other.y > self.y
                && is_down(self.kind) && (is_up(k) || k == 'S')) || (other.x < self.x && is_left(
                self.kind,
            ) && (is_right(k) || k == 'S')) || (other.x > self.x && is_right(self.kind) && (
            is_left(k) || k == 'S'))
        }
    }
}

/// At least one row, all rows of one non-zero length, only symbols of the alphabet.
pub open spec fn well_shaped(g: Seq<Seq<char>>) -> bool {
    &&& g.len() > 0
    &&& g[0].len() > 0
    &&& forall|y: int| 0 <= y < g.len() ==> #[trigger] g[y].len() == g[0].len()
    &&& forall|y: int, x: int|
        0 <= y < g.len() && 0 <= x < g[y].len() ==> is_symbol(#[trigger] g[y][x])
}

pub open spec fn has_origin(g: Seq<Seq<char>>) -> bool {
    exists|y: int, x: int| 0 <= y < g.len() && 0 <= x < g[y].len() && #[trigger] g[y][x] == 'S'
}

/// A rectangular grid of symbols with a start tile.
pub struct PipeMap {
    rows: Vec<Vec<char>>,
    width: usize,
    height: usize,
}

impl View for PipeMap {
    type V = Seq<Seq<char>>;

    closed spec fn view(&self) -> Seq<Seq<char>> {
        self.rows@.map_values(|r: Vec<char>| r@)
    }
}

impl PipeMap {
    pub closed spec fn wf(&self) -> bool {
        &&& well_shaped(self@)
        &&& has_origin(self@)
        &&& self.height == self.rows@.len()
        &&& self.width == self.rows@[0]@.len()
    }

    pub open spec fn in_grid(&self, x: int, y: int) -> bool {
        0 <= y < self@.len() && 0 <= x < self@[0].len()
    }

    pub open spec fn tile_at(&self, x: int, y: int) -> Tile {
        Tile { x: x as usize, y: y as usize, kind: self@[y][x] }
    }

    pub fn load(contents: String) -> (r: Result<Self, GridError>)
        ensures
            match r {
                Ok(m) => m.wf() && m@ == lines_of(contents@),
                Err(e) => (e == GridError::MalformedGrid && !well_shaped(lines_of(contents@))) || (
                e == GridError::NoOrigin && well_shaped(lines_of(contents@)) && !has_origin(
                    lines_of(contents@),
                )),
            },
            r is Ok <==> well_shaped(lines_of(contents@)) && has_origin(lines_of(contents@)),
    {
        let chars = chars_of(contents.as_str());
        let mut rows = split_chars(&chars, '\n');
        proof {
            lemma_split_on_nonempty(chars@, '\n');
        }
        let ghost parts = split_on(chars@, '\n');
        let last = rows.len() - 1;
        if rows[last].len() == 0 {
            rows.pop();
        }
        let ghost g = lines_of(contents@);
        assert(rows@.len() == g.len());
        assert(forall|i: int| 0 <= i < rows@.len() ==> #[trigger] rows@[i]@ == g[i]);
        if rows.len() == 0 || rows[0].len() == 0 {
            return Err(GridError::MalformedGrid);
        }
        let width = rows[0].len();
        let height = rows.len();
        let mut found = false;
        let mut y: usize = 0;
        while y < height
            invariant
                g == lines_of(contents@),
                height == rows@.len() == g.len(),
                width == g[0].len(),
                0 <= y <= height,
                forall|i: int| 0 <= i < rows@.len() ==> #[trigger] rows@[i]@ == g[i],
                forall|j: int| 0 <= j < y ==> #[trigger] g[j].len() == width,
                forall|j: int, x: int| 0 <= j < y && 0 <= x < g[j].len() ==> is_symbol(#[trigger] g[j][x]),
                found <==> exists|j: int, x: int| 0 <= j < y && 0 <= x < g[j].len() && #[trigger] g[j][x] == 'S',
            decreases height - y,
        {
            let row = &rows[y];
            if row.len() != width {
                assert(g[y as int].len() != g[0].len());
                return Err(GridError::MalformedGrid);
            }
            let mut x: usize = 0;
            while x < width
                invariant
                    g == lines_of(contents@),
                height == rows@.len() == g.len(),
                    width == g[0].len(),
                    0 <= y < height,
                    0 <= x <= width,
                    row@ == g[y as int],
                    row@.len() == width,
                    forall|i: int| 0 <= i < rows@.len() ==> #[trigger] rows@[i]@ == g[i],
                    forall|j: int| 0 <= j < y ==> #[trigger] g[j].len() == width,
                    forall|j: int, i: int| 0 <= j < y && 0 <= i < g[j].len() ==> is_symbol(#[trigger] g[j][i]),
                    forall|i: int| 0 <= i < x ==> is_symbol(#[trigger] g[y as int][i]),
                    found <==> (exists|j: int, i: int| 0 <= j < y && 0 <= i < g[j].len() && #[trigger] g[j][i] == 'S')
                        || (exists|i: int| 0 <= i < x && #[trigger] g[y as int][i] == 'S'),
                decreases width - x,
            {
                let c = row[x];
                if !(c == '|' || c == '-' || c == 'L' || c == 'J' || c == '7' || c == 'F' || c == '.'
                    || c == 'S') {
                    assert(!is_symbol(g[y as int][x as int]));
                    assert(!well_shaped(g)) by {
                        if well_shaped(g) {
                            assert(is_symbol(g[y as int][x as int]));
                        }
                    }
                    return Err(GridError::MalformedGrid);
                }
                if c == 'S' {
                    found = true;
                }
                x = x + 1;
            }
            y = y + 1;
        }
        if !found {
            assert(!has_origin(g)) by {
                if has_origin(g) {
                    let (j, i) = choose|j: int, i: int| 0 <= j < g.len() && 0 <= i < g[j].len() && #[trigger] g[j][i] == 'S';
                    assert(g[j][i] == 'S');
                }
            }
            return Err(GridError::NoOrigin);
        }
        let m = PipeMap { rows, width, height };
        assert(m@ =~= g);
        Ok(m)
    }

    /// `(x, y)` holds the first `S` in reading order.
    pub open spec fn is_origin(&self, x: int, y: int) -> bool {
        &&& self.in_grid(x, y)
        &&& self@[y][x] == 'S'
        &&& forall|j: int, i: int|
            self.in_grid(i, j) && #[trigger] self@[j][i] == 'S' ==> j > y || (j == y && i >= x)
    }

    /// The tiles at those of `ps` that lie in the grid, in order.
    pub open spec fn tiles_at(&self, ps: Seq<Loc>) -> Seq<Tile>
        decreases ps.len(),
    {
        if ps.len() == 0 {
            Seq::empty()
        } else {
            let prev = self.tiles_at(ps.drop_last());
            let p = ps.last();
            if self.in_grid(p.0 as int, p.1 as int) {
                prev.push(self.tile_at(p.0 as int, p.1 as int))
            } else {
                prev
            }
        }
    }

    /// The number of tiles in each row.
    pub fn width(&self) -> (r: usize)
        requires
            self.wf(),
        ensures
            r == self@[0].len(),
    {
        self.width
    }

    /// The number of rows.
    pub fn height(&self) -> (r: usize)
        requires
            self.wf(),
        ensures
            r == self@.len(),
    {
        self.height
    }

    pub fn start_tile(&self) -> (r: Tile)
        requires
            self.wf(),
        ensures
            self.is_origin(r.x as int, r.y as int),
            r == self.tile_at(r.x as int, r.y as int),
    {
        let mut y: usize = 0;
        while y < self.height
            invariant
                self.wf(),
                0 <= y <= self.height,
                forall|j: int, i: int| 0 <= j < y && self.in_grid(i, j) ==> #[trigger] self@[j][i] != 'S',
            decreases self.height - y,
        {
            let row = &self.rows[y];
            assert(row@ == self@[y as int]);
            let mut x: usize = 0;
            while x < self.width
                invariant
                    self.wf(),
                    0 <= y < self.height,
                    0 <= x <= self.width,
                    row@ == self@[y as int],
                    forall|j: int, i: int| 0 <= j < y && self.in_grid(i, j) ==> #[trigger] self@[j][i] != 'S',
                    forall|i: int| 0 <= i < x ==> #[trigger] self@[y as int][i] != 'S',
                decreases self.width - x,
            {
                if row[x] == 'S' {
                    return Tile { x, y, kind: 'S' };
                }
                x = x + 1;
            }
            y = y + 1;
        }
        proof {
            let (j, i) = choose|j: int, i: int| 0 <= j < self@.len() && 0 <= i < self@[j].len() && #[trigger] self@[j][i] == 'S';
            assert(self@[j][i] == 'S');
        }
        Tile { x: 0, y: 0, kind: 'S' }
    }

    pub fn get_tiles(&self, pos: Vec<Loc>) -> (r: Vec<Tile>)
        requires
            self.wf(),
        ensures
            r@ == self.tiles_at(pos@),
    {
        let mut r: Vec<Tile> = Vec::new();
        let mut k: usize = 0;
        while k < pos.len()
            invariant
                self.wf(),
                0 <= k <= pos@.len(),
                r@ == self.tiles_at(pos@.take(k as int)),
            decreases pos@.len() - k,
        {
            proof {
                assert(pos@.take(k as int + 1).drop_last() == pos@.take(k as int));
            }
            let (x, y) = pos[k];
            if y < self.height && x < self.width {
                let row = &self.rows[y];
                assert(row@ == self@[y as int]);
                r.push(Tile { x, y, kind: row[x] });
            }
            k = k + 1;
        }
        proof {
            assert(pos@.take(k as int) == pos@);
        }
        r
    }
}

/// The four orthogonal neighbours' positions, clamped at zero as the walk does.
pub open spec fn adj_locs(t: Tile) -> Seq<Loc> {
    seq![
        (t.x, if t.y == 0 { 0usize } else { (t.y - 1) as usize }),
        (t.x, (t.y + 1) as usize),
        (if t.x == 0 { 0usize } else { (t.x - 1) as usize }, t.y),
        ((t.x + 1) as usize, t.y),
    ]
}

impl PipeMap {
    pub open spec fn adj_tiles(&self, t: Tile) -> Seq<Tile> {
        self.tiles_at(adj_locs(t))
    }

    pub open spec fn connected_tiles(&self, t: Tile) -> Seq<Tile> {
        self.adj_tiles(t).filter(|o: Tile| connects(t, o))
    }

    pub fn get_adj_tiles(&self, tile: &Tile) -> (r: Vec<Tile>)
        requires
            self.wf(),
            tile.x < usize::MAX,
            tile.y < usize::MAX,
        ensures
            r@ == self.adj_tiles(*tile),
    {
        let locs = vec![
            (tile.x, tile.y.saturating_sub(1)),
            (tile.x, tile.y + 1),
            (tile.x.saturating_sub(1), tile.y),
            (tile.x + 1, tile.y),
        ];
        assert(locs@ == adj_locs(*tile));
        self.get_tiles(locs)
    }

    pub fn connecting_pipes(&self, tile: &Tile) -> (r: Vec<Tile>)
        requires
            self.wf(),
            tile.x < usize::MAX,
            tile.y < usize::MAX,
        ensures
            r@ == self.connected_tiles(*tile),
    {
        let adj = self.get_adj_tiles(tile);
        let mut r: Vec<Tile> = Vec::new();
        let mut k: usize = 0;
        while k < adj.len()
            invariant
                0 <= k <= adj@.len(),
                r@ == adj@.take(k as int).filter(|o: Tile| connects(*tile, o)),
            decreases adj@.len() - k,
        {
            proof {
                reveal(Seq::filter);
                assert(adj@.take(k as int + 1).drop_last() == adj@.take(k as int));
            }
            let o = adj[k];
            if tile.connects_to(&o) {
                r.push(o);
            }
            k = k + 1;
        }
        proof {
            assert(adj@.take(k as int) == adj@);
        }
        r
    }

}

/// The first tile of `s` that is not at `prev`'s position.
pub open spec fn first_other(s: Seq<Tile>, prev: Tile) -> Option<Tile>
    decreases s.len(),
{
    if s.len() == 0 {
        None
    } else if s[0].x != prev.x || s[0].y != prev.y {
        Some(s[0])
    } else {
        first_other(s.drop_first(), prev)
    }
}

pub open spec fn adjacent(a: Tile, b: Tile) -> bool {
    ||| a.x == b.x && (a.y + 1 == b.y || b.y + 1 == a.y)
    ||| a.y == b.y && (a.x + 1 == b.x || b.x + 1 == a.x)
}

pub open spec fn distinct(p: Seq<Tile>) -> bool {
    forall|i: int, j: int| 0 <= i < j < p.len() ==> p[i] != p[j]
}

/// Cells that are `false`, counted over all rows.
pub open spec fn count_false(g: Seq<Seq<bool>>) -> nat
    decreases g.len(),
{
    if g.len() == 0 {
        0
    } else {
        count_false(g.drop_last()) + row_false(g.last())
    }
}

pub open spec fn row_false(r: Seq<bool>) -> nat
    decreases r.len(),
{
    if r.len() == 0 {
        0
    } else {
        row_false(r.drop_last()) + if r.last() {
            0nat
        } else {
            1nat
        }
    }
}

proof fn lemma_row_false_update(r: Seq<bool>, x: int)
    requires
        0 <= x < r.len(),
        !r[x],
    ensures
        row_false(r.update(x, true)) + 1 == row_false(r),
    decreases r.len(),
{
    let u = r.update(x, true);
    if x == r.len() - 1 {
        assert(u.drop_last() == r.drop_last());
    } else {
        assert(u.drop_last() == r.drop_last().update(x, true));
        lemma_row_false_update(r.drop_last(), x);
    }
}

proof fn lemma_count_false_update(g: Seq<Seq<bool>>, y: int, x: int)
    requires
        0 <= y < g.len(),
        0 <= x < g[y].len(),
        !g[y][x],
    ensures
        count_false(g.update(y, g[y].update(x, true))) + 1 == count_false(g),
    decreases g.len(),
{
    let u = g.update(y, g[y].update(x, true));
    if y == g.len() - 1 {
        assert(u.drop_last() == g.drop_last());
        lemma_row_false_update(g[y], x);
    } else {
        assert(u.drop_last() == g.drop_last().update(y, g[y].update(x, true)));
        lemma_count_false_update(g.drop_last(), y, x);
    }
}

/// A `width` by `height` grid with every cell `v`.
pub fn filled<T: Copy>(width: usize, height: usize, v: T) -> (r: Vec<Vec<T>>)
    ensures
        r@.len() == height,
        forall|y: int| 0 <= y < height ==> (#[trigger] r@[y])@.len() == width,
        forall|y: int, x: int| 0 <= y < height && 0 <= x < width ==> #[trigger] r@[y]@[x] == v,
{
    let mut r: Vec<Vec<T>> = Vec::new();
    let mut y: usize = 0;
    while y < height
        invariant
            0 <= y <= height,
            r@.len() == y,
            forall|j: int| 0 <= j < y ==> (#[trigger] r@[j])@.len() == width,
            forall|j: int, x: int| 0 <= j < y && 0 <= x < width ==> #[trigger] r@[j]@[x] == v,
        decreases height - y,
    {
        let mut row: Vec<T> = Vec::new();
        let mut x: usize = 0;
        while x < width
            invariant
                0 <= x <= width,
                row@.len() == x,
                forall|i: int| 0 <= i < x ==> #[trigger] row@[i] == v,
            decreases width - x,
        {
            row.push(v);
            x = x + 1;
        }
        r.push(row);
        y = y + 1;
    }
    r
}

pub open spec fn on_loop(p: Seq<Tile>, x: int, y: int) -> bool {
    exists|i: int| 0 <= i < p.len() && p[i].x == x && p[i].y == y
}

/// Where the loop passes `(x, y)`, counted from the start.
pub open spec fn loop_index(p: Seq<Tile>, x: int, y: int) -> int {
    choose|i: int| 0 <= i < p.len() && p[i].x == x && p[i].y == y
}

/// Steps from the start to the `i`-th tile of a cycle of `l` tiles, the shorter way round.
pub open spec fn loop_dist(l: int, i: int) -> int {
    if i <= l - i {
        i
    } else {
        l - i
    }
}

/// The move into the `i`-th tile of the loop from the one before it.
pub open spec fn step_into(p: Seq<Tile>, i: int) -> (int, int) {
    let k = if i == 0 {
        p.len() - 1
    } else {
        i - 1
    };
    (p[i].x - p[k].x, p[i].y - p[k].y)
}

/// The move into the `i`-th tile, with the move out of it added where the loop turns there.
pub open spec fn tangent(p: Seq<Tile>, i: int) -> (int, int) {
    let a = step_into(p, i);
    let b = step_into(p, (i + 1) % (p.len() as int));
    if a == b {
        a
    } else {
        (a.0 + b.0, a.1 + b.1)
    }
}

/// The move from `a` to its neighbour `b`.
fn step_between(a: &Tile, b: &Tile) -> (r: Vect)
    requires
        adjacent(*a, *b),
    ensures
        r.0 == b.x - a.x,
        r.1 == b.y - a.y,
{
    let dx: i8 = if b.x > a.x {
        1
    } else if b.x < a.x {
        -1
    } else {
        0
    };
    let dy: i8 = if b.y > a.y {
        1
    } else if b.y < a.y {
        -1
    } else {
        0
    };
    (dx, dy)
}

pub open spec fn all_adjacent(p: Seq<Tile>) -> bool {
    &&& p.len() >= 3
    &&& forall|i: int| 0 <= i < p.len() ==> #[trigger] adjacent(p[i], p[(i + 1) % (p.len() as int)])
}

proof fn lemma_step_into(p: Seq<Tile>, i: int)
    requires
        all_adjacent(p),
        0 <= i < p.len(),
    ensures
        -1 <= step_into(p, i).0 <= 1,
        -1 <= step_into(p, i).1 <= 1,
{
    let l = p.len() as int;
    if i == 0 {
        vstd::arithmetic::div_mod::lemma_mod_self_0(l);
        assert(adjacent(p[l - 1], p[(l - 1 + 1) % l]));
    } else {
        vstd::arithmetic::div_mod::lemma_small_mod(i as nat, l as nat);
        assert(adjacent(p[i - 1], p[(i - 1 + 1) % l]));
    }
}

proof fn lemma_tangent_bounds(p: Seq<Tile>, i: int)
    requires
        all_adjacent(p),
        0 <= i < p.len(),
    ensures
        -2 <= tangent(p, i).0 <= 2,
        -2 <= tangent(p, i).1 <= 2,
{
    let l = p.len() as int;
    lemma_step_into(p, i);
    vstd::arithmetic::div_mod::lemma_mod_bound(i + 1, l);
    lemma_step_into(p, (i + 1) % l);
}

/// The tangent of the `i`-th tile of the loop.
#[verifier::spinoff_prover]
#[verifier::rlimit(60)]
fn tangent_at(p: &Vec<Tile>, i: usize) -> (r: Vect)
    requires
        all_adjacent(p@),
        i < p@.len(),
    ensures
        r.0 == tangent(p@, i as int).0,
        r.1 == tangent(p@, i as int).1,
{
    let l = p.len();
    let ghost li = l as int;
    let k = if i == 0 {
        l - 1
    } else {
        i - 1
    };
    let n = if i + 1 == l {
        0
    } else {
        i + 1
    };
    proof {
        if i == 0 {
            vstd::arithmetic::div_mod::lemma_mod_self_0(li);
        } else {
            vstd::arithmetic::div_mod::lemma_small_mod(i as nat, l as nat);
        }
        if i + 1 == l {
            vstd::arithmetic::div_mod::lemma_mod_self_0(li);
        } else {
            vstd::arithmetic::div_mod::lemma_small_mod((i + 1) as nat, l as nat);
        }
        assert(adjacent(p@[k as int], p@[(k + 1) % li]));
        assert(adjacent(p@[i as int], p@[(i + 1) % li]));
        lemma_step_into(p@, i as int);
        lemma_step_into(p@, n as int);
    }
    let a = step_between(&p[k], &p[i]);
    let b = step_between(&p[i], &p[n]);
    if a.0 == b.0 && a.1 == b.1 {
        a
    } else {
        (a.0 + b.0, a.1 + b.1)
    }
}

proof fn lemma_parity(p: Seq<Tile>, i: int)
    requires
        all_adjacent(p),
        0 <= i < p.len(),
    ensures
        (p[i].x + p[i].y - p[0].x - p[0].y - i) % 2 == 0,
    decreases i,
{
    if i > 0 {
        lemma_parity(p, i - 1);
        vstd::arithmetic::div_mod::lemma_small_mod(i as nat, p.len() as nat);
        assert(adjacent(p[i - 1], p[(i - 1 + 1) % (p.len() as int)]));
    }
}

/// A closed walk of orthogonal steps has an even number of tiles: each step
/// flips the parity of `x + y`, and the walk ends where it began.
pub proof fn lemma_loop_even(p: Seq<Tile>)
    requires
        all_adjacent(p),
    ensures
        p.len() % 2 == 0,
{
    let l = p.len() as int;
    lemma_parity(p, l - 1);
    vstd::arithmetic::div_mod::lemma_mod_self_0(l);
    assert(adjacent(p[l - 1], p[(l - 1 + 1) % l]));
}

/// The row `y` of the distance grid, from the same row of loop indices.
fn dist_row(idx: &Vec<Option<usize>>, l: usize, p: Ghost<Seq<Tile>>, y: Ghost<int>) -> (r: Vec<Option<usize>>)
    requires
        l == p@.len(),
        forall|x: int| 0 <= x < idx@.len() ==> (#[trigger] idx@[x] is Some <==> on_loop(p@, x, y@)),
        forall|x: int|
            0 <= x < idx@.len() && on_loop(p@, x, y@) ==> #[trigger] idx@[x] == Some(
                loop_index(p@, x, y@) as usize,
            ),
        forall|x: int|
            0 <= x < idx@.len() && on_loop(p@, x, y@) ==> 0 <= #[trigger] loop_index(p@, x, y@) < l,
    ensures
        r@.len() == idx@.len(),
        forall|x: int|
            0 <= x < idx@.len() ==> #[trigger] r@[x] == dist_value(p@, x, y@),
{
    let mut row: Vec<Option<usize>> = Vec::new();
    let mut x: usize = 0;
    while x < idx.len()
        invariant
            0 <= x <= idx@.len(),
            row@.len() == x,
            l == p@.len(),
            forall|x: int| 0 <= x < idx@.len() ==> (#[trigger] idx@[x] is Some <==> on_loop(p@, x, y@)),
            forall|x: int|
                0 <= x < idx@.len() && on_loop(p@, x, y@) ==> #[trigger] idx@[x] == Some(
                    loop_index(p@, x, y@) as usize,
                ),
            forall|x: int|
                0 <= x < idx@.len() && on_loop(p@, x, y@) ==> 0 <= #[trigger] loop_index(p@, x, y@) < l,
            forall|i: int|
                0 <= i < x ==> #[trigger] row@[i] == dist_value(p@, i, y@),
        decreases idx@.len() - x,
    {
        let cell = match idx[x] {
            Some(i) => Some(
                if i <= l - i {
                    i
                } else {
                    l - i
                },
            ),
            None => None,
        };
        row.push(cell);
        x = x + 1;
    }
    row
}

/// The row `y` of the tangent grid, from the same row of loop indices.
fn tangent_row(idx: &Vec<Option<usize>>, p: &Vec<Tile>, y: Ghost<int>) -> (r: Vec<Option<Vect>>)
    requires
        all_adjacent(p@),
        forall|x: int| 0 <= x < idx@.len() ==> (#[trigger] idx@[x] is Some <==> on_loop(p@, x, y@)),
        forall|x: int|
            0 <= x < idx@.len() && on_loop(p@, x, y@) ==> #[trigger] idx@[x] == Some(
                loop_index(p@, x, y@) as usize,
            ),
        forall|x: int|
            0 <= x < idx@.len() && on_loop(p@, x, y@) ==> 0 <= #[trigger] loop_index(p@, x, y@) < p@.len(),
    ensures
        r@.len() == idx@.len(),
        forall|x: int|
            0 <= x < idx@.len() ==> #[trigger] r@[x] == tangent_value(p@, x, y@),
{
    let mut row: Vec<Option<Vect>> = Vec::new();
    let mut x: usize = 0;
    let n = p.len();
    while x < idx.len()
        invariant
            0 <= x <= idx@.len(),
            row@.len() == x,
            n == p@.len(),
            all_adjacent(p@),
            forall|x: int| 0 <= x < idx@.len() ==> (#[trigger] idx@[x] is Some <==> on_loop(p@, x, y@)),
            forall|x: int|
                0 <= x < idx@.len() && on_loop(p@, x, y@) ==> #[trigger] idx@[x] == Some(
                    loop_index(p@, x, y@) as usize,
                ),
            forall|x: int|
                0 <= x < idx@.len() && on_loop(p@, x, y@) ==> 0 <= #[trigger] loop_index(p@, x, y@) < p@.len(),
            forall|i: int|
                0 <= i < x ==> #[trigger] row@[i] == tangent_value(p@, i, y@),
        decreases idx@.len() - x,
    {
        let cell = match idx[x] {
            Some(i) => Some(tangent_at(p, i)),
            None => None,
        };
        row.push(cell);
        x = x + 1;
    }
    row
}

/// The loop's tangent at `(x, y)`, where the loop passes there.
pub open spec fn tangent_cell(p: Seq<Tile>, x: int, y: int) -> (int, int) {
    tangent(p, loop_index(p, x, y))
}

/// The loop crosses row `y` at `(x, y)`: it passes there with a vertical component.
pub open spec fn crosses(p: Seq<Tile>, x: int, y: int) -> bool {
    on_loop(p, x, y) && tangent_cell(p, x, y).1 != 0
}

/// `(bx, y)` is the first crossing at or right of `(x, y)`.
pub open spec fn first_crossing(p: Seq<Tile>, x: int, y: int, bx: int) -> bool {
    &&& x <= bx
    &&& crosses(p, bx, y)
    &&& forall|i: int| x <= i < bx ==> !#[trigger] crosses(p, i, y)
}

/// `(x, y)` is the loop's least position, comparing the column first.
pub open spec fn least_on_loop(p: Seq<Tile>, x: int, y: int) -> bool {
    &&& on_loop(p, x, y)
    &&& forall|i: int, j: int| #[trigger] on_loop(p, i, j) ==> i > x || (i == x && j >= y)
}

/// The loop turns clockwise: at its least position it heads right or up.
pub open spec fn clockwise(p: Seq<Tile>) -> bool {
    exists|x: int, y: int|
        #[trigger] least_on_loop(p, x, y) && (tangent_cell(p, x, y).0 > 0 || tangent_cell(p, x, y).1 < 0)
}

/// A tile off the loop is enclosed when the first crossing to its right heads
/// down on a clockwise loop, or up on an anticlockwise one.
pub open spec fn encloses(p: Seq<Tile>, x: int, y: int) -> bool {
    exists|bx: int|
        #[trigger] first_crossing(p, x, y, bx) && if clockwise(p) {
            tangent_cell(p, bx, y).1 > 0
        } else {
            tangent_cell(p, bx, y).1 < 0
        }
}

pub open spec fn heads_right_or_up(v: Vect) -> bool {
    v.0 > 0 || v.1 < 0
}

/// With `bx` the first crossing right of `(x, y)`, whether `(x, y)` is enclosed
/// is decided at `bx`.
proof fn lemma_encloses_at(p: Seq<Tile>, x: int, y: int, bx: int)
    requires
        first_crossing(p, x, y, bx),
    ensures
        encloses(p, x, y) == if clockwise(p) {
            tangent_cell(p, bx, y).1 > 0
        } else {
            tangent_cell(p, bx, y).1 < 0
        },
{
    if encloses(p, x, y) {
        let bx2 = choose|bx2: int|
            #[trigger] first_crossing(p, x, y, bx2) && if clockwise(p) {
                tangent_cell(p, bx2, y).1 > 0
            } else {
                tangent_cell(p, bx2, y).1 < 0
            };
        if bx2 < bx {
            assert(!crosses(p, bx2, y));
        }
        if bx < bx2 {
            assert(!crosses(p, bx, y));
        }
    }
}

/// Enclosed tiles among the first `n` of row `y`.
pub open spec fn enclosed_in_row(p: Seq<Tile>, y: int, n: int) -> nat
    decreases n,
{
    if n <= 0 {
        0
    } else {
        enclosed_in_row(p, y, n - 1) + if !on_loop(p, n - 1, y) && encloses(p, n - 1, y) {
            1nat
        } else {
            0nat
        }
    }
}

/// Enclosed tiles among the first `n` rows, each `w` tiles wide.
pub open spec fn enclosed_in_rows(p: Seq<Tile>, w: int, n: int) -> nat
    decreases n,
{
    if n <= 0 {
        0
    } else {
        enclosed_in_rows(p, w, n - 1) + enclosed_in_row(p, n - 1, w)
    }
}

proof fn lemma_enclosed_in_row_bound(p: Seq<Tile>, y: int, n: int)
    requires
        n >= 0,
    ensures
        enclosed_in_row(p, y, n) <= n,
    decreases n,
{
    if n > 0 {
        lemma_enclosed_in_row_bound(p, y, n - 1);
    }
}

proof fn lemma_enclosed_in_rows_bound(p: Seq<Tile>, w: int, n: int)
    requires
        n >= 0,
        w >= 0,
    ensures
        enclosed_in_rows(p, w, n) <= n * w,
    decreases n,
{
    if n > 0 {
        lemma_enclosed_in_rows_bound(p, w, n - 1);
        lemma_enclosed_in_row_bound(p, n - 1, w);
        assert((n - 1) * w + w == n * w) by (nonlinear_arith);
    }
}

/// The distance grid's cell at `(x, y)` for the loop `p`.
pub open spec fn dist_value(p: Seq<Tile>, x: int, y: int) -> Option<usize> {
    if on_loop(p, x, y) {
        Some(loop_dist(p.len() as int, loop_index(p, x, y)) as usize)
    } else {
        None
    }
}

/// The tangent grid's cell at `(x, y)` for the loop `p`.
pub open spec fn tangent_value(p: Seq<Tile>, x: int, y: int) -> Option<Vect> {
    if on_loop(p, x, y) {
        Some((tangent_cell(p, x, y).0 as i8, tangent_cell(p, x, y).1 as i8))
    } else {
        None
    }
}

/// A cell of a tangent grid that crosses its row.
pub open spec fn crossing_cell(c: Option<Vect>) -> bool {
    c matches Some(v) && v.1 != 0
}

/// The loop walked the other way round from the same start.
pub open spec fn reversed_loop(p: Seq<Tile>) -> Seq<Tile> {
    Seq::new(p.len(), |i: int| if i == 0 { p[0] } else { p[p.len() - i] })
}

/// Walking a loop the other way round passes the same tiles, and each at the
/// same distance from the start.
pub proof fn lemma_reversal_keeps_tiles_and_distances(p: Seq<Tile>)
    requires
        p.len() >= 1,
        distinct(p),
        forall|i: int, j: int| 0 <= i < j < p.len() ==> p[i].x != p[j].x || p[i].y != p[j].y,
    ensures
        distinct(reversed_loop(p)),
        forall|x: int, y: int| #[trigger] on_loop(reversed_loop(p), x, y) == on_loop(p, x, y),
        forall|x: int, y: int|
            #[trigger] on_loop(p, x, y) ==> loop_dist(p.len() as int, loop_index(reversed_loop(p), x, y))
                == loop_dist(p.len() as int, loop_index(p, x, y)),
{
    let q = reversed_loop(p);
    let l = p.len() as int;
    assert forall|i: int, j: int| 0 <= i < j < q.len() implies q[i] != q[j] by {
        if i == 0 {
            assert(q[j] == p[l - j]);
        } else {
            assert(q[i] == p[l - i] && q[j] == p[l - j]);
        }
    }
    assert forall|x: int, y: int| #[trigger] on_loop(q, x, y) == on_loop(p, x, y) by {
        if on_loop(p, x, y) {
            let i = choose|i: int| 0 <= i < p.len() && p[i].x == x && p[i].y == y;
            let j = if i == 0 { 0 } else { l - i };
            assert(q[j] == p[i]);
        }
        if on_loop(q, x, y) {
            let j = choose|j: int| 0 <= j < q.len() && q[j].x == x && q[j].y == y;
            let i = if j == 0 { 0 } else { l - j };
            assert(q[j] == p[i]);
        }
    }
    assert forall|x: int, y: int| #[trigger] on_loop(p, x, y) implies loop_dist(l, loop_index(q, x, y))
        == loop_dist(l, loop_index(p, x, y)) by {
        assert(on_loop(q, x, y));
        let i = loop_index(p, x, y);
        let j = loop_index(q, x, y);
        let jp = if j == 0 { 0 } else { l - j };
        assert(q[j] == p[jp]);
        if jp < i {
            assert(p[jp].x != p[i].x || p[jp].y != p[i].y);
        }
        if i < jp {
            assert(p[jp].x != p[i].x || p[jp].y != p[i].y);
        }
    }
}

/// `t` is `cur`'s neighbour in one of the directions `cur` opens toward.
pub open spec fn in_open_direction(cur: Tile, t: Tile) -> bool {
    ||| t.x == cur.x && t.y + 1 == cur.y && opens_up(cur.kind)
    ||| t.x == cur.x && t.y == cur.y + 1 && opens_down(cur.kind)
    ||| t.y == cur.y && t.x + 1 == cur.x && opens_left(cur.kind)
    ||| t.y == cur.y && t.x == cur.x + 1 && opens_right(cur.kind)
}

/// Whether one tile connects to another does not depend on which one asks.
pub proof fn lemma_connects_symmetric(a: Tile, b: Tile)
    ensures
        connects(a, b) == connects(b, a),
{
}

/// With every tile of `s` at `a`'s place or `b`'s, and `a` the only tile of
/// `s` at its place, the first tile not at `b`'s place is `a`.
proof fn lemma_first_other_two(s: Seq<Tile>, a: Tile, b: Tile)
    requires
        s.contains(a),
        a.x != b.x || a.y != b.y,
        forall|i: int| 0 <= i < s.len() ==> (s[i].x == a.x && s[i].y == a.y) || (s[i].x == b.x && s[i].y == b.y),
        forall|i: int| 0 <= i < s.len() && s[i].x == a.x && s[i].y == a.y ==> s[i] == a,
    ensures
        first_other(s, b) == Some(a),
    decreases s.len(),
{
    if s[0].x == b.x && s[0].y == b.y {
        let t = s.drop_first();
        let j = choose|j: int| 0 <= j < s.len() && s[j] == a;
        assert(j != 0);
        assert(t[j - 1] == a);
        lemma_first_other_two(t, a, b);
    }
}

/// The tangents of the reversed loop are those of the loop, negated.
proof fn lemma_reverse_tangent(p: Seq<Tile>, i: int)
    requires
        p.len() >= 3,
        0 <= i < p.len(),
    ensures
        ({
            let j = if i == 0 { 0 } else { p.len() - i };
            &&& 0 <= j < p.len()
            &&& reversed_loop(p)[j] == p[i]
            &&& tangent(reversed_loop(p), j) == (-tangent(p, i).0, -tangent(p, i).1)
        }),
{
    let l = p.len() as int;
    let r = reversed_loop(p);
    let j = if i == 0 { 0 } else { l - i };
    let ni = (i + 1) % l;
    let nj = (j + 1) % l;
    if i == l - 1 {
        vstd::arithmetic::div_mod::lemma_mod_self_0(l);
    } else {
        vstd::arithmetic::div_mod::lemma_small_mod((i + 1) as nat, l as nat);
    }
    if j == l - 1 {
        vstd::arithmetic::div_mod::lemma_mod_self_0(l);
    } else {
        vstd::arithmetic::div_mod::lemma_small_mod((j + 1) as nat, l as nat);
    }
    let a = step_into(p, i);
    let b = step_into(p, ni);
    assert(step_into(r, j) == (-b.0, -b.1));
    assert(step_into(r, nj) == (-a.0, -a.1));
}

/// The loop's least position is a corner that opens right and down, so it is
/// entered going up and left going right, or entered going left and left going
/// down.
proof fn lemma_least_corner(p: Seq<Tile>, x0: int, y0: int)
    requires
        all_adjacent(p),
        least_on_loop(p, x0, y0),
        forall|i: int, j: int| 0 <= i < j < p.len() ==> p[i].x != p[j].x || p[i].y != p[j].y,
    ensures
        tangent_cell(p, x0, y0) == (1int, -1int) || tangent_cell(p, x0, y0) == (-1int, 1int),
{
    let l = p.len() as int;
    let i = loop_index(p, x0, y0);
    let ni = (i + 1) % l;
    let pi = if i == 0 { l - 1 } else { i - 1 };
    if i == l - 1 {
        vstd::arithmetic::div_mod::lemma_mod_self_0(l);
    } else {
        vstd::arithmetic::div_mod::lemma_small_mod((i + 1) as nat, l as nat);
    }
    if i == 0 {
        vstd::arithmetic::div_mod::lemma_mod_self_0(l);
    } else {
        vstd::arithmetic::div_mod::lemma_small_mod(i as nat, l as nat);
    }
    assert(adjacent(p[i], p[(i + 1) % l]));
    assert(adjacent(p[pi], p[(pi + 1) % l]));
    assert(on_loop(p, p[ni].x as int, p[ni].y as int));
    assert(on_loop(p, p[pi].x as int, p[pi].y as int));
    assert(p[ni].x != p[pi].x || p[ni].y != p[pi].y);
}

pub open spec fn grid_view<T>(g: Seq<Vec<T>>) -> Seq<Seq<T>> {
    g.map_values(|r: Vec<T>| r@)
}

impl PipeMap {
    /// The walk's next tile from `cur`, having come from `prev`: the first tile
    /// connected to `cur` that is not where the walk came from.
    pub open spec fn next_after(&self, prev: Tile, cur: Tile) -> Option<Tile> {
        first_other(self.connected_tiles(cur), prev)
    }

    /// The start tile: the first `S` in reading order.
    pub open spec fn origin_tile(&self) -> Tile {
        let t = choose|t: Tile| self.is_origin(t.x as int, t.y as int);
        self.tile_at(t.x as int, t.y as int)
    }

    /// `p` starts at the start tile, goes first to the start's first (or, with
    /// `reverse`, second) connected tile, and then always to the walk's next tile.
    pub open spec fn follows(&self, p: Seq<Tile>, reverse: bool) -> bool {
        &&& p.len() >= 2
        &&& p[0] == self.origin_tile()
        &&& self.connected_tiles(p[0]).len() == 2
        &&& p[1] == self.connected_tiles(p[0])[if reverse { 1int } else { 0int }]
        &&& forall|i: int|
            1 <= i < p.len() - 1 ==> #[trigger] self.next_after(p[i - 1], p[i]) == Some(p[i + 1])
    }

    /// `p` is the loop: the walk in direction `reverse` that comes back to the
    /// start, without meeting any tile twice.
    pub open spec fn is_loop_walk(&self, p: Seq<Tile>, reverse: bool) -> bool {
        &&& self.follows(p, reverse)
        &&& self.next_after(p[p.len() - 2], p[p.len() - 1]) == Some(p[0])
        &&& distinct(p)
    }

    pub open spec fn has_loop(&self, reverse: bool) -> bool {
        exists|p: Seq<Tile>| self.is_loop_walk(p, reverse)
    }

    /// `e` is the error that the walk in direction `reverse` ends in.
    pub open spec fn loop_error(&self, e: GridError, reverse: bool) -> bool {
        ||| e == GridError::DegenerateOrigin && self.connected_tiles(self.origin_tile()).len() != 2
        ||| e == GridError::BrokenLoop && self.connected_tiles(self.origin_tile()).len() == 2
            && !self.has_loop(reverse)
    }

    /// The loop, traced toward the start's first connected tile.
    pub open spec fn the_loop(&self) -> Seq<Tile> {
        choose|p: Seq<Tile>| self.is_loop_walk(p, false)
    }

    proof fn lemma_loop_unique(&self, p: Seq<Tile>, q: Seq<Tile>, reverse: bool)
        requires
            self.is_loop_walk(p, reverse),
            self.is_loop_walk(q, reverse),
        ensures
            p == q,
    {
        let lp = p.len() as int;
        let lq = q.len() as int;
        if lp < lq {
            self.lemma_walks_agree(p, q, reverse, lp);
            let i = lp - 1;
            assert(self.next_after(q[i - 1], q[i]) == Some(q[i + 1]));
            assert(q[lp] == q[0]);
        } else if lq < lp {
            self.lemma_walks_agree(q, p, reverse, lq);
            let i = lq - 1;
            assert(self.next_after(p[i - 1], p[i]) == Some(p[i + 1]));
            assert(p[lq] == p[0]);
        } else {
            self.lemma_walks_agree(p, q, reverse, lp);
            assert(p =~= q);
        }
    }

    proof fn lemma_origin(&self, x: int, y: int)
        requires
            self.wf(),
            self.is_origin(x, y),
        ensures
            self.origin_tile() == self.tile_at(x, y),
    {
        let w = self.tile_at(x, y);
        assert(self.is_origin(w.x as int, w.y as int));
        let t = choose|t: Tile| self.is_origin(t.x as int, t.y as int);
        assert(self@[y][x] == 'S');
        assert(self@[t.y as int][t.x as int] == 'S');
    }

    proof fn lemma_walks_agree(&self, p: Seq<Tile>, q: Seq<Tile>, reverse: bool, n: int)
        requires
            self.follows(p, reverse),
            self.follows(q, reverse),
            0 <= n <= p.len(),
            n <= q.len(),
        ensures
            forall|i: int| 0 <= i < n ==> p[i] == q[i],
        decreases n,
    {
        if n > 2 {
            self.lemma_walks_agree(p, q, reverse, n - 1);
            let i = n - 2;
            assert(self.next_after(p[i - 1], p[i]) == Some(p[i + 1]));
            assert(self.next_after(q[i - 1], q[i]) == Some(q[i + 1]));
        }
    }

    /// A walk that stalls, or meets a tile it has already passed other than the
    /// start, is no prefix of the loop: then there is no loop at all.
    proof fn lemma_no_loop(&self, q: Seq<Tile>, reverse: bool)
        requires
            self.follows(q, reverse),
            distinct(q),
            ({
                let nx = self.next_after(q[q.len() - 2], q[q.len() - 1]);
                nx is None || (nx->0 != q[0] && q.contains(nx->0))
            }),
        ensures
            !self.has_loop(reverse),
    {
        if self.has_loop(reverse) {
            let p = choose|p: Seq<Tile>| self.is_loop_walk(p, reverse);
            let m = q.len() as int;
            let lp = p.len() as int;
            if lp < m {
                self.lemma_walks_agree(p, q, reverse, lp);
                let i = lp - 1;
                assert(self.next_after(q[i - 1], q[i]) == Some(q[i + 1]));
                assert(q[lp] == q[0]);
            } else {
                self.lemma_walks_agree(p, q, reverse, m);
                if lp > m {
                    let i = m - 1;
                    assert(self.next_after(p[i - 1], p[i]) == Some(p[i + 1]));
                    let nx = p[m];
                    let j = choose|j: int| 0 <= j < m && q[j] == nx;
                    assert(p[j] == p[m]);
                }
            }
        }
    }

    fn next_tile(&self, prev: &Tile, cur: &Tile) -> (r: Option<Tile>)
        requires
            self.wf(),
            self.in_grid(cur.x as int, cur.y as int),
        ensures
            r == self.next_after(*prev, *cur),
    {
        let c = self.connecting_pipes(cur);
        let mut k: usize = 0;
        assert(c@.subrange(0, c@.len() as int) == c@);
        while k < c.len()
            invariant
                0 <= k <= c@.len(),
                c@ == self.connected_tiles(*cur),
                first_other(c@, *prev) == first_other(c@.subrange(k as int, c@.len() as int), *prev),
            decreases c@.len() - k,
        {
            let t = c[k];
            assert(c@.subrange(k as int, c@.len() as int).drop_first() == c@.subrange(k as int + 1, c@.len() as int));
            if t.x != prev.x || t.y != prev.y {
                return Some(t);
            }
            k = k + 1;
        }
        None
    }

    /// Walks the loop from the start tile, first toward the start's first
    /// connected tile, or toward its second with `reverse`.
    pub fn trace_loop(&self, reverse: bool) -> (r: Result<Vec<Tile>, GridError>)
        requires
            self.wf(),
        ensures
            match r {
                Ok(p) => self.is_loop_walk(p@, reverse),
                Err(e) => self.loop_error(e, reverse),
            },
    {
        let start = self.start_tile();
        proof {
            self.lemma_origin(start.x as int, start.y as int);
        }
        let firsts = self.connecting_pipes(&start);
        if firsts.len() != 2 {
            return Err(GridError::DegenerateOrigin);
        }
        let first = if reverse { firsts[1] } else { firsts[0] };
        proof {
            reveal(Seq::filter);
            assert(self.connected_tiles(start).contains(first));
            self.lemma_connected_in_grid(start, first);
        }
        let mut visited = filled(self.width, self.height, false);
        visited[start.y][start.x] = true;
        visited[first.y][first.x] = true;
        let mut path: Vec<Tile> = Vec::new();
        path.push(start);
        path.push(first);
        assert(path@[1] == first);
        proof {
            assert forall|y: int, x: int| self.in_grid(x, y) implies (#[trigger] visited@[y]@[x] <==> exists|i: int|
                0 <= i < path@.len() && path@[i].x == x && path@[i].y == y) by {
                if visited@[y]@[x] {
                    if x == start.x && y == start.y {
                        assert(path@[0].x == x && path@[0].y == y);
                    } else {
                        assert(path@[1].x == x && path@[1].y == y);
                    }
                }
            }
        }
        loop
            invariant
                self.wf(),
                path@.len() >= 2,
                path@[0] == start,
                start == self.origin_tile(),
                self.follows(path@, reverse),
                distinct(path@),
                forall|i: int|
                    0 <= i < path@.len() ==> self.in_grid(#[trigger] path@[i].x as int, path@[i].y as int)
                        && path@[i] == self.tile_at(path@[i].x as int, path@[i].y as int),
                grid_view(visited@).len() == self@.len(),
                forall|y: int| 0 <= y < self@.len() ==> (#[trigger] visited@[y])@.len() == self@[0].len(),
                forall|y: int, x: int|
                    self.in_grid(x, y) ==> (#[trigger] visited@[y]@[x] <==> exists|i: int|
                        0 <= i < path@.len() && path@[i].x == x && path@[i].y == y),
            decreases count_false(grid_view(visited@)),
        {
            let prev = path[path.len() - 2];
            let cur = path[path.len() - 1];
            match self.next_tile(&prev, &cur) {
                None => {
                    proof {
                        self.lemma_no_loop(path@, reverse);
                    }
                    return Err(GridError::BrokenLoop);
                },
                Some(n) => {
                    proof {
                        self.lemma_next_in_grid(prev, cur);
                    }
                    if n.x == start.x && n.y == start.y {
                        return Ok(path);
                    }
                    if visited[n.y][n.x] {
                        proof {
                            let i = choose|i: int|
                                0 <= i < path@.len() && path@[i].x == n.x && path@[i].y == n.y;
                            assert(path@[i] == n);
                            assert(path@.contains(n));
                            self.lemma_no_loop(path@, reverse);
                        }
                        return Err(GridError::BrokenLoop);
                    }
                    proof {
                        lemma_count_false_update(grid_view(visited@), n.y as int, n.x as int);
                    }
                    let ghost old_path = path@;
                    let ghost old_grid = grid_view(visited@);
                    visited[n.y][n.x] = true;
                    path.push(n);
                    proof {
                        assert forall|y: int, x: int| self.in_grid(x, y) implies (#[trigger] visited@[y]@[x] <==> exists|i: int|
                            0 <= i < path@.len() && path@[i].x == x && path@[i].y == y) by {
                            if x == n.x && y == n.y {
                                assert(path@[path@.len() - 1] == n);
                            } else {
                                assert(visited@[y]@[x] == old_grid[y][x]);
                                if old_grid[y][x] {
                                    let i = choose|i: int| 0 <= i < old_path.len() && old_path[i].x == x && old_path[i].y == y;
                                    assert(path@[i] == old_path[i]);
                                }
                                if exists|i: int| 0 <= i < path@.len() && path@[i].x == x && path@[i].y == y {
                                    let i = choose|i: int| 0 <= i < path@.len() && path@[i].x == x && path@[i].y == y;
                                    assert(i < old_path.len());
                                    assert(old_path[i].x == x && old_path[i].y == y);
                                }
                            }
                        }
                        assert(grid_view(visited@) == old_grid.update(n.y as int, old_grid[n.y as int].update(n.x as int, true)));
                        assert forall|i: int| 1 <= i < path@.len() - 1 implies #[trigger] self.next_after(path@[i - 1], path@[i]) == Some(path@[i + 1]) by {
                            if i < old_path.len() - 1 {
                                assert(self.next_after(old_path[i - 1], old_path[i]) == Some(old_path[i + 1]));
                            }
                        }
                    }
                },
            }
        }
    }

    proof fn lemma_tiles_at_in_grid(&self, ps: Seq<Loc>)
        ensures
            forall|k: int|
                0 <= k < self.tiles_at(ps).len() ==> self.in_grid(
                    #[trigger] self.tiles_at(ps)[k].x as int,
                    self.tiles_at(ps)[k].y as int,
                ) && self.tiles_at(ps)[k] == self.tile_at(
                    self.tiles_at(ps)[k].x as int,
                    self.tiles_at(ps)[k].y as int,
                ),
        decreases ps.len(),
    {
        if ps.len() > 0 {
            self.lemma_tiles_at_in_grid(ps.drop_last());
            let prev = self.tiles_at(ps.drop_last());
            assert forall|k: int| 0 <= k < self.tiles_at(ps).len() implies self.in_grid(
                #[trigger] self.tiles_at(ps)[k].x as int,
                self.tiles_at(ps)[k].y as int,
            ) && self.tiles_at(ps)[k] == self.tile_at(
                self.tiles_at(ps)[k].x as int,
                self.tiles_at(ps)[k].y as int,
            ) by {
                if k < prev.len() {
                    assert(self.tiles_at(ps)[k] == prev[k]);
                }
            }
        }
    }

    proof fn lemma_first_other(s: Seq<Tile>, prev: Tile)
        ensures
            first_other(s, prev) matches Some(t) ==> s.contains(t) && (t.x != prev.x || t.y != prev.y),
        decreases s.len(),
    {
        if s.len() > 0 {
            Self::lemma_first_other(s.drop_first(), prev);
            if let Some(t) = first_other(s, prev) {
                if s[0].x == prev.x && s[0].y == prev.y {
                    let j = choose|j: int| 0 <= j < s.drop_first().len() && s.drop_first()[j] == t;
                    assert(s[j + 1] == t);
                }
            }
        }
    }

    /// Every tile connected to `cur` lies in the grid, next to `cur`.
    proof fn lemma_connected_in_grid(&self, cur: Tile, t: Tile)
        requires
            self.connected_tiles(cur).contains(t),
        ensures
            self.in_grid(t.x as int, t.y as int),
            t == self.tile_at(t.x as int, t.y as int),
            connects(cur, t),
            adj_locs(cur).contains((t.x, t.y)),
    {
        reveal(Seq::filter);
        self.adj_tiles(cur).lemma_filter_contains_rev(|o: Tile| connects(cur, o), t);
        self.lemma_tiles_at_in_grid(adj_locs(cur));
        self.lemma_tiles_at_locs(adj_locs(cur));
    }

    proof fn lemma_tiles_at_locs(&self, ps: Seq<Loc>)
        ensures
            forall|k: int|
                0 <= k < self.tiles_at(ps).len() ==> ps.contains(
                    (#[trigger] self.tiles_at(ps)[k].x, self.tiles_at(ps)[k].y),
                ),
        decreases ps.len(),
    {
        if ps.len() > 0 {
            self.lemma_tiles_at_locs(ps.drop_last());
            assert forall|k: int| 0 <= k < self.tiles_at(ps).len() implies ps.contains(
                (#[trigger] self.tiles_at(ps)[k].x, self.tiles_at(ps)[k].y),
            ) by {
                let prev = self.tiles_at(ps.drop_last());
                if k < prev.len() {
                    let l = (prev[k].x, prev[k].y);
                    assert(ps.drop_last().contains(l));
                    let j = choose|j: int| 0 <= j < ps.drop_last().len() && ps.drop_last()[j] == l;
                    assert(ps[j] == l);
                } else {
                    assert(ps[ps.len() - 1] == ps.last());
                }
            }
        }
    }

    proof fn lemma_next_in_grid(&self, prev: Tile, cur: Tile)
        ensures
            self.next_after(prev, cur) matches Some(t) ==> self.in_grid(t.x as int, t.y as int)
                && t == self.tile_at(t.x as int, t.y as int) && connects(cur, t) && adj_locs(
                cur,
            ).contains((t.x, t.y)) && (t.x != prev.x || t.y != prev.y),
    {
        Self::lemma_first_other(self.connected_tiles(cur), prev);
        if let Some(t) = self.next_after(prev, cur) {
            self.lemma_connected_in_grid(cur, t);
        }
    }


    proof fn lemma_step_adjacent(&self, cur: Tile, t: Tile)
        requires
            self.wf(),
            self.in_grid(cur.x as int, cur.y as int),
            adj_locs(cur).contains((t.x, t.y)),
            connects(cur, t),
        ensures
            adjacent(cur, t),
    {
        let j = choose|j: int| 0 <= j < 4 && adj_locs(cur)[j] == (t.x, t.y);
        assert(adj_locs(cur)[j] == (t.x, t.y));
    }

    /// Consecutive tiles of the loop, the last and the first included, are
    /// orthogonal neighbours in the grid.
    proof fn lemma_loop_in_grid(&self, p: Seq<Tile>, reverse: bool)
        requires
            self.wf(),
            self.is_loop_walk(p, reverse),
        ensures
            forall|i: int|
                0 <= i < p.len() ==> self.in_grid(#[trigger] p[i].x as int, p[i].y as int) && p[i]
                    == self.tile_at(p[i].x as int, p[i].y as int),
    {
        let l = p.len() as int;
        self.lemma_origin_tile();
        assert(self.connected_tiles(p[0]).contains(p[1]));
        self.lemma_connected_in_grid(p[0], p[1]);
        assert forall|i: int| 2 <= i < l implies self.in_grid(#[trigger] p[i].x as int, p[i].y as int)
            && p[i] == self.tile_at(p[i].x as int, p[i].y as int) by {
            let k = i - 1;
            assert(self.next_after(p[k - 1], p[k]) == Some(p[k + 1]));
            self.lemma_next_in_grid(p[k - 1], p[k]);
        }
    }

    /// Consecutive tiles of the loop, the last and the first included, are
    /// orthogonal neighbours in the grid.
    #[verifier::spinoff_prover]
    pub proof fn lemma_loop_adjacent(&self, p: Seq<Tile>, reverse: bool)
        requires
            self.wf(),
            self.is_loop_walk(p, reverse),
        ensures
            all_adjacent(p),
            forall|i: int|
                0 <= i < p.len() ==> self.in_grid(#[trigger] p[i].x as int, p[i].y as int) && p[i]
                    == self.tile_at(p[i].x as int, p[i].y as int),
    {
        let l = p.len() as int;
        self.lemma_loop_in_grid(p, reverse);
        self.lemma_origin_tile();
        assert(self.connected_tiles(p[0]).contains(p[1]));
        self.lemma_connected_in_grid(p[0], p[1]);
        assert forall|i: int| 1 <= i < l implies adjacent(p[i - 1], #[trigger] p[i]) by {
            if i >= 2 {
                let k = i - 1;
                assert(self.in_grid(p[k].x as int, p[k].y as int));
                assert(self.next_after(p[k - 1], p[k]) == Some(p[k + 1]));
                self.lemma_next_in_grid(p[k - 1], p[k]);
                self.lemma_step_adjacent(p[k], p[k + 1]);
            } else {
                self.lemma_step_adjacent(p[0], p[1]);
            }
        }
        self.lemma_next_in_grid(p[l - 2], p[l - 1]);
        if l == 2 {
            assert(false);
        }
        assert(self.in_grid(p[l - 1].x as int, p[l - 1].y as int));
        self.lemma_step_adjacent(p[l - 1], p[0]);
        assert forall|i: int| 0 <= i < p.len() implies #[trigger] adjacent(p[i], p[(i + 1) % (p.len() as int)]) by {
            if i < l - 1 {
                vstd::arithmetic::div_mod::lemma_small_mod((i + 1) as nat, l as nat);
                assert(adjacent(p[i + 1 - 1], p[i + 1]));
            } else {
                vstd::arithmetic::div_mod::lemma_mod_self_0(l);
            }
        }
    }

    proof fn lemma_origin_tile(&self)
        requires
            self.wf(),
        ensures
            self.is_origin(self.origin_tile().x as int, self.origin_tile().y as int),
            self.origin_tile() == self.tile_at(self.origin_tile().x as int, self.origin_tile().y as int),
    {
        let (j, i) = choose|j: int, i: int| 0 <= j < self@.len() && 0 <= i < self@[j].len() && #[trigger] self@[j][i] == 'S';
        let x = self.first_s_in(j, i);
        self.lemma_origin(x.0, x.1);
    }

    /// Some position holds the first `S`, given that `(i, j)` holds one.
    proof fn first_s_in(&self, j: int, i: int) -> (r: (int, int))
        requires
            self.wf(),
            self.in_grid(i, j),
            self@[j][i] == 'S',
        ensures
            self.is_origin(r.0, r.1),
        decreases j * self@[0].len() + i, 
    {
        if exists|b: int, a: int| self.in_grid(a, b) && #[trigger] self@[b][a] == 'S' && (b < j || (b == j && a < i)) {
            let (b, a) = choose|b: int, a: int| self.in_grid(a, b) && #[trigger] self@[b][a] == 'S' && (b < j || (b == j && a < i));
            assert(b * self@[0].len() + a < j * self@[0].len() + i) by (nonlinear_arith)
                requires b < j || (b == j && a < i), 0 <= a < self@[0].len(), 0 <= i < self@[0].len(), 0 <= b;
            self.first_s_in(b, a)
        } else {
            (i, j)
        }
    }


    /// `d` has the grid's shape.
    pub open spec fn same_shape<T>(&self, d: Seq<Seq<T>>) -> bool {
        &&& d.len() == self@.len()
        &&& forall|y: int| 0 <= y < d.len() ==> (#[trigger] d[y]).len() == self@[0].len()
    }

    /// `d` holds, on each tile of the loop `p`, its distance from the start, and nothing elsewhere.
    pub open spec fn is_dist_grid(&self, d: Seq<Seq<Option<usize>>>, p: Seq<Tile>) -> bool {
        &&& self.same_shape(d)
        &&& forall|y: int, x: int|
            self.in_grid(x, y) ==> #[trigger] d[y][x] == dist_value(p, x, y)
    }

    /// `d` holds, on each tile of the loop `p`, its tangent, and nothing elsewhere.
    pub open spec fn is_tangent_grid(&self, d: Seq<Seq<Option<Vect>>>, p: Seq<Tile>) -> bool {
        &&& self.same_shape(d)
        &&& forall|y: int, x: int|
            self.in_grid(x, y) ==> #[trigger] d[y][x] == tangent_value(p, x, y)
    }

    proof fn lemma_loop_index(&self, p: Seq<Tile>, i: int)
        requires
            self.wf(),
            distinct(p),
            0 <= i < p.len(),
            forall|k: int|
                0 <= k < p.len() ==> self.in_grid(#[trigger] p[k].x as int, p[k].y as int) && p[k]
                    == self.tile_at(p[k].x as int, p[k].y as int),
        ensures
            on_loop(p, p[i].x as int, p[i].y as int),
            loop_index(p, p[i].x as int, p[i].y as int) == i,
    {
        let j = loop_index(p, p[i].x as int, p[i].y as int);
        assert(self.in_grid(p[i].x as int, p[i].y as int));
        assert(self.in_grid(p[j].x as int, p[j].y as int));
        assert(p[i] == p[j]);
    }

    /// On each tile of `p`, its place in `p`; nothing elsewhere.
    fn index_grid(&self, p: &Vec<Tile>) -> (r: Vec<Vec<Option<usize>>>)
        requires
            self.wf(),
            distinct(p@),
            forall|k: int|
                0 <= k < p@.len() ==> self.in_grid(#[trigger] p@[k].x as int, p@[k].y as int)
                    && p@[k] == self.tile_at(p@[k].x as int, p@[k].y as int),
        ensures
            self.same_shape(grid_view(r@)),
            forall|y: int, x: int|
                self.in_grid(x, y) ==> (#[trigger] r@[y]@[x] is Some <==> on_loop(p@, x, y)),
            forall|y: int, x: int|
                self.in_grid(x, y) && on_loop(p@, x, y) ==> #[trigger] r@[y]@[x] == Some(
                    loop_index(p@, x, y) as usize,
                ) && 0 <= loop_index(p@, x, y) < p@.len(),
    {
        let mut r: Vec<Vec<Option<usize>>> = filled(self.width, self.height, None);
        let mut k: usize = 0;
        while k < p.len()
            invariant
                self.wf(),
                0 <= k <= p@.len(),
                distinct(p@),
                forall|j: int|
                    0 <= j < p@.len() ==> self.in_grid(#[trigger] p@[j].x as int, p@[j].y as int)
                        && p@[j] == self.tile_at(p@[j].x as int, p@[j].y as int),
                self.same_shape(grid_view(r@)),
                forall|y: int, x: int|
                    self.in_grid(x, y) ==> match #[trigger] grid_view(r@)[y][x] {
                        Some(i) => i < k && p@[i as int].x == x && p@[i as int].y == y,
                        None => forall|j: int| 0 <= j < k ==> !(p@[j].x == x && p@[j].y == y),
                    },
            decreases p@.len() - k,
        {
            let t = p[k];
            assert(self.in_grid(p@[k as int].x as int, p@[k as int].y as int));
            let ghost old_r = grid_view(r@);
            assert(old_r[t.y as int] == r@[t.y as int]@);
            r[t.y][t.x] = Some(k);
            proof {
                assert(grid_view(r@) == old_r.update(t.y as int, old_r[t.y as int].update(t.x as int, Some(k))));
            }
            k = k + 1;
        }
        proof {
            assert forall|y: int, x: int| self.in_grid(x, y) implies (#[trigger] r@[y]@[x] is Some <==> on_loop(p@, x, y)) by {
                assert(grid_view(r@)[y] == r@[y]@);
                if on_loop(p@, x, y) {
                    let j = choose|j: int| 0 <= j < p@.len() && p@[j].x == x && p@[j].y == y;
                    assert(p@[j].x == x && p@[j].y == y);
                }
            }
            assert forall|y: int, x: int| self.in_grid(x, y) && on_loop(p@, x, y) implies #[trigger] r@[y]@[x] == Some(
                loop_index(p@, x, y) as usize) by {
                assert(grid_view(r@)[y] == r@[y]@);
                let i = r@[y]@[x]->0;
                self.lemma_loop_index(p@, i as int);
            }
        }
        r
    }


    /// The traced loop is the loop.
    proof fn lemma_traced(&self, p: Seq<Tile>)
        requires
            self.wf(),
            self.is_loop_walk(p, false),
        ensures
            self.has_loop(false),
            self.the_loop() == p,
            all_adjacent(p),
            forall|k: int|
                0 <= k < p.len() ==> self.in_grid(#[trigger] p[k].x as int, p[k].y as int) && p[k]
                    == self.tile_at(p[k].x as int, p[k].y as int),
    {
        self.lemma_loop_unique(self.the_loop(), p, false);
        self.lemma_loop_adjacent(p, false);
    }

    /// The distance of each loop tile from the start, the shorter way round the loop.
    #[verifier::spinoff_prover]
    #[verifier::rlimit(80)]
    pub fn steps_map(&self) -> (r: Result<Vec<Vec<Option<usize>>>, GridError>)
        requires
            self.wf(),
        ensures
            match r {
                Ok(d) => self.has_loop(false) && self.is_dist_grid(grid_view(d@), self.the_loop())
                    && self.the_loop().len() <= usize::MAX,
                Err(e) => self.loop_error(e, false),
            },
    {
        let p = match self.trace_loop(false) {
            Ok(p) => p,
            Err(e) => {
                return Err(e);
            },
        };
        proof {
            self.lemma_traced(p@);
        }
        let idx = self.index_grid(&p);
        let l = p.len();
        let mut d: Vec<Vec<Option<usize>>> = Vec::new();
        let mut y: usize = 0;
        while y < self.height
            invariant
                self.wf(),
                self.has_loop(false),
                self.the_loop() == p@,
                l == p@.len(),
                self.same_shape(grid_view(idx@)),
                forall|y: int, x: int|
                    self.in_grid(x, y) ==> (#[trigger] idx@[y]@[x] is Some <==> on_loop(p@, x, y)),
                forall|y: int, x: int|
                    self.in_grid(x, y) && on_loop(p@, x, y) ==> #[trigger] idx@[y]@[x] == Some(
                        loop_index(p@, x, y) as usize,
                    ) && 0 <= loop_index(p@, x, y) < p@.len(),
                0 <= y <= self.height,
                d@.len() == y,
                forall|j: int| 0 <= j < y ==> (#[trigger] d@[j])@.len() == self@[0].len(),
                forall|j: int, x: int|
                    0 <= j < y && self.in_grid(x, j) ==> #[trigger] d@[j]@[x] == dist_value(p@, x, j),
            decreases self.height - y,
        {
            assert(grid_view(idx@)[y as int] == idx@[y as int]@);
            let row = dist_row(&idx[y], l, Ghost(p@), Ghost(y as int));
            d.push(row);
            y = y + 1;
        }
        Ok(d)
    }

    /// The tangent of each loop tile.
    #[verifier::spinoff_prover]
    #[verifier::rlimit(80)]
    pub fn direction_map(&self) -> (r: Result<Vec<Vec<Option<Vect>>>, GridError>)
        requires
            self.wf(),
        ensures
            match r {
                Ok(d) => self.has_loop(false) && self.is_tangent_grid(grid_view(d@), self.the_loop())
                    && self.the_loop().len() <= usize::MAX,
                Err(e) => self.loop_error(e, false),
            },
    {
        let p = match self.trace_loop(false) {
            Ok(p) => p,
            Err(e) => {
                return Err(e);
            },
        };
        proof {
            self.lemma_traced(p@);
        }
        let idx = self.index_grid(&p);
        let mut d: Vec<Vec<Option<Vect>>> = Vec::new();
        let mut y: usize = 0;
        while y < self.height
            invariant
                self.wf(),
                self.has_loop(false),
                self.the_loop() == p@,
                all_adjacent(p@),
                self.same_shape(grid_view(idx@)),
                forall|y: int, x: int|
                    self.in_grid(x, y) ==> (#[trigger] idx@[y]@[x] is Some <==> on_loop(p@, x, y)),
                forall|y: int, x: int|
                    self.in_grid(x, y) && on_loop(p@, x, y) ==> #[trigger] idx@[y]@[x] == Some(
                        loop_index(p@, x, y) as usize,
                    ) && 0 <= loop_index(p@, x, y) < p@.len(),
                0 <= y <= self.height,
                d@.len() == y,
                forall|j: int| 0 <= j < y ==> (#[trigger] d@[j])@.len() == self@[0].len(),
                forall|j: int, x: int|
                    0 <= j < y && self.in_grid(x, j) ==> #[trigger] d@[j]@[x] == tangent_value(p@, x, j),
            decreases self.height - y,
        {
            assert(grid_view(idx@)[y as int] == idx@[y as int]@);
            let row = tangent_row(&idx[y], &p, Ghost(y as int));
            d.push(row);
            y = y + 1;
        }
        Ok(d)
    }


    proof fn lemma_the_loop(&self)
        requires
            self.wf(),
            self.has_loop(false),
        ensures
            self.is_loop_walk(self.the_loop(), false),
            all_adjacent(self.the_loop()),
            distinct(self.the_loop()),
            forall|k: int|
                0 <= k < self.the_loop().len() ==> self.in_grid(
                    #[trigger] self.the_loop()[k].x as int,
                    self.the_loop()[k].y as int,
                ) && self.the_loop()[k] == self.tile_at(
                    self.the_loop()[k].x as int,
                    self.the_loop()[k].y as int,
                ),
    {
        self.lemma_loop_adjacent(self.the_loop(), false);
    }

    /// The largest distance from the start: half the loop's length, which is even.
    pub fn furthest_tile(&self) -> (r: Result<usize, GridError>)
        requires
            self.wf(),
        ensures
            match r {
                Ok(n) => self.has_loop(false) && self.the_loop().len() % 2 == 0 && n
                    == self.the_loop().len() / 2,
                Err(e) => self.loop_error(e, false),
            },
    {
        let d = match self.steps_map() {
            Ok(d) => d,
            Err(e) => {
                return Err(e);
            },
        };
        let ghost p = self.the_loop();
        let ghost l = p.len() as int;
        proof {
            self.lemma_the_loop();
            lemma_loop_even(p);
            self.lemma_loop_index(p, l / 2);
        }
        let ghost hx = p[l / 2].x as int;
        let ghost hy = p[l / 2].y as int;
        let mut best: usize = 0;
        let mut y: usize = 0;
        while y < self.height
            invariant
                self.wf(),
                self.is_dist_grid(grid_view(d@), p),
                d@.len() == self.height,
                l == p.len(),
                l <= usize::MAX,
                self.in_grid(hx, hy),
                on_loop(p, hx, hy),
                loop_index(p, hx, hy) == l / 2,
                0 <= y <= self.height,
                best <= l / 2,
                (hy < y) ==> best == l / 2,
            decreases self.height - y,
        {
            assert(grid_view(d@)[y as int] == d@[y as int]@);
            let mut x: usize = 0;
            while x < self.width
                invariant
                    self.wf(),
                    self.is_dist_grid(grid_view(d@), p),
                    d@.len() == self.height,
                    grid_view(d@)[y as int] == d@[y as int]@,
                    l == p.len(),
                    l <= usize::MAX,
                    self.in_grid(hx, hy),
                    on_loop(p, hx, hy),
                    loop_index(p, hx, hy) == l / 2,
                    0 <= y < self.height,
                    0 <= x <= self.width,
                    best <= l / 2,
                    (hy < y || (hy == y && hx < x)) ==> best == l / 2,
                decreases self.width - x,
            {
                assert(grid_view(d@)[y as int][x as int] == d@[y as int]@[x as int]);
                proof {
                    if y == hy && x == hx {
                        assert(loop_dist(l, l / 2) == l / 2);
                        assert(self.in_grid(hx, hy));
                        assert(grid_view(d@)[hy][hx] == Some(loop_dist(l, loop_index(p, hx, hy)) as usize));
                        assert(d@[y as int]@[x as int] == Some((l / 2) as usize));
                    }
                }
                if let Some(v) = d[y][x] {
                    if v > best {
                        best = v;
                    }
                }
                x = x + 1;
            }
            y = y + 1;
        }
        Ok(best)
    }


    /// The least filled cell of `d`, comparing the column first.
    pub open spec fn least_cell(&self, d: Seq<Seq<Option<Vect>>>, x: int, y: int) -> bool {
        &&& self.in_grid(x, y)
        &&& d[y][x] is Some
        &&& forall|i: int, j: int|
            self.in_grid(i, j) && (#[trigger] d[j][i]) is Some ==> i > x || (i == x && j >= y)
    }

    /// Whether the loop whose tangents are `direction_map` turns clockwise:
    /// at its least position it heads right or up.
    pub fn is_clockwise(&self, direction_map: &Vec<Vec<Option<Vect>>>) -> (r: bool)
        requires
            self.wf(),
            self.same_shape(grid_view(direction_map@)),
            exists|x: int, y: int|
                self.in_grid(x, y) && (#[trigger] grid_view(direction_map@)[y][x]) is Some,
        ensures
            exists|x: int, y: int|
                #[trigger] self.least_cell(grid_view(direction_map@), x, y) && r == heads_right_or_up(
                    grid_view(direction_map@)[y][x]->0,
                ),
    {
        let ghost d = grid_view(direction_map@);
        let mut x: usize = 0;
        while x < self.width
            invariant
                self.wf(),
                d == grid_view(direction_map@),
                self.same_shape(d),
                direction_map@.len() == self.height,
                0 <= x <= self.width,
                exists|x: int, y: int| self.in_grid(x, y) && (#[trigger] d[y][x]) is Some,
                forall|i: int, j: int| 0 <= i < x && self.in_grid(i, j) ==> (#[trigger] d[j][i]) is None,
            decreases self.width - x,
        {
            let mut y: usize = 0;
            while y < self.height
                invariant
                    self.wf(),
                    d == grid_view(direction_map@),
                    self.same_shape(d),
                    direction_map@.len() == self.height,
                    0 <= x < self.width,
                    0 <= y <= self.height,
                    forall|i: int, j: int| 0 <= i < x && self.in_grid(i, j) ==> (#[trigger] d[j][i]) is None,
                    forall|j: int| 0 <= j < y ==> (#[trigger] d[j][x as int]) is None,
                decreases self.height - y,
            {
                assert(d[y as int] == direction_map@[y as int]@);
                if let Some(v) = direction_map[y][x] {
                    assert(self.least_cell(d, x as int, y as int));
                    return v.0 > 0 || v.1 < 0;
                }
                y = y + 1;
            }
            x = x + 1;
        }
        proof {
            let (i, j) = choose|i: int, j: int| self.in_grid(i, j) && (#[trigger] d[j][i]) is Some;
            assert(d[j][i] is None);
        }
        false
    }

    /// The first tile at or right of `origin`, in its row, where the loop whose
    /// tangents are `bounds` crosses the row. Tiles the loop passes horizontally
    /// do not count.
    pub fn find_right_boundary(&self, origin: &Tile, bounds: &Vec<Vec<Option<Vect>>>) -> (r: Option<Tile>)
        requires
            self.wf(),
            self.same_shape(grid_view(bounds@)),
            origin.y < self@.len(),
        ensures
            match r {
                Some(t) => {
                    &&& t.y == origin.y
                    &&& origin.x <= t.x
                    &&& self.in_grid(t.x as int, t.y as int)
                    &&& t == self.tile_at(t.x as int, t.y as int)
                    &&& crossing_cell(grid_view(bounds@)[t.y as int][t.x as int])
                    &&& forall|i: int|
                        origin.x <= i < t.x ==> !crossing_cell(#[trigger] grid_view(bounds@)[origin.y as int][i])
                },
                None => forall|i: int|
                    origin.x <= i < self@[0].len() ==> !crossing_cell(#[trigger] grid_view(bounds@)[origin.y as int][i]),
            },
    {
        let ghost d = grid_view(bounds@);
        let y = origin.y;
        assert(d[y as int] == bounds@[y as int]@);
        let row = &bounds[y];
        let mut x = origin.x;
        while x < self.width
            invariant
                self.wf(),
                d == grid_view(bounds@),
                self.same_shape(d),
                y == origin.y,
                y < self@.len(),
                row@ == d[y as int],
                origin.x <= x,
                forall|i: int| origin.x <= i < x ==> !crossing_cell(#[trigger] d[y as int][i]),
            decreases self.width - x,
        {
            if let Some(v) = row[x] {
                if v.1 != 0 {
                    assert(self.rows@[y as int]@ == self@[y as int]);
                    let t = Tile { x, y, kind: self.rows[y][x] };
                    return Some(t);
                }
            }
            x = x + 1;
        }
        None
    }


    /// The tangent grid's cells say what the loop does at each position.
    proof fn lemma_tangent_cell(&self, d: Seq<Seq<Option<Vect>>>, p: Seq<Tile>, x: int, y: int)
        requires
            self.wf(),
            self.is_tangent_grid(d, p),
            all_adjacent(p),
            self.in_grid(x, y),
        ensures
            d[y][x] is Some <==> on_loop(p, x, y),
            crossing_cell(d[y][x]) <==> crosses(p, x, y),
            on_loop(p, x, y) ==> ((d[y][x]->0).1 > 0 <==> tangent_cell(p, x, y).1 > 0),
            on_loop(p, x, y) ==> ((d[y][x]->0).1 < 0 <==> tangent_cell(p, x, y).1 < 0),
            on_loop(p, x, y) ==> (heads_right_or_up(d[y][x]->0) <==> (tangent_cell(p, x, y).0 > 0
                || tangent_cell(p, x, y).1 < 0)),
    {
        if on_loop(p, x, y) {
            lemma_tangent_bounds(p, loop_index(p, x, y));
        }
    }

    proof fn lemma_on_loop_in_grid(&self, p: Seq<Tile>, x: int, y: int)
        requires
            forall|k: int|
                0 <= k < p.len() ==> self.in_grid(#[trigger] p[k].x as int, p[k].y as int),
            on_loop(p, x, y),
        ensures
            self.in_grid(x, y),
    {
        let k = choose|k: int| 0 <= k < p.len() && p[k].x == x && p[k].y == y;
        assert(self.in_grid(p[k].x as int, p[k].y as int));
    }

    /// What `is_clockwise` answers on the loop's tangent grid is `clockwise` of the loop.
    proof fn lemma_clockwise(&self, d: Seq<Seq<Option<Vect>>>, p: Seq<Tile>, x0: int, y0: int)
        requires
            self.wf(),
            self.is_tangent_grid(d, p),
            all_adjacent(p),
            forall|k: int|
                0 <= k < p.len() ==> self.in_grid(#[trigger] p[k].x as int, p[k].y as int),
            self.least_cell(d, x0, y0),
        ensures
            clockwise(p) == heads_right_or_up(d[y0][x0]->0),
    {
        self.lemma_tangent_cell(d, p, x0, y0);
        assert forall|i: int, j: int| #[trigger] on_loop(p, i, j) implies i > x0 || (i == x0 && j >= y0) by {
            self.lemma_on_loop_in_grid(p, i, j);
            self.lemma_tangent_cell(d, p, i, j);
        }
        assert(least_on_loop(p, x0, y0));
        if clockwise(p) {
            let (x1, y1) = choose|x: int, y: int|
                #[trigger] least_on_loop(p, x, y) && (tangent_cell(p, x, y).0 > 0 || tangent_cell(p, x, y).1 < 0);
            self.lemma_on_loop_in_grid(p, x1, y1);
            self.lemma_tangent_cell(d, p, x1, y1);
            assert(x1 == x0 && y1 == y0);
        }
    }

    /// Whether the tile at `(x, y)` is enclosed, or `None` on the loop.
    #[verifier::spinoff_prover]
    fn classify(&self, d: &Vec<Vec<Option<Vect>>>, x: usize, y: usize, cw: bool, p: Ghost<Seq<Tile>>) -> (r: Option<bool>)
        requires
            self.wf(),
            self.is_tangent_grid(grid_view(d@), p@),
            all_adjacent(p@),
            forall|k: int|
                0 <= k < p@.len() ==> self.in_grid(#[trigger] p@[k].x as int, p@[k].y as int),
            cw == clockwise(p@),
            self.in_grid(x as int, y as int),
        ensures
            r == if on_loop(p@, x as int, y as int) {
                None
            } else {
                Some(encloses(p@, x as int, y as int))
            },
    {
        let ghost g = grid_view(d@);
        proof {
            self.lemma_tangent_cell(g, p@, x as int, y as int);
            assert(g[y as int] == d@[y as int]@);
        }
        if d[y][x].is_some() {
            return None;
        }
        assert(self.rows@[y as int]@ == self@[y as int]);
        let origin = Tile { x, y, kind: self.rows[y][x] };
        match self.find_right_boundary(&origin, d) {
            Some(b) => {
                proof {
                    assert(g[b.y as int] == d@[b.y as int]@);
                }
                let v = match d[b.y][b.x] {
                    Some(v) => v,
                    None => (0, 0),
                };
                let inside = if cw {
                    v.1 > 0
                } else {
                    v.1 < 0
                };
                proof {
                    let bx = b.x as int;
                    self.lemma_tangent_cell(g, p@, bx, y as int);
                    assert forall|i: int| x <= i < bx implies !#[trigger] crosses(p@, i, y as int) by {
                        self.lemma_tangent_cell(g, p@, i, y as int);
                    }
                    assert(first_crossing(p@, x as int, y as int, bx));
                    lemma_encloses_at(p@, x as int, y as int, bx);
                }
                Some(inside)
            },
            None => {
                proof {
                    if encloses(p@, x as int, y as int) {
                        let bx2 = choose|bx2: int|
                            #[trigger] first_crossing(p@, x as int, y as int, bx2) && if clockwise(p@) {
                                tangent_cell(p@, bx2, y as int).1 > 0
                            } else {
                                tangent_cell(p@, bx2, y as int).1 < 0
                            };
                        self.lemma_on_loop_in_grid(p@, bx2, y as int);
                        self.lemma_tangent_cell(g, p@, bx2, y as int);
                    }
                }
                Some(false)
            },
        }
    }

    fn loop_clockwise(&self, d: &Vec<Vec<Option<Vect>>>, p: Ghost<Seq<Tile>>) -> (r: bool)
        requires
            self.wf(),
            self.has_loop(false),
            p@ == self.the_loop(),
            self.is_tangent_grid(grid_view(d@), p@),
        ensures
            r == clockwise(p@),
    {
        let ghost g = grid_view(d@);
        proof {
            self.lemma_the_loop();
            self.lemma_loop_index(p@, 0);
            self.lemma_tangent_cell(g, p@, p@[0].x as int, p@[0].y as int);
        }
        let cw = self.is_clockwise(d);
        proof {
            let (x0, y0) = choose|x: int, y: int|
                #[trigger] self.least_cell(g, x, y) && cw == heads_right_or_up(g[y][x]->0);
            self.lemma_clockwise(g, p@, x0, y0);
        }
        cw
    }

    fn enclosed_row(&self, d: &Vec<Vec<Option<Vect>>>, y: usize, cw: bool, p: Ghost<Seq<Tile>>) -> (r: Vec<Option<bool>>)
        requires
            self.wf(),
            self.is_tangent_grid(grid_view(d@), p@),
            all_adjacent(p@),
            forall|k: int|
                0 <= k < p@.len() ==> self.in_grid(#[trigger] p@[k].x as int, p@[k].y as int),
            cw == clockwise(p@),
            y < self@.len(),
        ensures
            r@.len() == self@[0].len(),
            forall|i: int|
                0 <= i < self@[0].len() ==> #[trigger] r@[i] == if on_loop(p@, i, y as int) {
                    None
                } else {
                    Some(encloses(p@, i, y as int))
                },
    {
        let mut row: Vec<Option<bool>> = Vec::new();
        let mut x: usize = 0;
        while x < self.width
            invariant
                self.wf(),
                self.is_tangent_grid(grid_view(d@), p@),
                all_adjacent(p@),
                forall|k: int|
                    0 <= k < p@.len() ==> self.in_grid(#[trigger] p@[k].x as int, p@[k].y as int),
                cw == clockwise(p@),
                y < self@.len(),
                0 <= x <= self.width,
                row@.len() == x,
                forall|i: int|
                    0 <= i < x ==> #[trigger] row@[i] == if on_loop(p@, i, y as int) {
                        None
                    } else {
                        Some(encloses(p@, i, y as int))
                    },
            decreases self.width - x,
        {
            let c = self.classify(d, x, y, cw, p);
            row.push(c);
            x = x + 1;
        }
        row
    }

    /// For each tile off the loop, whether the loop encloses it; nothing on the loop.
    #[verifier::spinoff_prover]
    pub fn enclosed_map(&self) -> (r: Result<Vec<Vec<Option<bool>>>, GridError>)
        requires
            self.wf(),
        ensures
            match r {
                Ok(e) => self.has_loop(false) && self.is_enclosure_grid(grid_view(e@), self.the_loop()),
                Err(e) => self.loop_error(e, false),
            },
    {
        let d = match self.direction_map() {
            Ok(d) => d,
            Err(e) => {
                return Err(e);
            },
        };
        let ghost p = self.the_loop();
        let ghost g = grid_view(d@);
        proof {
            self.lemma_the_loop();
        }
        let cw = self.loop_clockwise(&d, Ghost(p));
        let mut e: Vec<Vec<Option<bool>>> = Vec::new();
        let mut y: usize = 0;
        while y < self.height
            invariant
                self.wf(),
                self.is_tangent_grid(g, p),
                g == grid_view(d@),
                all_adjacent(p),
                forall|k: int|
                    0 <= k < p.len() ==> self.in_grid(#[trigger] p[k].x as int, p[k].y as int),
                cw == clockwise(p),
                0 <= y <= self.height,
                e@.len() == y,
                forall|j: int| 0 <= j < y ==> (#[trigger] e@[j])@.len() == self@[0].len(),
                forall|j: int, x: int|
                    0 <= j < y && self.in_grid(x, j) ==> #[trigger] e@[j]@[x] == if on_loop(p, x, j) {
                        None
                    } else {
                        Some(encloses(p, x, j))
                    },
            decreases self.height - y,
        {
            let row = self.enclosed_row(&d, y, cw, Ghost(p));
            e.push(row);
            y = y + 1;
        }
        Ok(e)
    }


    /// How many tiles the loop encloses.
    pub fn enclosed_tiles(&self) -> (r: Result<usize, GridError>)
        requires
            self.wf(),
            self@.len() * self@[0].len() <= usize::MAX,
        ensures
            match r {
                Ok(n) => self.has_loop(false) && n == enclosed_in_rows(
                    self.the_loop(),
                    self@[0].len() as int,
                    self@.len() as int,
                ),
                Err(e) => self.loop_error(e, false),
            },
    {
        let e = match self.enclosed_map() {
            Ok(e) => e,
            Err(err) => {
                return Err(err);
            },
        };
        let ghost p = self.the_loop();
        let ghost w = self.width as int;
        let mut count: usize = 0;
        let mut y: usize = 0;
        while y < self.height
            invariant
                self.wf(),
                self.same_shape(grid_view(e@)),
                e@.len() == self.height,
                w == self@[0].len(),
                self@.len() * self@[0].len() <= usize::MAX,
                forall|y: int, x: int|
                    self.in_grid(x, y) ==> #[trigger] grid_view(e@)[y][x] == if on_loop(p, x, y) {
                        None
                    } else {
                        Some(encloses(p, x, y))
                    },
                0 <= y <= self.height,
                count == enclosed_in_rows(p, w, y as int),
            decreases self.height - y,
        {
            assert(grid_view(e@)[y as int] == e@[y as int]@);
            let row = &e[y];
            proof {
                lemma_enclosed_in_rows_bound(p, w, y as int);
            }
            let mut x: usize = 0;
            while x < self.width
                invariant
                    self.wf(),
                    row@ == grid_view(e@)[y as int],
                    row@.len() == self.width,
                    w == self@[0].len(),
                    self@.len() * self@[0].len() <= usize::MAX,
                    forall|y: int, x: int|
                        self.in_grid(x, y) ==> #[trigger] grid_view(e@)[y][x] == if on_loop(p, x, y) {
                            None
                        } else {
                            Some(encloses(p, x, y))
                        },
                    0 <= y < self.height,
                    0 <= x <= self.width,
                    enclosed_in_rows(p, w, y as int) <= y * w,
                    count == enclosed_in_rows(p, w, y as int) + enclosed_in_row(p, y as int, x as int),
                decreases self.width - x,
            {
                proof {
                    lemma_enclosed_in_row_bound(p, y as int, x as int);
                    let h = self@.len() as int;
                    assert(y * w + x + 1 <= h * w) by (nonlinear_arith)
                        requires
                            0 <= y < h,
                            0 <= x < w,
                    ;
                }
                if row[x] == Some(true) {
                    count = count + 1;
                }
                x = x + 1;
            }
            y = y + 1;
        }
        Ok(count)
    }


    proof fn lemma_tiles_at_view(&self, other: &PipeMap, ps: Seq<Loc>)
        requires
            self@ == other@,
        ensures
            self.tiles_at(ps) == other.tiles_at(ps),
        decreases ps.len(),
    {
        if ps.len() > 0 {
            self.lemma_tiles_at_view(other, ps.drop_last());
        }
    }

    /// Everything the pipeline computes depends on the grid alone: two maps
    /// of one grid have the same loop, and so the same distances, tangents and
    /// enclosed tiles. Running the pipeline again on the same text gives the
    /// same maps.
    pub proof fn lemma_same_grid_same_loop(&self, other: &PipeMap)
        requires
            self.wf(),
            other.wf(),
            self@ == other@,
        ensures
            self.has_loop(false) == other.has_loop(false),
            self.origin_tile() == other.origin_tile(),
            self.has_loop(false) ==> self.the_loop() == other.the_loop(),
    {
        assert forall|t: Tile| #[trigger] self.connected_tiles(t) == other.connected_tiles(t) by {
            self.lemma_tiles_at_view(other, adj_locs(t));
        }
        assert forall|a: Tile, b: Tile| #[trigger] self.next_after(a, b) == other.next_after(a, b) by {
            assert(self.connected_tiles(b) == other.connected_tiles(b));
        }
        self.lemma_origin_tile();
        other.lemma_origin_tile();
        let o = self.origin_tile();
        other.lemma_origin(o.x as int, o.y as int);
        assert(self.origin_tile() == other.origin_tile());
        assert forall|p: Seq<Tile>| #[trigger] self.is_loop_walk(p, false) == other.is_loop_walk(p, false) by {
            if p.len() >= 2 {
                assert(self.origin_tile() == other.origin_tile());
                assert(self.connected_tiles(p[0]) == other.connected_tiles(p[0]));
                assert(self.next_after(p[p.len() - 2], p[p.len() - 1]) == other.next_after(
                    p[p.len() - 2],
                    p[p.len() - 1],
                ));
                if self.follows(p, false) {
                    assert forall|i: int| 1 <= i < p.len() - 1 implies #[trigger] other.next_after(p[i - 1], p[i])
                        == Some(p[i + 1]) by {
                        assert(self.next_after(p[i - 1], p[i]) == Some(p[i + 1]));
                        assert(self.next_after(p[i - 1], p[i]) == other.next_after(p[i - 1], p[i]));
                    }
                }
                if other.follows(p, false) {
                    assert forall|i: int| 1 <= i < p.len() - 1 implies #[trigger] self.next_after(p[i - 1], p[i])
                        == Some(p[i + 1]) by {
                        assert(other.next_after(p[i - 1], p[i]) == Some(p[i + 1]));
                        assert(self.next_after(p[i - 1], p[i]) == other.next_after(p[i - 1], p[i]));
                    }
                }
                assert(self.follows(p, false) == other.follows(p, false));
            }
        }
        if self.has_loop(false) {
            let p = self.the_loop();
            assert(other.is_loop_walk(p, false));
            other.lemma_loop_unique(other.the_loop(), p, false);
        }
        if other.has_loop(false) {
            let q = other.the_loop();
            assert(self.is_loop_walk(q, false));
        }
    }

    /// The distance grid of a loop is unique: two grids that both hold the
    /// loop's distances are equal.
    pub proof fn lemma_dist_grid_unique(&self, d1: Seq<Seq<Option<usize>>>, d2: Seq<Seq<Option<usize>>>, p: Seq<Tile>)
        requires
            self.wf(),
            self.is_dist_grid(d1, p),
            self.is_dist_grid(d2, p),
        ensures
            d1 == d2,
    {
        assert forall|y: int| 0 <= y < d1.len() implies #[trigger] d1[y] == d2[y] by {
            assert forall|x: int| 0 <= x < d1[y].len() implies #[trigger] d1[y][x] == d2[y][x] by {
                assert(self.in_grid(x, y));
            }
            assert(d1[y] =~= d2[y]);
        }
        assert(d1 =~= d2);
    }


    /// `e` marks each tile off the loop `p` enclosed or not, and the loop's
    /// own tiles not at all.
    pub open spec fn is_enclosure_grid(&self, e: Seq<Seq<Option<bool>>>, p: Seq<Tile>) -> bool {
        &&& self.same_shape(e)
        &&& forall|y: int, x: int|
            self.in_grid(x, y) ==> #[trigger] e[y][x] == if on_loop(p, x, y) {
                None
            } else {
                Some(encloses(p, x, y))
            }
    }

    /// Running the pipeline twice on one grid gives the same distance map and
    /// the same enclosure map.
    pub proof fn lemma_pipeline_idempotent(
        &self,
        other: &PipeMap,
        d1: Seq<Seq<Option<usize>>>,
        d2: Seq<Seq<Option<usize>>>,
        e1: Seq<Seq<Option<bool>>>,
        e2: Seq<Seq<Option<bool>>>,
    )
        requires
            self.wf(),
            other.wf(),
            self@ == other@,
            self.has_loop(false),
            self.is_dist_grid(d1, self.the_loop()),
            other.is_dist_grid(d2, other.the_loop()),
            self.is_enclosure_grid(e1, self.the_loop()),
            other.is_enclosure_grid(e2, other.the_loop()),
        ensures
            d1 == d2,
            e1 == e2,
    {
        self.lemma_same_grid_same_loop(other);
        let p = self.the_loop();
        assert(self.is_dist_grid(d2, p));
        self.lemma_dist_grid_unique(d1, d2, p);
        assert forall|y: int| 0 <= y < e1.len() implies #[trigger] e1[y] == e2[y] by {
            assert forall|x: int| 0 <= x < e1[y].len() implies #[trigger] e1[y][x] == e2[y][x] by {
                assert(self.in_grid(x, y));
                assert(other.in_grid(x, y));
            }
            assert(e1[y] =~= e2[y]);
        }
        assert(e1 =~= e2);
    }


    /// The grid holds a single `S`.
    pub open spec fn one_origin(&self) -> bool {
        forall|x: int, y: int| self.in_grid(x, y) && #[trigger] self@[y][x] == 'S' ==> self.is_origin(x, y)
    }

    proof fn lemma_tiles_at_contains(&self, ps: Seq<Loc>, k: int)
        requires
            0 <= k < ps.len(),
            self.in_grid(ps[k].0 as int, ps[k].1 as int),
        ensures
            self.tiles_at(ps).contains(self.tile_at(ps[k].0 as int, ps[k].1 as int)),
        decreases ps.len(),
    {
        let t = self.tile_at(ps[k].0 as int, ps[k].1 as int);
        if k == ps.len() - 1 {
            assert(self.tiles_at(ps).last() == t);
        } else {
            self.lemma_tiles_at_contains(ps.drop_last(), k);
            let prev = self.tiles_at(ps.drop_last());
            let j = choose|j: int| 0 <= j < prev.len() && prev[j] == t;
            assert(self.tiles_at(ps)[j] == t);
        }
    }

    /// A neighbour that `cur` connects to is among its connected tiles.
    proof fn lemma_connected_contains(&self, cur: Tile, t: Tile)
        requires
            self.wf(),
            self.in_grid(cur.x as int, cur.y as int),
            self.in_grid(t.x as int, t.y as int),
            t == self.tile_at(t.x as int, t.y as int),
            adjacent(cur, t),
            connects(cur, t),
        ensures
            self.connected_tiles(cur).contains(t),
    {
        let ls = adj_locs(cur);
        let k: int = if t.x == cur.x && t.y + 1 == cur.y {
            0
        } else if t.x == cur.x && t.y == cur.y + 1 {
            1
        } else if t.y == cur.y && t.x + 1 == cur.x {
            2
        } else {
            3
        };
        assert(ls[k] == (t.x, t.y));
        self.lemma_tiles_at_contains(ls, k);
        let adj = self.adj_tiles(cur);
        let i = choose|i: int| 0 <= i < adj.len() && adj[i] == t;
        adj.lemma_filter_contains(|o: Tile| connects(cur, o), i);
    }

    /// A tile that is not the start connects only in its two open directions.
    proof fn lemma_connected_direction(&self, cur: Tile, t: Tile)
        requires
            self.wf(),
            self.in_grid(cur.x as int, cur.y as int),
            cur.kind != 'S',
            self.connected_tiles(cur).contains(t),
        ensures
            in_open_direction(cur, t),
    {
        self.lemma_connected_in_grid(cur, t);
        let j = choose|j: int| 0 <= j < 4 && adj_locs(cur)[j] == (t.x, t.y);
        assert(adj_locs(cur)[j] == (t.x, t.y));
    }


    /// Tiles of the loop other than the first are not the start.
    proof fn lemma_not_origin(&self, p: Seq<Tile>, j: int)
        requires
            self.wf(),
            self.one_origin(),
            self.is_loop_walk(p, false),
            1 <= j < p.len(),
        ensures
            p[j].kind != 'S',
    {
        self.lemma_loop_in_grid(p, false);
        self.lemma_origin_tile();
        let cur = p[j];
        if cur.kind == 'S' {
            assert(self.in_grid(cur.x as int, cur.y as int));
            assert(self@[cur.y as int][cur.x as int] == 'S');
            self.lemma_origin(cur.x as int, cur.y as int);
            assert(p[j] == p[0]);
        }
    }

    /// Each tile of the loop is connected to the tiles before and after it.
    #[verifier::spinoff_prover]
    #[verifier::rlimit(100)]
    proof fn lemma_loop_links(&self, p: Seq<Tile>, j: int)
        requires
            self.wf(),
            self.is_loop_walk(p, false),
            1 <= j < p.len(),
        ensures
            self.connected_tiles(p[j]).contains(p[(j + 1) % (p.len() as int)]),
            self.connected_tiles(p[j]).contains(p[j - 1]),
    {
        let l = p.len() as int;
        self.lemma_loop_adjacent(p, false);
        let cur = p[j];
        let pv = p[j - 1];
        if j < l - 1 {
            vstd::arithmetic::div_mod::lemma_small_mod((j + 1) as nat, l as nat);
            assert(self.next_after(p[j - 1], p[j]) == Some(p[j + 1]));
        } else {
            vstd::arithmetic::div_mod::lemma_mod_self_0(l);
        }
        Self::lemma_first_other(self.connected_tiles(cur), pv);
        if j == 1 {
            assert(self.connected_tiles(p[0]).contains(p[1]));
        } else {
            let k = j - 1;
            assert(self.next_after(p[k - 1], p[k]) == Some(p[k + 1]));
            Self::lemma_first_other(self.connected_tiles(pv), p[k - 1]);
        }
        assert(self.connected_tiles(pv).contains(cur));
        self.lemma_connected_in_grid(pv, cur);
        lemma_connects_symmetric(pv, cur);
        vstd::arithmetic::div_mod::lemma_small_mod(j as nat, l as nat);
        assert(adjacent(p[j - 1], p[(j - 1 + 1) % l]));
        self.lemma_connected_contains(cur, pv);
    }

    /// A tile other than the start connected to `pv` and `nx`, at two places,
    /// leads from `nx` to `pv`.
    #[verifier::spinoff_prover]
    proof fn lemma_two_places(&self, cur: Tile, pv: Tile, nx: Tile)
        requires
            self.wf(),
            self.in_grid(cur.x as int, cur.y as int),
            cur == self.tile_at(cur.x as int, cur.y as int),
            cur.kind != 'S',
            self.connected_tiles(cur).contains(pv),
            self.connected_tiles(cur).contains(nx),
            pv.x != nx.x || pv.y != nx.y,
        ensures
            self.next_after(nx, cur) == Some(pv),
    {
        self.lemma_connected_direction(cur, pv);
        self.lemma_connected_direction(cur, nx);
        self.lemma_connected_in_grid(cur, pv);
        let c = self.connected_tiles(cur);
        assert(is_symbol(cur.kind));
        assert forall|i: int| 0 <= i < c.len() implies (c[i].x == pv.x && c[i].y == pv.y) || (c[i].x == nx.x
            && c[i].y == nx.y) by {
            assert(c.contains(c[i]));
            self.lemma_connected_direction(cur, c[i]);
        }
        assert forall|i: int| 0 <= i < c.len() && c[i].x == pv.x && c[i].y == pv.y implies c[i] == pv by {
            assert(c.contains(c[i]));
            self.lemma_connected_in_grid(cur, c[i]);
        }
        lemma_first_other_two(c, pv, nx);
    }

    /// Inside the loop, stepping back from tile `j`, having come from the
    /// tile after it, leads to the tile before it.
    #[verifier::spinoff_prover]
    #[verifier::rlimit(100)]
    proof fn lemma_step_back(&self, p: Seq<Tile>, j: int)
        requires
            self.wf(),
            self.one_origin(),
            self.is_loop_walk(p, false),
            1 <= j < p.len(),
        ensures
            self.next_after(p[(j + 1) % (p.len() as int)], p[j]) == Some(p[j - 1]),
    {
        let l = p.len() as int;
        self.lemma_loop_adjacent(p, false);
        self.lemma_not_origin(p, j);
        self.lemma_loop_links(p, j);
        vstd::arithmetic::div_mod::lemma_mod_bound(j + 1, l);
        let n = (j + 1) % l;
        assert(n != j - 1) by {
            if j < l - 1 {
                vstd::arithmetic::div_mod::lemma_small_mod((j + 1) as nat, l as nat);
            } else {
                vstd::arithmetic::div_mod::lemma_mod_self_0(l);
            }
        }
        assert(p[j - 1] != p[n]);
        assert(self.in_grid(p[n].x as int, p[n].y as int));
        assert(self.in_grid(p[j - 1].x as int, p[j - 1].y as int));
        self.lemma_two_places(p[j], p[j - 1], p[n]);
    }


    /// Walking from the start's other connected tile retraces the loop backwards.
    #[verifier::spinoff_prover]
    #[verifier::rlimit(100)]
    pub proof fn lemma_reverse_walk(&self, p: Seq<Tile>)
        requires
            self.wf(),
            self.one_origin(),
            self.is_loop_walk(p, false),
        ensures
            self.is_loop_walk(reversed_loop(p), true),
    {
        let l = p.len() as int;
        let q = reversed_loop(p);
        self.lemma_loop_adjacent(p, false);
        // the first step goes to the start's second connected tile
        self.lemma_loop_links(p, l - 1);
        vstd::arithmetic::div_mod::lemma_mod_self_0(l);
        assert(self.connected_tiles(p[l - 1]).contains(p[0]));
        self.lemma_connected_in_grid(p[l - 1], p[0]);
        lemma_connects_symmetric(p[l - 1], p[0]);
        assert(adjacent(p[l - 1], p[(l - 1 + 1) % l]));
        self.lemma_origin_tile();
        self.lemma_connected_contains(p[0], p[l - 1]);
        let c = self.connected_tiles(p[0]);
        let k = choose|k: int| 0 <= k < c.len() && c[k] == p[l - 1];
        assert(p[1] != p[l - 1]);
        assert(k == 1);
        assert(q[1] == c[1]);
        // every later step goes back along the loop
        assert forall|i: int| 1 <= i < q.len() - 1 implies #[trigger] self.next_after(q[i - 1], q[i]) == Some(
            q[i + 1],
        ) by {
            let j = l - i;
            self.lemma_step_back(p, j);
            if i == 1 {
                assert(q[i - 1] == p[(j + 1) % l]);
            } else {
                vstd::arithmetic::div_mod::lemma_small_mod((j + 1) as nat, l as nat);
                assert(q[i - 1] == p[(j + 1) % l]);
            }
        }
        // and the last step comes back to the start
        self.lemma_step_back(p, 1);
        vstd::arithmetic::div_mod::lemma_small_mod(2, l as nat);
        assert(q[l - 2] == p[2]);
        assert(q[l - 1] == p[1]);
        assert forall|i: int, j: int| 0 <= i < j < p.len() implies p[i].x != p[j].x || p[i].y != p[j].y by {
            assert(p[i] != p[j]);
        }
        lemma_reversal_keeps_tiles_and_distances(p);
    }


    /// Tracing the loop from the start toward either of its two connected
    /// tiles passes the same tiles, each at the same distance from the start:
    /// the walk toward the second is the loop reversed, and the distance grid
    /// is the same either way.
    pub proof fn lemma_trace_either_way(&self)
        requires
            self.wf(),
            self.one_origin(),
            self.has_loop(false),
        ensures
            self.has_loop(true),
            forall|q: Seq<Tile>| #[trigger] self.is_loop_walk(q, true) ==> q == reversed_loop(self.the_loop()),
            forall|x: int, y: int|
                #[trigger] on_loop(reversed_loop(self.the_loop()), x, y) == on_loop(self.the_loop(), x, y),
            forall|x: int, y: int|
                #[trigger] dist_value(reversed_loop(self.the_loop()), x, y) == dist_value(self.the_loop(), x, y),
    {
        let p = self.the_loop();
        let r = reversed_loop(p);
        self.lemma_the_loop();
        self.lemma_reverse_walk(p);
        assert forall|q: Seq<Tile>| #[trigger] self.is_loop_walk(q, true) implies q == r by {
            self.lemma_loop_unique(q, r, true);
        }
        assert forall|i: int, j: int| 0 <= i < j < p.len() implies p[i].x != p[j].x || p[i].y != p[j].y by {
            assert(p[i] != p[j]);
        }
        lemma_reversal_keeps_tiles_and_distances(p);
        assert forall|x: int, y: int| #[trigger] dist_value(r, x, y) == dist_value(p, x, y) by {
            assert(on_loop(r, x, y) == on_loop(p, x, y));
        }
    }


    /// Tracing the loop the other way turns the other way round: the
    /// orientation found at the least position flips.
    pub proof fn lemma_reverse_flips_orientation(&self)
        requires
            self.wf(),
            self.one_origin(),
            self.has_loop(false),
        ensures
            clockwise(reversed_loop(self.the_loop())) == !clockwise(self.the_loop()),
    {
        let p = self.the_loop();
        let r = reversed_loop(p);
        let l = p.len() as int;
        self.lemma_the_loop();
        self.lemma_reverse_walk(p);
        self.lemma_loop_adjacent(r, true);
        assert forall|i: int, j: int| 0 <= i < j < p.len() implies p[i].x != p[j].x || p[i].y != p[j].y by {
            assert(p[i] != p[j]);
        }
        lemma_reversal_keeps_tiles_and_distances(p);
        // the least position of the loop
        let (x0, y0) = self.least_position(p);
        assert forall|i: int, j: int| #[trigger] on_loop(r, i, j) implies i > x0 || (i == x0 && j >= y0) by {
            assert(on_loop(p, i, j));
        }
        assert(least_on_loop(r, x0, y0));
        lemma_least_corner(p, x0, y0);
        let i = loop_index(p, x0, y0);
        lemma_reverse_tangent(p, i);
        let j = if i == 0 { 0 } else { l - i };
        self.lemma_loop_index(r, j);
        assert(loop_index(r, x0, y0) == j);
        let t = tangent_cell(p, x0, y0);
        assert(tangent_cell(r, x0, y0) == (-t.0, -t.1));
        if clockwise(p) {
            let (x1, y1) = choose|x: int, y: int|
                #[trigger] least_on_loop(p, x, y) && (tangent_cell(p, x, y).0 > 0 || tangent_cell(p, x, y).1 < 0);
            assert(x1 == x0 && y1 == y0);
        } else {
            assert(!(t.0 > 0 || t.1 < 0)) by {
                if t.0 > 0 || t.1 < 0 {
                    assert(least_on_loop(p, x0, y0));
                }
            }
        }
        if clockwise(r) {
            let (x1, y1) = choose|x: int, y: int|
                #[trigger] least_on_loop(r, x, y) && (tangent_cell(r, x, y).0 > 0 || tangent_cell(r, x, y).1 < 0);
            assert(x1 == x0 && y1 == y0);
        } else {
            assert(!(-t.0 > 0 || -t.1 < 0)) by {
                if -t.0 > 0 || -t.1 < 0 {
                    assert(least_on_loop(r, x0, y0));
                }
            }
        }
    }

    /// The loop has a least position, comparing the column first.
    proof fn least_position(&self, p: Seq<Tile>) -> (r: (int, int))
        requires
            self.wf(),
            p.len() >= 1,
            forall|k: int|
                0 <= k < p.len() ==> self.in_grid(#[trigger] p[k].x as int, p[k].y as int),
        ensures
            least_on_loop(p, r.0, r.1),
    {
        self.least_from(p, p[0].x as int, p[0].y as int)
    }

    proof fn least_from(&self, p: Seq<Tile>, x: int, y: int) -> (r: (int, int))
        requires
            self.wf(),
            on_loop(p, x, y),
            forall|k: int|
                0 <= k < p.len() ==> self.in_grid(#[trigger] p[k].x as int, p[k].y as int),
        ensures
            least_on_loop(p, r.0, r.1),
        decreases x * self@.len() + y,
    {
        self.lemma_on_loop_in_grid(p, x, y);
        if exists|i: int, j: int| #[trigger] on_loop(p, i, j) && (i < x || (i == x && j < y)) {
            let (i, j) = choose|i: int, j: int| #[trigger] on_loop(p, i, j) && (i < x || (i == x && j < y));
            self.lemma_on_loop_in_grid(p, i, j);
            let h = self@.len() as int;
            assert(i * h + j < x * h + y) by (nonlinear_arith)
                requires
                    i < x || (i == x && j < y),
                    0 <= j < h,
                    0 <= y < h,
                    0 <= i,
            ;
            self.least_from(p, i, j)
        } else {
            (x, y)
        }
    }


    /// The loop has an even number of tiles, and the largest distance in its
    /// distance grid is half that number: no tile is further from the start,
    /// and the tile halfway round is that far.
    pub proof fn lemma_distance_max(&self, d: Seq<Seq<Option<usize>>>)
        requires
            self.wf(),
            self.has_loop(false),
            self.is_dist_grid(d, self.the_loop()),
            self.the_loop().len() <= usize::MAX,
        ensures
            self.the_loop().len() % 2 == 0,
            forall|y: int, x: int|
                self.in_grid(x, y) && d[y][x] is Some ==> (#[trigger] d[y][x])->0 <= self.the_loop().len() / 2,
            exists|y: int, x: int|
                self.in_grid(x, y) && #[trigger] d[y][x] == Some((self.the_loop().len() / 2) as usize),
    {
        let p = self.the_loop();
        let l = p.len() as int;
        self.lemma_the_loop();
        lemma_loop_even(p);
        assert forall|y: int, x: int| self.in_grid(x, y) && d[y][x] is Some implies (#[trigger] d[y][x])->0 <= l / 2 by {
            assert(on_loop(p, x, y));
            let i = loop_index(p, x, y);
            assert(0 <= i < l);
        }
        self.lemma_loop_index(p, l / 2);
        let hx = p[l / 2].x as int;
        let hy = p[l / 2].y as int;
        assert(self.in_grid(hx, hy));
        assert(d[hy][hx] == Some((l / 2) as usize));
    }

}

} // verus!
