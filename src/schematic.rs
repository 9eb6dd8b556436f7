//! An engine schematic: numbers and symbols placed in a grid, and the gears
//! (`*` symbols) next to exactly two numbers.
use vstd::prelude::*;
use crate::text::{chars_of, lines_of, split_lines, parse_u64, is_digit, all_digits, decimal};

verus! {

#[derive(Clone, Copy, Debug, PartialEq, Eq, Structural)]
pub enum PartKind {
    Number(u16),
    Symbol(char),
}

#[derive(Clone, Copy, Debug, PartialEq, Eq, Structural)]
pub struct Part {
    pub x: usize,
    pub y: usize,
    pub kind: PartKind,
}

/// The decimal digits of `n`.
pub open spec fn digit_count(n: int) -> int
    decreases n,
{
    if n < 10 {
        1
    } else {
        1 + digit_count(n / 10)
    }
}

/// The column of a part's last character.
pub open spec fn right_of(p: Part) -> int {
    match p.kind {
        PartKind::Number(n) => p.x + digit_count(n as int) - 1,
        PartKind::Symbol(_) => p.x as int,
    }
}

pub open spec fn sat_dec(v: int) -> int {
    if v > 0 {
        v - 1
    } else {
        0
    }
}

/// `q` lies within one row of `p` and its characters reach to within one
/// column of `p`'s.
pub open spec fn neighbours(p: Part, q: Part) -> bool {
    &&& sat_dec(p.y as int) <= q.y <= p.y + 1
    &&& sat_dec(p.x as int) <= right_of(q)
    &&& q.x <= right_of(p) + 1
}

/// A part whose columns, and the column after, fit in a `usize`.
pub open spec fn part_fits(p: Part) -> bool {
    p.x + 6 <= usize::MAX && p.y + 1 <= usize::MAX
}

proof fn lemma_digit_count_pos(n: int)
    ensures
        digit_count(n) >= 1,
    decreases n,
{
    if n >= 10 {
        lemma_digit_count_pos(n / 10);
    }
}

proof fn lemma_digit_count_u16(n: int)
    requires
        0 <= n <= 65535,
    ensures
        1 <= digit_count(n) <= 5,
{
    reveal_with_fuel(digit_count, 6);
}

impl Part {
    /// Whether the two parts stand at the same place.
    pub fn eq(&self, other: &Self) -> (r: bool)
        ensures
            r == (self.x == other.x && self.y == other.y),
    {
        self.x == other.x && self.y == other.y
    }

    pub fn x_right(&self) -> (r: usize)
        requires
            part_fits(*self),
        ensures
            r == right_of(*self),
            self.x <= r <= self.x + 4,
    {
        match self.kind {
            PartKind::Number(num) => {
                proof {
                    lemma_digit_count_u16(num as int);
                }
                let mut digits: usize = 1;
                let mut rest = num;
                while rest >= 10
                    invariant
                        1 <= digits <= 5,
                        digits - 1 + digit_count(rest as int) == digit_count(num as int),
                        digit_count(num as int) <= 5,
                    decreases rest,
                {
                    proof {
                        lemma_digit_count_pos(rest as int / 10);
                    }
                    rest = rest / 10;
                    digits = digits + 1;
                }
                self.x + digits - 1
            },
            PartKind::Symbol(_) => self.x,
        }
    }

    pub fn is_neighbour(&self, part: &Self) -> (r: bool)
        requires
            part_fits(*self),
            part_fits(*part),
        ensures
            r == neighbours(*self, *part),
    {
        if part.y < self.y.saturating_sub(1) || part.y > self.y + 1 {
            return false;
        }
        if part.x_right() < self.x.saturating_sub(1) || part.x > self.x_right() + 1 {
            return false;
        }
        true
    }
}

pub struct Schematic {
    pub parts: Vec<Part>,
}

/// The parts of `ps` other than `origin`'s place that neighbour it, in order.
pub open spec fn neighbours_of(ps: Seq<Part>, origin: Part) -> Seq<Part> {
    ps.filter(|q: Part| !(q.x == origin.x && q.y == origin.y) && neighbours(origin, q))
}

/// The numbers among `ps`, in order.
pub open spec fn numbers_of(ps: Seq<Part>) -> Seq<int>
    decreases ps.len(),
{
    if ps.len() == 0 {
        Seq::empty()
    } else {
        let prev = numbers_of(ps.drop_last());
        match ps.last().kind {
            PartKind::Number(n) => prev.push(n as int),
            PartKind::Symbol(_) => prev,
        }
    }
}

/// A gear's ratio: the product of its two neighbouring numbers, or 0 unless
/// there are exactly two.
pub open spec fn gear_ratio(ps: Seq<Part>, p: Part) -> int {
    let ns = numbers_of(neighbours_of(ps, p));
    if p.kind == PartKind::Symbol('*') && ns.len() == 2 {
        ns[0] * ns[1]
    } else {
        0
    }
}

/// The gear ratios of the first `k` parts, added up.
pub open spec fn ratio_total(ps: Seq<Part>, k: int) -> int
    decreases k,
{
    if k <= 0 || k > ps.len() {
        0
    } else {
        ratio_total(ps, k - 1) + gear_ratio(ps, ps[k - 1])
    }
}

proof fn lemma_ratio_nonneg(ps: Seq<Part>, p: Part)
    ensures
        gear_ratio(ps, p) >= 0,
{
    let ns = numbers_of(neighbours_of(ps, p));
    if p.kind == PartKind::Symbol('*') && ns.len() == 2 {
        lemma_numbers_nonneg(neighbours_of(ps, p));
        let a = ns[0];
        let b = ns[1];
        assert(a * b >= 0) by (nonlinear_arith)
            requires
                a >= 0,
                b >= 0,
        ;
    }
}

proof fn lemma_numbers_nonneg(ps: Seq<Part>)
    ensures
        forall|i: int| 0 <= i < numbers_of(ps).len() ==> 0 <= #[trigger] numbers_of(ps)[i] <= 65535,
    decreases ps.len(),
{
    if ps.len() > 0 {
        lemma_numbers_nonneg(ps.drop_last());
        let prev = numbers_of(ps.drop_last());
        match ps.last().kind {
            PartKind::Number(n) => {
                assert forall|i: int| 0 <= i < numbers_of(ps).len() implies 0 <= #[trigger] numbers_of(ps)[i] <= 65535 by {
                    if i < prev.len() {
                        assert(numbers_of(ps)[i] == prev[i]);
                    }
                }
            },
            PartKind::Symbol(_) => {},
        }
    }
}

proof fn lemma_ratio_total_mono(ps: Seq<Part>, k: int)
    requires
        0 <= k <= ps.len(),
    ensures
        0 <= ratio_total(ps, k) <= ratio_total(ps, ps.len() as int),
    decreases ps.len() - k,
{
    lemma_ratio_total_nonneg(ps, k);
    if k < ps.len() {
        lemma_ratio_total_mono(ps, k + 1);
        lemma_ratio_nonneg(ps, ps[k]);
    }
}

proof fn lemma_ratio_total_nonneg(ps: Seq<Part>, k: int)
    ensures
        ratio_total(ps, k) >= 0,
    decreases k,
{
    if !(k <= 0 || k > ps.len()) {
        lemma_ratio_total_nonneg(ps, k - 1);
        lemma_ratio_nonneg(ps, ps[k - 1]);
    }
}

impl Schematic {
    pub fn neighbour_parts(&self, origin_part: &Part) -> (r: Vec<Part>)
        requires
            part_fits(*origin_part),
            forall|i: int| 0 <= i < self.parts@.len() ==> part_fits(#[trigger] self.parts@[i]),
        ensures
            r@ == neighbours_of(self.parts@, *origin_part),
    {
        let mut out: Vec<Part> = Vec::new();
        let mut k: usize = 0;
        while k < self.parts.len()
            invariant
                part_fits(*origin_part),
                forall|i: int| 0 <= i < self.parts@.len() ==> part_fits(#[trigger] self.parts@[i]),
                0 <= k <= self.parts@.len(),
                out@ == neighbours_of(self.parts@.take(k as int), *origin_part),
            decreases self.parts@.len() - k,
        {
            proof {
                reveal(Seq::filter);
                assert(self.parts@.take(k as int + 1).drop_last() == self.parts@.take(k as int));
            }
            let q = self.parts[k];
            assert(part_fits(self.parts@[k as int]));
            if !q.eq(origin_part) && origin_part.is_neighbour(&q) {
                out.push(q);
            }
            k = k + 1;
        }
        assert(self.parts@.take(k as int) == self.parts@);
        out
    }

    /// The sum of the ratios of all gears.
    pub fn gear_ratio_sum(&self) -> (r: u32)
        requires
            forall|i: int| 0 <= i < self.parts@.len() ==> part_fits(#[trigger] self.parts@[i]),
            ratio_total(self.parts@, self.parts@.len() as int) <= u32::MAX,
        ensures
            r == ratio_total(self.parts@, self.parts@.len() as int),
    {
        let mut acc: u32 = 0;
        let mut k: usize = 0;
        while k < self.parts.len()
            invariant
                forall|i: int| 0 <= i < self.parts@.len() ==> part_fits(#[trigger] self.parts@[i]),
                ratio_total(self.parts@, self.parts@.len() as int) <= u32::MAX,
                0 <= k <= self.parts@.len(),
                acc == ratio_total(self.parts@, k as int),
            decreases self.parts@.len() - k,
        {
            proof {
                lemma_ratio_total_mono(self.parts@, k + 1);
                lemma_ratio_nonneg(self.parts@, self.parts@[k as int]);
            }
            let p = self.parts[k];
            assert(part_fits(self.parts@[k as int]));
            let ratio = if p.kind == PartKind::Symbol('*') {
                let ns = self.neighbour_parts(&p);
                let nums = numbers_in(&ns);
                if nums.len() == 2 {
                    proof {
                        lemma_numbers_nonneg(ns@);
                    }
                    nums[0] * nums[1]
                } else {
                    0
                }
            } else {
                0
            };
            acc = acc + ratio;
            k = k + 1;
        }
        acc
    }
}

/// The numbers among `ps`, in order.
fn numbers_in(ps: &Vec<Part>) -> (r: Vec<u32>)
    ensures
        r@.len() == numbers_of(ps@).len(),
        forall|i: int| 0 <= i < r@.len() ==> r@[i] == #[trigger] numbers_of(ps@)[i],
{
    let mut out: Vec<u32> = Vec::new();
    let mut k: usize = 0;
    while k < ps.len()
        invariant
            0 <= k <= ps@.len(),
            out@.len() == numbers_of(ps@.take(k as int)).len(),
            forall|i: int| 0 <= i < out@.len() ==> out@[i] == #[trigger] numbers_of(ps@.take(k as int))[i],
        decreases ps@.len() - k,
    {
        assert(ps@.take(k as int + 1).drop_last() == ps@.take(k as int));
        match ps[k].kind {
            PartKind::Number(n) => {
                out.push(n as u32);
            },
            PartKind::Symbol(_) => {},
        }
        k = k + 1;
    }
    assert(ps@.take(k as int) == ps@);
    out
}

/// The length of the run of digits that starts at `x`.
pub open spec fn run_len(row: Seq<char>, x: int) -> int
    decreases row.len() - x,
{
    if 0 <= x < row.len() && is_digit(row[x]) {
        1 + run_len(row, x + 1)
    } else {
        0
    }
}

/// The part that starts at column `x` of row `y`: a symbol, or a number
/// where a run of digits begins; nothing on `.` or inside a number.
pub open spec fn part_at(row: Seq<char>, y: int, x: int) -> Option<Part> {
    let c = row[x];
    if c == '.' {
        None
    } else if !is_digit(c) {
        Some(Part { x: x as usize, y: y as usize, kind: PartKind::Symbol(c) })
    } else if x == 0 || !is_digit(row[x - 1]) {
        Some(
            Part {
                x: x as usize,
                y: y as usize,
                kind: PartKind::Number(decimal(row.subrange(x, x + run_len(row, x))) as u16),
            },
        )
    } else {
        None
    }
}

/// The parts among the first `n` columns of row `y`, in order.
pub open spec fn parts_in_row(row: Seq<char>, y: int, n: int) -> Seq<Part>
    decreases n,
{
    if n <= 0 || n > row.len() {
        Seq::empty()
    } else {
        match part_at(row, y, n - 1) {
            Some(p) => parts_in_row(row, y, n - 1).push(p),
            None => parts_in_row(row, y, n - 1),
        }
    }
}

/// The parts of the first `n` rows, in reading order.
pub open spec fn parts_of(g: Seq<Seq<char>>, n: int) -> Seq<Part>
    decreases n,
{
    if n <= 0 || n > g.len() {
        Seq::empty()
    } else {
        parts_of(g, n - 1) + parts_in_row(g[n - 1], n - 1, g[n - 1].len() as int)
    }
}

/// Every number of the schematic fits in a `u16`.
pub open spec fn numbers_fit(g: Seq<Seq<char>>) -> bool {
    forall|y: int, x: int|
        0 <= y < g.len() && 0 <= x < g[y].len() && is_digit(#[trigger] g[y][x]) ==> decimal(
            g[y].subrange(x, x + run_len(g[y], x)),
        ) <= u16::MAX
}

proof fn lemma_run_len_bound(row: Seq<char>, x: int)
    requires
        0 <= x <= row.len(),
    ensures
        0 <= run_len(row, x) <= row.len() - x,
        forall|k: int| x <= k < x + run_len(row, x) ==> is_digit(#[trigger] row[k]),
    decreases row.len() - x,
{
    if x < row.len() && is_digit(row[x]) {
        lemma_run_len_bound(row, x + 1);
    }
}

/// The parts of row `y`.
fn parse_row(row: &Vec<char>, y: usize, g: Ghost<Seq<Seq<char>>>) -> (r: Vec<Part>)
    requires
        numbers_fit(g@),
        y < g@.len(),
        g@[y as int] == row@,
    ensures
        r@ == parts_in_row(row@, y as int, row@.len() as int),
{
    let n = row.len();
    let mut out: Vec<Part> = Vec::new();
    let mut x: usize = 0;
    while x < n
        invariant
            n == row@.len(),
            numbers_fit(g@),
            y < g@.len(),
            g@[y as int] == row@,
            0 <= x <= n,
            out@ == parts_in_row(row@, y as int, x as int),
        decreases n - x,
    {
        let c = row[x];
        if c == '.' {
        } else if !('0' <= c && c <= '9') {
            out.push(Part { x, y, kind: PartKind::Symbol(c) });
        } else if x == 0 || !('0' <= row[x - 1] && row[x - 1] <= '9') {
            let mut e = x;
            while e < n && '0' <= row[e] && row[e] <= '9'
                invariant
                    n == row@.len(),
                    x <= e <= n,
                    run_len(row@, x as int) == (e - x) + run_len(row@, e as int),
                decreases n - e,
            {
                e = e + 1;
            }
            proof {
                lemma_run_len_bound(row@, x as int);
                assert(g@[y as int][x as int] == c);
                assert(decimal(row@.subrange(x as int, e as int)) <= u16::MAX);
                assert(all_digits(row@.subrange(x as int, e as int)));
            }
            let v = match parse_u64(row, x, e) {
                Some(v) => v as u16,
                None => 0,
            };
            out.push(Part { x, y, kind: PartKind::Number(v) });
        }
        x = x + 1;
    }
    out
}

impl Schematic {
    /// The numbers and symbols of the text, in reading order.
    pub fn load(contents: String) -> (r: Self)
        requires
            numbers_fit(lines_of(contents@)),
        ensures
            r.parts@ == parts_of(lines_of(contents@), lines_of(contents@).len() as int),
    {
        let cs = chars_of(contents.as_str());
        let rows = split_lines(&cs);
        let ghost g = lines_of(cs@);
        let mut parts: Vec<Part> = Vec::new();
        let mut y: usize = 0;
        while y < rows.len()
            invariant
                g == lines_of(cs@),
                cs@ == contents@,
                numbers_fit(g),
                rows@.len() == g.len(),
                forall|i: int| 0 <= i < rows@.len() ==> #[trigger] rows@[i]@ == g[i],
                0 <= y <= rows@.len(),
                parts@ == parts_of(g, y as int),
            decreases rows@.len() - y,
        {
            assert(rows@[y as int]@ == g[y as int]);
            let row_parts = parse_row(&rows[y], y, Ghost(g));
            let mut k: usize = 0;
            let ghost before = parts@;
            while k < row_parts.len()
                invariant
                    0 <= k <= row_parts@.len(),
                    parts@ == before + row_parts@.take(k as int),
                decreases row_parts@.len() - k,
            {
                parts.push(row_parts[k]);
                assert(row_parts@.take(k as int + 1) == row_parts@.take(k as int).push(row_parts@[k as int]));
                k = k + 1;
            }
            assert(row_parts@.take(k as int) == row_parts@);
            y = y + 1;
        }
        Self { parts }
    }
}

/// Some character in rows `y - 1` to `y + 1` and in the `w + 2` columns from
/// `x - 1` on (both clamped at 0) is neither a digit nor `.`.
pub open spec fn symbol_near(g: Seq<Seq<char>>, y: int, x: int, w: int) -> bool {
    exists|r: int, c: int|
        sat_dec(y) <= r < y + 2 && 0 <= r < g.len() && sat_dec(x) <= c < sat_dec(x) + w + 2 && 0 <= c
            < g[r].len() && !is_digit(#[trigger] g[r][c]) && g[r][c] != '.'
}

/// Where a run of digits begins at `(x, y)`.
pub open spec fn run_start(g: Seq<Seq<char>>, y: int, x: int) -> bool {
    0 <= y < g.len() && 0 <= x < g[y].len() && is_digit(g[y][x]) && (x == 0 || !is_digit(g[y][x - 1]))
}

pub open spec fn run_value(g: Seq<Seq<char>>, y: int, x: int) -> int {
    decimal(g[y].subrange(x, x + run_len(g[y], x)))
}

/// The number starting at `(x, y)` if a symbol is near it, else 0; the window
/// is as wide as the number's decimal digits.
pub open spec fn part_number_at(g: Seq<Seq<char>>, y: int, x: int) -> int {
    if run_start(g, y, x) && symbol_near(g, y, x, digit_count(run_value(g, y, x))) {
        run_value(g, y, x)
    } else {
        0
    }
}

/// The part numbers among the first `n` columns of row `y`, added up.
pub open spec fn row_part_sum(g: Seq<Seq<char>>, y: int, n: int) -> int
    decreases n,
{
    if n <= 0 {
        0
    } else {
        row_part_sum(g, y, n - 1) + part_number_at(g, y, n - 1)
    }
}

/// The part numbers of the first `n` rows, added up.
pub open spec fn part_sum(g: Seq<Seq<char>>, n: int) -> int
    decreases n,
{
    if n <= 0 || n > g.len() {
        0
    } else {
        part_sum(g, n - 1) + row_part_sum(g, n - 1, g[n - 1].len() as int)
    }
}

/// Every run of digits fits in a `u32`.
pub open spec fn runs_fit(g: Seq<Seq<char>>) -> bool {
    forall|y: int, x: int| #[trigger] run_start(g, y, x) ==> run_value(g, y, x) <= u32::MAX
}

proof fn lemma_decimal_nonneg_all(s: Seq<char>)
    requires
        all_digits(s),
    ensures
        decimal(s) >= 0,
    decreases s.len(),
{
    if s.len() > 0 {
        lemma_decimal_nonneg_all(s.drop_last());
    }
}

proof fn lemma_part_number_nonneg(g: Seq<Seq<char>>, y: int, x: int)
    ensures
        part_number_at(g, y, x) >= 0,
{
    if run_start(g, y, x) {
        lemma_run_len_bound(g[y], x);
        lemma_decimal_nonneg_all(g[y].subrange(x, x + run_len(g[y], x)));
    }
}

proof fn lemma_row_sum_mono(g: Seq<Seq<char>>, y: int, a: int, b: int)
    requires
        0 <= a <= b,
    ensures
        0 <= row_part_sum(g, y, a) <= row_part_sum(g, y, b),
    decreases b - a,
{
    if a < b {
        lemma_row_sum_mono(g, y, a, b - 1);
        lemma_part_number_nonneg(g, y, b - 1);
    } else {
        lemma_row_sum_nonneg(g, y, a);
    }
}

proof fn lemma_row_sum_nonneg(g: Seq<Seq<char>>, y: int, n: int)
    ensures
        row_part_sum(g, y, n) >= 0,
    decreases n,
{
    if n > 0 {
        lemma_row_sum_nonneg(g, y, n - 1);
        lemma_part_number_nonneg(g, y, n - 1);
    }
}

proof fn lemma_part_sum_mono(g: Seq<Seq<char>>, a: int)
    requires
        0 <= a <= g.len(),
    ensures
        0 <= part_sum(g, a) <= part_sum(g, g.len() as int),
    decreases g.len() - a,
{
    lemma_part_sum_nonneg(g, a);
    if a < g.len() {
        lemma_part_sum_mono(g, a + 1);
        lemma_row_sum_nonneg(g, a, g[a].len() as int);
    }
}

proof fn lemma_part_sum_nonneg(g: Seq<Seq<char>>, n: int)
    ensures
        part_sum(g, n) >= 0,
    decreases n,
{
    if !(n <= 0 || n > g.len()) {
        lemma_part_sum_nonneg(g, n - 1);
        lemma_row_sum_nonneg(g, n - 1, g[n - 1].len() as int);
    }
}

/// The decimal digits of `v`.
fn digits_of(v: u32) -> (r: usize)
    ensures
        r == digit_count(v as int),
        1 <= r <= 10,
{
    let mut digits: usize = 1;
    let mut rest = v;
    proof {
        reveal_with_fuel(digit_count, 11);
    }
    while rest >= 10
        invariant
            1 <= digits <= 10,
            digits - 1 + digit_count(rest as int) == digit_count(v as int),
            digit_count(v as int) <= 10,
        decreases rest,
    {
        proof {
            lemma_digit_count_pos(rest as int / 10);
        }
        rest = rest / 10;
        digits = digits + 1;
    }
    digits
}

/// Whether a symbol is near the number of width `w` at `(x, y)`.
fn near_symbol(g: &Vec<Vec<char>>, y: usize, x: usize, w: usize) -> (r: bool)
    requires
        y < g@.len(),
        w <= 10,
    ensures
        r == symbol_near(rows_view(g@), y as int, x as int, w as int),
{
    let ghost gv = rows_view(g@);
    let r0 = if y > 0 { y - 1 } else { 0 };
    let c0 = if x > 0 { x - 1 } else { 0 };
    let mut r = r0;
    let h = g.len();
    while r <= y + 1 && r < h
        invariant
            gv == rows_view(g@),
            h == g@.len(),
            y < g@.len(),
            w <= 10,
            c0 == sat_dec(x as int),
            r0 == sat_dec(y as int),
            r0 <= r,
            r <= y + 2,
            forall|rr: int, cc: int|
                r0 <= rr < r && 0 <= rr < gv.len() && c0 <= cc < c0 + w + 2 && 0 <= cc < gv[rr].len() ==> !(
                !is_digit(#[trigger] gv[rr][cc]) && gv[rr][cc] != '.'),
        decreases g@.len() - r,
    {
        let row = &g[r];
        assert(row@ == gv[r as int]);
        let mut c = c0;
        while c < row.len() && c - c0 < w + 2
            invariant
                gv == rows_view(g@),
                row@ == gv[r as int],
                0 <= r < g@.len(),
                r0 <= r <= y + 1,
                r0 == sat_dec(y as int),
                w <= 10,
                c0 == sat_dec(x as int),
                c0 <= c,
                forall|cc: int| c0 <= cc < c && 0 <= cc < row@.len() ==> !(!is_digit(#[trigger] row@[cc]) && row@[cc] != '.'),
            decreases row@.len() - c,
        {
            let ch = row[c];
            if !('0' <= ch && ch <= '9') && ch != '.' {
                assert(gv[r as int][c as int] == ch);
                return true;
            }
            c = c + 1;
        }
        r = r + 1;
    }
    false
}

pub open spec fn rows_view(g: Seq<Vec<char>>) -> Seq<Seq<char>> {
    g.map_values(|r: Vec<char>| r@)
}

/// The sum of the numbers that have a symbol next to them, diagonals counting.
pub fn pt1_sum(contents: String) -> (r: u32)
    requires
        runs_fit(lines_of(contents@)),
        part_sum(lines_of(contents@), lines_of(contents@).len() as int) <= u32::MAX,
    ensures
        r == part_sum(lines_of(contents@), lines_of(contents@).len() as int),
{
    let cs = chars_of(contents.as_str());
    let g = split_lines(&cs);
    let ghost gv = lines_of(cs@);
    assert(rows_view(g@) =~= gv);
    let h = g.len();
    let mut acc: u32 = 0;
    let mut y: usize = 0;
    while y < h
        invariant
            gv == lines_of(cs@),
            cs@ == contents@,
            rows_view(g@) == gv,
            h == gv.len(),
            runs_fit(gv),
            part_sum(gv, h as int) <= u32::MAX,
            0 <= y <= h,
            acc == part_sum(gv, y as int),
        decreases h - y,
    {
        let row = &g[y];
        assert(row@ == gv[y as int]);
        proof {
            lemma_part_sum_mono(gv, y + 1);
            lemma_row_sum_mono(gv, y as int, 0, row@.len() as int);
        }
        let n = row.len();
        let mut x: usize = 0;
        while x < n
            invariant
                gv == rows_view(g@),
                row@ == gv[y as int],
                n == row@.len(),
                y < h,
                h == gv.len(),
                runs_fit(gv),
                part_sum(gv, y as int) + row_part_sum(gv, y as int, n as int) <= u32::MAX,
                0 <= x <= n,
                acc == part_sum(gv, y as int) + row_part_sum(gv, y as int, x as int),
            decreases n - x,
        {
            proof {
                lemma_row_sum_mono(gv, y as int, x + 1, n as int);
                lemma_part_number_nonneg(gv, y as int, x as int);
            }
            let c = row[x];
            if '0' <= c && c <= '9' && (x == 0 || !('0' <= row[x - 1] && row[x - 1] <= '9')) {
                assert(run_start(gv, y as int, x as int));
                let mut e = x;
                while e < n && '0' <= row[e] && row[e] <= '9'
                    invariant
                        n == row@.len(),
                        x <= e <= n,
                        run_len(row@, x as int) == (e - x) + run_len(row@, e as int),
                    decreases n - e,
                {
                    e = e + 1;
                }
                proof {
                    lemma_run_len_bound(row@, x as int);
                    assert(all_digits(row@.subrange(x as int, e as int)));
                    assert(run_value(gv, y as int, x as int) <= u32::MAX);
                }
                let v = match parse_u64(row, x, e) {
                    Some(v) => v as u32,
                    None => 0,
                };
                let w = digits_of(v);
                assert(v == run_value(gv, y as int, x as int));
                if near_symbol(&g, y, x, w) {
                    acc = acc + v;
                }
            }
            x = x + 1;
        }
        y = y + 1;
    }
    acc
}

} // verus!
