//! Seed almanac: each map sends numbers through the first entry whose source
//! range holds them, and leaves the others as they are.
use vstd::prelude::*;
use crate::text::{chars_of, split_chars, split_on, lines_of, split_lines, sections, split_sections, rows_of,
    string_of, parse_u64, all_digits, decimal, string_chars};

verus! {

pub struct MapEntry {
    pub source_start: u64,
    pub dest_start: u64,
    pub range: u64,
}

pub open spec fn applies(e: MapEntry, from: int) -> bool {
    e.source_start <= from < e.source_start + e.range
}

pub open spec fn entry_value(e: MapEntry, from: int) -> int {
    if applies(e, from) {
        e.dest_start + from - e.source_start
    } else {
        from
    }
}

/// Every number the entry sends somewhere fits in a `u64`.
pub open spec fn entry_fits(e: MapEntry) -> bool {
    e.range == 0 || e.dest_start + e.range - 1 <= u64::MAX
}

impl MapEntry {
    pub fn is_applicable(&self, from: u64) -> (r: bool)
        ensures
            r == applies(*self, from as int),
    {
        from >= self.source_start && from - self.source_start < self.range
    }

    pub fn convert(&self, from: u64) -> (r: u64)
        requires
            entry_fits(*self),
        ensures
            r == entry_value(*self, from as int),
    {
        if !self.is_applicable(from) {
            return from;
        }
        self.dest_start + (from - self.source_start)
    }
}

/// One map of the almanac.
pub struct RangeMap {
    pub name: String,
    pub entries: Vec<MapEntry>,
}

/// What the entries `es` make of `from`: the first entry that applies decides.
pub open spec fn map_value(es: Seq<MapEntry>, from: int) -> int
    decreases es.len(),
{
    if es.len() == 0 {
        from
    } else if applies(es[0], from) {
        entry_value(es[0], from)
    } else {
        map_value(es.drop_first(), from)
    }
}

pub open spec fn map_fits(m: RangeMap) -> bool {
    forall|i: int| 0 <= i < m.entries@.len() ==> entry_fits(#[trigger] m.entries@[i])
}

proof fn lemma_map_value_fits(es: Seq<MapEntry>, from: int)
    requires
        forall|i: int| 0 <= i < es.len() ==> entry_fits(#[trigger] es[i]),
        0 <= from <= u64::MAX,
    ensures
        0 <= map_value(es, from) <= u64::MAX,
    decreases es.len(),
{
    if es.len() > 0 {
        assert(entry_fits(es[0]));
        if !applies(es[0], from) {
            lemma_map_value_fits(es.drop_first(), from);
        }
    }
}

impl RangeMap {
    pub fn convert(&self, from: u64) -> (r: u64)
        requires
            map_fits(*self),
        ensures
            r == map_value(self.entries@, from as int),
    {
        let mut k: usize = 0;
        assert(self.entries@.subrange(0, self.entries@.len() as int) == self.entries@);
        while k < self.entries.len()
            invariant
                map_fits(*self),
                0 <= k <= self.entries@.len(),
                map_value(self.entries@, from as int) == map_value(
                    self.entries@.subrange(k as int, self.entries@.len() as int),
                    from as int,
                ),
            decreases self.entries@.len() - k,
        {
            let e = &self.entries[k];
            assert(self.entries@.subrange(k as int, self.entries@.len() as int).drop_first()
                == self.entries@.subrange(k as int + 1, self.entries@.len() as int));
            if e.is_applicable(from) {
                assert(entry_fits(self.entries@[k as int]));
                return e.convert(from);
            }
            k = k + 1;
        }
        from
    }
}

pub struct Almanac {
    pub seeds: Vec<u64>,
    pub maps: Vec<RangeMap>,
}

/// Where `seed` ends after going through the maps in order.
pub open spec fn location(maps: Seq<RangeMap>, seed: int) -> int
    decreases maps.len(),
{
    if maps.len() == 0 {
        seed
    } else {
        map_value(maps.last().entries@, location(maps.drop_last(), seed))
    }
}

/// The seeds of the ranges that the seed list gives in pairs of start and length.
pub open spec fn in_seed_ranges(seeds: Seq<u64>, s: int) -> bool {
    exists|k: int| 0 <= k < seeds.len() / 2 && seeds[2 * k] <= s < seeds[2 * k] + #[trigger] seeds[2 * k + 1]
}

/// `s` lies in one of the first `k` seed ranges.
pub open spec fn in_first_ranges(seeds: Seq<u64>, k: int, s: int) -> bool {
    exists|j: int| 0 <= j < k && seeds[2 * j] <= s < seeds[2 * j] + #[trigger] seeds[2 * j + 1]
}

impl Almanac {
    pub open spec fn wf(&self) -> bool {
        forall|i: int| 0 <= i < self.maps@.len() ==> map_fits(#[trigger] self.maps@[i])
    }

    pub fn to_location(&self, seed: &u64) -> (r: u64)
        requires
            self.wf(),
        ensures
            r == location(self.maps@, *seed as int),
    {
        let mut acc = *seed;
        let mut k: usize = 0;
        assert(self.maps@.take(0) == Seq::<RangeMap>::empty());
        while k < self.maps.len()
            invariant
                self.wf(),
                0 <= k <= self.maps@.len(),
                acc == location(self.maps@.take(k as int), *seed as int),
            decreases self.maps@.len() - k,
        {
            assert(self.maps@.take(k as int + 1).drop_last() == self.maps@.take(k as int));
            assert(map_fits(self.maps@[k as int]));
            acc = self.maps[k].convert(acc);
            k = k + 1;
        }
        assert(self.maps@.take(k as int) == self.maps@);
        acc
    }

    /// The lowest location of any seed in the list.
    pub fn pt1(&self) -> (r: u64)
        requires
            self.wf(),
            self.seeds@.len() > 0,
        ensures
            exists|i: int| 0 <= i < self.seeds@.len() && r == location(self.maps@, #[trigger] self.seeds@[i] as int),
            forall|i: int| 0 <= i < self.seeds@.len() ==> r <= location(self.maps@, #[trigger] self.seeds@[i] as int),
    {
        let mut best = self.to_location(&self.seeds[0]);
        let mut k: usize = 1;
        while k < self.seeds.len()
            invariant
                self.wf(),
                1 <= k <= self.seeds@.len(),
                exists|i: int| 0 <= i < k && best == location(self.maps@, #[trigger] self.seeds@[i] as int),
                forall|i: int| 0 <= i < k ==> best <= location(self.maps@, #[trigger] self.seeds@[i] as int),
            decreases self.seeds@.len() - k,
        {
            let v = self.to_location(&self.seeds[k]);
            if v < best {
                best = v;
            }
            k = k + 1;
        }
        best
    }

    /// The lowest location of any seed in the ranges that the seed list gives
    /// in pairs of start and length.
    pub fn pt2(&self) -> (r: u64)
        requires
            self.wf(),
            self.seeds@.len() % 2 == 0,
            forall|k: int| 0 <= k < self.seeds@.len() / 2 ==> #[trigger] self.seeds@[2 * k] + self.seeds@[2 * k + 1] <= u64::MAX,
            exists|k: int| 0 <= k < self.seeds@.len() / 2 && #[trigger] self.seeds@[2 * k + 1] > 0,
        ensures
            exists|s: int| in_seed_ranges(self.seeds@, s) && r == #[trigger] location(self.maps@, s),
            forall|s: int| in_seed_ranges(self.seeds@, s) ==> r <= #[trigger] location(self.maps@, s),
    {
        assert forall|s: int| #[trigger] in_seed_ranges(self.seeds@, s) <==> in_first_ranges(self.seeds@, (self.seeds@.len() / 2) as int, s) by {
            if in_seed_ranges(self.seeds@, s) {
                let j = choose|j: int| 0 <= j < self.seeds@.len() / 2 && self.seeds@[2 * j] <= s < self.seeds@[2 * j] + #[trigger] self.seeds@[2 * j + 1];
                assert(self.seeds@[2 * j] <= s < self.seeds@[2 * j] + self.seeds@[2 * j + 1]);
            }
            if in_first_ranges(self.seeds@, (self.seeds@.len() / 2) as int, s) {
                let j = choose|j: int| 0 <= j < self.seeds@.len() / 2 && self.seeds@[2 * j] <= s < self.seeds@[2 * j] + #[trigger] self.seeds@[2 * j + 1];
                assert(self.seeds@[2 * j] <= s < self.seeds@[2 * j] + self.seeds@[2 * j + 1]);
            }
        }
        let mut best: Option<u64> = None;
        let mut k: usize = 0;
        let total = self.seeds.len();
        let n = total / 2;
        while k < n
            invariant
                total == self.seeds@.len(),
                self.wf(),
                n == self.seeds@.len() / 2,
                2 * n == self.seeds@.len(),
                self.seeds@.len() % 2 == 0,
                forall|k: int| 0 <= k < self.seeds@.len() / 2 ==> #[trigger] self.seeds@[2 * k] + self.seeds@[2 * k + 1] <= u64::MAX,
                0 <= k <= n,
                best is None ==> forall|j: int| 0 <= j < k ==> #[trigger] self.seeds@[2 * j + 1] == 0,
                best matches Some(b) ==> exists|s: int| in_seed_ranges(self.seeds@, s) && b == #[trigger] location(self.maps@, s),
                best matches Some(b) ==> forall|s: int|
                    in_first_ranges(self.seeds@, k as int, s) ==> b <= #[trigger] location(self.maps@, s),
            decreases n - k,
        {
            let start = self.seeds[2 * k];
            let len = self.seeds[2 * k + 1];
            assert(start + len <= u64::MAX);
            let mut s = start;
            while s < start + len
                invariant
                    self.wf(),
                    n == self.seeds@.len() / 2,
                    0 <= k < n,
                    start == self.seeds@[2 * k as int],
                    len == self.seeds@[2 * k + 1],
                    start + len <= u64::MAX,
                    start <= s <= start + len,
                    best is None ==> s == start && forall|j: int| 0 <= j < k ==> #[trigger] self.seeds@[2 * j + 1] == 0,
                    best matches Some(b) ==> exists|t: int| in_seed_ranges(self.seeds@, t) && b == #[trigger] location(self.maps@, t),
                    best matches Some(b) ==> forall|t: int|
                        (in_first_ranges(self.seeds@, k as int, t) || (start <= t < s)) ==> b <= #[trigger] location(self.maps@, t),
                decreases start + len - s,
            {
                let v = self.to_location(&s);
                proof {
                    assert(in_seed_ranges(self.seeds@, s as int));
                }
                match best {
                    None => {
                        best = Some(v);
                    },
                    Some(b) => {
                        if v < b {
                            best = Some(v);
                        }
                    },
                }
                s = s + 1;
            }
            proof {
                assert forall|t: int| #[trigger] in_first_ranges(self.seeds@, k + 1, t)
                    implies in_first_ranges(self.seeds@, k as int, t) || (start <= t < s) by {
                    let j = choose|j: int| 0 <= j < k + 1 && self.seeds@[2 * j] <= t < self.seeds@[2 * j] + #[trigger] self.seeds@[2 * j + 1];
                    if j < k {
                        assert(self.seeds@[2 * j] <= t < self.seeds@[2 * j] + self.seeds@[2 * j + 1]);
                    }
                }
            }
            k = k + 1;
        }
        match best {
            Some(b) => b,
            None => {
                proof {
                    let j = choose|j: int| 0 <= j < self.seeds@.len() / 2 && #[trigger] self.seeds@[2 * j + 1] > 0;
                    assert(self.seeds@[2 * j + 1] == 0);
                }
                0
            },
        }
    }
}

/// The numbers of a line: its pieces between spaces that are not empty, read as decimals.
pub open spec fn numbers_in(line: Seq<char>) -> Seq<int> {
    split_on(line, ' ').filter(|w: Seq<char>| w.len() > 0).map_values(|w: Seq<char>| decimal(w))
}

/// Every piece between spaces that is not empty is a number that fits in a `u64`.
pub open spec fn numbers_ok(line: Seq<char>) -> bool {
    forall|j: int|
        0 <= j < split_on(line, ' ').len() && (#[trigger] split_on(line, ' ')[j]).len() > 0 ==> all_digits(
            split_on(line, ' ')[j],
        ) && decimal(split_on(line, ' ')[j]) <= u64::MAX
}

/// The numbers of `line` from position `from` on.
fn parse_numbers(line: &Vec<char>, from: usize) -> (r: Vec<u64>)
    requires
        from <= line@.len(),
        numbers_ok(line@.subrange(from as int, line@.len() as int)),
    ensures
        r@.map_values(|v: u64| v as int) == numbers_in(line@.subrange(from as int, line@.len() as int)),
{
    let ghost t = line@.subrange(from as int, line@.len() as int);
    let mut rest: Vec<char> = Vec::new();
    let mut j: usize = from;
    while j < line.len()
        invariant
            from <= j <= line@.len(),
            rest@ == line@.subrange(from as int, j as int),
        decreases line@.len() - j,
    {
        rest.push(line[j]);
        assert(line@.subrange(from as int, j + 1) == line@.subrange(from as int, j as int).push(line@[j as int]));
        j = j + 1;
    }
    let pieces = split_chars(&rest, ' ');
    let ghost ps = split_on(rest@, ' ');
    let mut out: Vec<u64> = Vec::new();
    let mut k: usize = 0;
    while k < pieces.len()
        invariant
            rest@ == t,
            ps == split_on(rest@, ' '),
            numbers_ok(t),
            pieces@.len() == ps.len(),
            forall|i: int| 0 <= i < pieces@.len() ==> #[trigger] pieces@[i]@ == ps[i],
            0 <= k <= pieces@.len(),
            out@.map_values(|v: u64| v as int) == ps.take(k as int).filter(|w: Seq<char>| w.len() > 0).map_values(
                |w: Seq<char>| decimal(w),
            ),
        decreases pieces@.len() - k,
    {
        proof {
            reveal(Seq::filter);
            assert(ps.take(k as int + 1).drop_last() == ps.take(k as int));
        }
        let piece = &pieces[k];
        if piece.len() > 0 {
            assert(piece@.subrange(0, piece@.len() as int) == piece@);
            let v = match parse_u64(piece, 0, piece.len()) {
                Some(v) => v,
                None => 0,
            };
            let ghost before = out@;
            out.push(v);
            assert(out@.map_values(|v: u64| v as int) =~= before.map_values(|v: u64| v as int).push(decimal(ps[k as int])));
        }
        k = k + 1;
    }
    assert(ps.take(k as int) == ps);
    out
}

/// The text of an almanac: a line `seeds: ...`, then after each empty line a
/// map: a name line and lines of at least three numbers.
pub open spec fn almanac_text_ok(s: Seq<char>) -> bool {
    let secs = sections(lines_of(s));
    &&& secs.len() >= 1
    &&& secs[0].len() >= 1
    &&& secs[0][0].len() >= 7
    &&& numbers_ok(secs[0][0].subrange(7, secs[0][0].len() as int))
    &&& forall|k: int| 1 <= k < secs.len() ==> (#[trigger] secs[k]).len() >= 1
    &&& forall|k: int, j: int|
        1 <= k < secs.len() && 1 <= j < secs[k].len() ==> numbers_ok(#[trigger] secs[k][j])
            && numbers_in(secs[k][j]).len() >= 3
}

/// `e` holds the first three numbers of `ns`: destination, source, length.
pub open spec fn entry_of(e: MapEntry, ns: Seq<int>) -> bool {
    e.dest_start == ns[0] && e.source_start == ns[1] && e.range == ns[2]
}

impl Almanac {
    pub fn load(contents: String) -> (r: Self)
        requires
            almanac_text_ok(contents@),
        ensures
            ({
                let secs = sections(lines_of(contents@));
                &&& r.seeds@.map_values(|v: u64| v as int) == numbers_in(secs[0][0].subrange(7, secs[0][0].len() as int))
                &&& r.maps@.len() == secs.len() - 1
                &&& forall|k: int|
                    0 <= k < r.maps@.len() ==> (#[trigger] r.maps@[k]).name@ == secs[k + 1][0]
                        && r.maps@[k].entries@.len() == secs[k + 1].len() - 1 && forall|j: int|
                        0 <= j < r.maps@[k].entries@.len() ==> entry_of(
                            #[trigger] r.maps@[k].entries@[j],
                            numbers_in(secs[k + 1][j + 1]),
                        )
            }),
    {
        let cs = chars_of(contents.as_str());
        let rows = split_lines(&cs);
        assert(rows_of(rows@) =~= lines_of(cs@));
        let secs = split_sections(&rows);
        let ghost ss = sections(lines_of(contents@));
        assert(secs@[0]@[0]@ == rows_of(secs@[0]@)[0]);
        let first = &secs[0][0];
        let seeds = parse_numbers(first, 7);
        let mut maps: Vec<RangeMap> = Vec::new();
        let mut k: usize = 1;
        while k < secs.len()
            invariant
                cs@ == contents@,
                ss == sections(lines_of(contents@)),
                almanac_text_ok(contents@),
                secs@.len() == ss.len(),
                forall|i: int| 0 <= i < secs@.len() ==> rows_of(#[trigger] secs@[i]@) == ss[i],
                1 <= k <= secs@.len(),
                maps@.len() == k - 1,
                forall|m: int|
                    0 <= m < k - 1 ==> (#[trigger] maps@[m]).name@ == ss[m + 1][0] && maps@[m].entries@.len()
                        == ss[m + 1].len() - 1 && forall|j: int|
                        0 <= j < maps@[m].entries@.len() ==> entry_of(
                            #[trigger] maps@[m].entries@[j],
                            numbers_in(ss[m + 1][j + 1]),
                        ),
            decreases secs@.len() - k,
        {
            let sec = &secs[k];
            assert(rows_of(sec@) == ss[k as int]);
            assert(ss[k as int].len() >= 1);
            assert(sec@[0]@ == ss[k as int][0]);
            let name = string_of(&sec[0], 0, sec[0].len());
            assert(sec@[0]@.subrange(0, sec@[0]@.len() as int) == sec@[0]@);
            let mut entries: Vec<MapEntry> = Vec::new();
            let mut j: usize = 1;
            while j < sec.len()
                invariant
                    ss == sections(lines_of(contents@)),
                    almanac_text_ok(contents@),
                    1 <= k < ss.len(),
                    rows_of(sec@) == ss[k as int],
                    1 <= j <= sec@.len(),
                    entries@.len() == j - 1,
                    forall|i: int|
                        0 <= i < j - 1 ==> entry_of(#[trigger] entries@[i], numbers_in(ss[k as int][i + 1])),
                decreases sec@.len() - j,
            {
                let line = &sec[j];
                assert(line@ == ss[k as int][j as int]);
                assert(line@.subrange(0, line@.len() as int) == line@);
                let nums = parse_numbers(line, 0);
                assert(nums@.map_values(|v: u64| v as int)[0] == nums@[0] as int);
                assert(nums@.map_values(|v: u64| v as int)[1] == nums@[1] as int);
                assert(nums@.map_values(|v: u64| v as int)[2] == nums@[2] as int);
                entries.push(MapEntry { dest_start: nums[0], source_start: nums[1], range: nums[2] });
                j = j + 1;
            }
            maps.push(RangeMap { name, entries });
            k = k + 1;
        }
        Self { seeds, maps }
    }
}

} // verus!
