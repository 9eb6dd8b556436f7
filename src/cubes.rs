//! Cube game: each game shows a few handfuls of red, green and blue cubes.
use vstd::prelude::*;
use crate::text::{chars_of, split_chars, split_on, lines_of, split_lines, first_pos, find_char, parse_u64,
    all_digits, decimal};
use crate::lenses::{trim, trimmed};

verus! {

#[derive(Clone, Copy, Debug, PartialEq, Eq, Structural)]
pub struct CubeSet {
    pub red: u32,
    pub green: u32,
    pub blue: u32,
}

pub struct CubeGame {
    pub id: u32,
    pub sets: Vec<CubeSet>,
}

pub struct State {
    pub games: Vec<CubeGame>,
}

pub open spec fn max_u32(a: u32, b: u32) -> u32 {
    if a >= b {
        a
    } else {
        b
    }
}

/// The fewest cubes of each colour that every handful of `sets` allows.
pub open spec fn superset_of(sets: Seq<CubeSet>) -> CubeSet
    decreases sets.len(),
{
    if sets.len() == 0 {
        CubeSet { red: 0, green: 0, blue: 0 }
    } else {
        let prev = superset_of(sets.drop_last());
        CubeSet {
            red: max_u32(prev.red, sets.last().red),
            green: max_u32(prev.green, sets.last().green),
            blue: max_u32(prev.blue, sets.last().blue),
        }
    }
}

pub open spec fn power_of(s: CubeSet) -> int {
    s.red * s.green * s.blue
}

/// Every handful of the game fits within `check`.
pub open spec fn possible(g: CubeGame, check: CubeSet) -> bool {
    forall|i: int|
        0 <= i < g.sets@.len() ==> (#[trigger] g.sets@[i]).red <= check.red && g.sets@[i].green
            <= check.green && g.sets@[i].blue <= check.blue
}

/// The sum of the ids of the possible games among `games`.
pub open spec fn possible_ids(games: Seq<CubeGame>, check: CubeSet) -> int
    decreases games.len(),
{
    if games.len() == 0 {
        0
    } else {
        possible_ids(games.drop_last(), check) + if possible(games.last(), check) {
            games.last().id as int
        } else {
            0
        }
    }
}

/// The sum of the powers of the games' supersets.
pub open spec fn powers(games: Seq<CubeGame>) -> int
    decreases games.len(),
{
    if games.len() == 0 {
        0
    } else {
        powers(games.drop_last()) + power_of(superset_of(games.last().sets@))
    }
}

proof fn lemma_power_nonneg(s: CubeSet)
    ensures
        power_of(s) >= 0,
{
    assert(s.red * s.green * s.blue >= 0) by (nonlinear_arith);
}

proof fn lemma_powers_mono(games: Seq<CubeGame>, k: int)
    requires
        0 <= k <= games.len(),
    ensures
        powers(games.take(k)) <= powers(games),
    decreases games.len() - k,
{
    if k < games.len() {
        lemma_powers_mono(games, k + 1);
        assert(games.take(k + 1).drop_last() == games.take(k));
        lemma_power_nonneg(superset_of(games[k].sets@));
    } else {
        assert(games.take(k) == games);
    }
}

proof fn lemma_possible_ids_mono(games: Seq<CubeGame>, check: CubeSet, k: int)
    requires
        0 <= k <= games.len(),
    ensures
        possible_ids(games.take(k), check) <= possible_ids(games, check),
    decreases games.len() - k,
{
    if k < games.len() {
        lemma_possible_ids_mono(games, check, k + 1);
        assert(games.take(k + 1).drop_last() == games.take(k));
    } else {
        assert(games.take(k) == games);
    }
}

impl CubeGame {
    pub fn superset(&self) -> (r: CubeSet)
        ensures
            r == superset_of(self.sets@),
    {
        let mut superset = CubeSet { red: 0, green: 0, blue: 0 };
        let mut k: usize = 0;
        assert(self.sets@.take(0) == Seq::<CubeSet>::empty());
        while k < self.sets.len()
            invariant
                0 <= k <= self.sets@.len(),
                superset == superset_of(self.sets@.take(k as int)),
            decreases self.sets@.len() - k,
        {
            assert(self.sets@.take(k as int + 1).drop_last() == self.sets@.take(k as int));
            let set = self.sets[k];
            if set.red > superset.red {
                superset.red = set.red;
            }
            if set.green > superset.green {
                superset.green = set.green;
            }
            if set.blue > superset.blue {
                superset.blue = set.blue;
            }
            k = k + 1;
        }
        assert(self.sets@.take(k as int) == self.sets@);
        superset
    }
}

impl CubeSet {
    pub fn power(&self) -> (r: u32)
        requires
            power_of(*self) <= u32::MAX,
        ensures
            r == power_of(*self),
    {
        if self.blue == 0 {
            proof {
                assert(self.red * self.green * 0 == 0) by (nonlinear_arith);
            }
            return 0;
        }
        proof {
            assert(self.red * self.green <= u32::MAX) by (nonlinear_arith)
                requires
                    self.red * self.green * self.blue <= u32::MAX,
                    self.blue > 0,
            {
            }
        }
        self.red * self.green * self.blue
    }
}

impl State {
    /// The sum of the ids of the games whose every handful fits within `check_set`.
    pub fn sum_possible_game_ids(&self, check_set: CubeSet) -> (r: u32)
        requires
            possible_ids(self.games@, check_set) <= u32::MAX,
        ensures
            r == possible_ids(self.games@, check_set),
    {
        let mut sum: u32 = 0;
        let mut k: usize = 0;
        assert(self.games@.take(0) == Seq::<CubeGame>::empty());
        while k < self.games.len()
            invariant
                0 <= k <= self.games@.len(),
                possible_ids(self.games@, check_set) <= u32::MAX,
                sum == possible_ids(self.games@.take(k as int), check_set),
            decreases self.games@.len() - k,
        {
            assert(self.games@.take(k as int + 1).drop_last() == self.games@.take(k as int));
            proof {
                lemma_possible_ids_mono(self.games@, check_set, k + 1);
            }
            let game = &self.games[k];
            let mut ok = true;
            let mut j: usize = 0;
            while j < game.sets.len()
                invariant
                    0 <= j <= game.sets@.len(),
                    ok == forall|i: int|
                        0 <= i < j ==> (#[trigger] game.sets@[i]).red <= check_set.red && game.sets@[i].green
                            <= check_set.green && game.sets@[i].blue <= check_set.blue,
                decreases game.sets@.len() - j,
            {
                let s = game.sets[j];
                if !(s.red <= check_set.red && s.green <= check_set.green && s.blue <= check_set.blue) {
                    ok = false;
                }
                j = j + 1;
            }
            if ok {
                sum = sum + game.id;
            }
            k = k + 1;
        }
        assert(self.games@.take(k as int) == self.games@);
        sum
    }

    /// The sum of the powers of each game's superset.
    pub fn sum_game_powers(&self) -> (r: u32)
        requires
            powers(self.games@) <= u32::MAX,
        ensures
            r == powers(self.games@),
    {
        let mut sum: u32 = 0;
        let mut k: usize = 0;
        assert(self.games@.take(0) == Seq::<CubeGame>::empty());
        while k < self.games.len()
            invariant
                0 <= k <= self.games@.len(),
                powers(self.games@) <= u32::MAX,
                sum == powers(self.games@.take(k as int)),
            decreases self.games@.len() - k,
        {
            assert(self.games@.take(k as int + 1).drop_last() == self.games@.take(k as int));
            proof {
                lemma_powers_mono(self.games@, k + 1);
                lemma_powers_mono(self.games@.take(k as int + 1), k as int);
                assert(self.games@.take(k as int + 1).take(k as int) == self.games@.take(k as int));
                lemma_power_nonneg(superset_of(self.games@[k as int].sets@));
            }
            let p = self.games[k].superset().power();
            sum = sum + p;
            k = k + 1;
        }
        assert(self.games@.take(k as int) == self.games@);
        sum
    }
}

/// The words of a piece of text: the pieces between spaces that are not empty.
pub open spec fn words_of(s: Seq<char>) -> Seq<Seq<char>> {
    split_on(s, ' ').filter(|w: Seq<char>| w.len() > 0)
}

/// An item `count colour`: its first word is a count that fits in a `u32`.
pub open spec fn item_ok(item: Seq<char>) -> bool {
    let ws = words_of(item);
    &&& ws.len() >= 2
    &&& ws[0].len() > 0
    &&& all_digits(ws[0])
    &&& decimal(ws[0]) <= u32::MAX
}

/// The handful after the items `items`: each sets the count of its colour
/// (`red`, `green`, anything else blue), a later item winning.
pub open spec fn handful(items: Seq<Seq<char>>) -> CubeSet
    decreases items.len(),
{
    if items.len() == 0 {
        CubeSet { red: 0, green: 0, blue: 0 }
    } else {
        let prev = handful(items.drop_last());
        let ws = words_of(items.last());
        let n = decimal(ws[0]) as u32;
        if ws[1] == seq!['r', 'e', 'd'] {
            CubeSet { red: n, ..prev }
        } else if ws[1] == seq!['g', 'r', 'e', 'e', 'n'] {
            CubeSet { green: n, ..prev }
        } else {
            CubeSet { blue: n, ..prev }
        }
    }
}

/// The handfuls of a game line: after the `:`, separated by `;`, their items by `,`.
pub open spec fn game_sets(line: Seq<char>) -> Seq<Seq<Seq<char>>> {
    let colon = first_pos(line, ':');
    split_on(line.subrange(colon + 1, line.len() as int), ';').map_values(|set: Seq<char>| split_on(set, ','))
}

/// A line `Game <id>: <handfuls>`.
pub open spec fn game_ok(line: Seq<char>) -> bool {
    let colon = first_pos(line, ':');
    &&& 5 < colon < line.len()
    &&& all_digits(line.subrange(5, colon))
    &&& decimal(line.subrange(5, colon)) <= u32::MAX
    &&& forall|i: int, j: int|
        0 <= i < game_sets(line).len() && 0 <= j < game_sets(line)[i].len() ==> item_ok(#[trigger] game_sets(line)[i][j])
}

/// `g` is the game that the line writes.
pub open spec fn game_matches(g: CubeGame, line: Seq<char>) -> bool {
    let colon = first_pos(line, ':');
    &&& g.id == decimal(line.subrange(5, colon))
    &&& g.sets@.len() == game_sets(line).len()
    &&& forall|i: int| 0 <= i < g.sets@.len() ==> #[trigger] g.sets@[i] == handful(game_sets(line)[i])
}

/// The words of `v`.
fn words_in(v: &Vec<char>) -> (r: Vec<Vec<char>>)
    ensures
        r@.len() == words_of(v@).len(),
        forall|i: int| 0 <= i < r@.len() ==> #[trigger] r@[i]@ == words_of(v@)[i],
{
    let pieces = split_chars(v, ' ');
    let ghost ps = split_on(v@, ' ');
    let mut out: Vec<Vec<char>> = Vec::new();
    let mut k: usize = 0;
    while k < pieces.len()
        invariant
            ps == split_on(v@, ' '),
            pieces@.len() == ps.len(),
            forall|i: int| 0 <= i < pieces@.len() ==> #[trigger] pieces@[i]@ == ps[i],
            0 <= k <= pieces@.len(),
            out@.len() == ps.take(k as int).filter(|w: Seq<char>| w.len() > 0).len(),
            forall|i: int| 0 <= i < out@.len() ==> #[trigger] out@[i]@ == ps.take(k as int).filter(|w: Seq<char>| w.len() > 0)[i],
        decreases pieces@.len() - k,
    {
        proof {
            reveal(Seq::filter);
            assert(ps.take(k as int + 1).drop_last() == ps.take(k as int));
        }
        if pieces[k].len() > 0 {
            let w = crate::text::string_chars(&pieces[k]);
            out.push(w);
        }
        k = k + 1;
    }
    assert(ps.take(k as int) == ps);
    out
}

/// Whether the characters are exactly `word`'s.
fn is_word(v: &Vec<char>, word: &Vec<char>) -> (r: bool)
    ensures
        r == (v@ == word@),
{
    if v.len() != word.len() {
        return false;
    }
    let mut i: usize = 0;
    while i < v.len()
        invariant
            v@.len() == word@.len(),
            0 <= i <= v@.len(),
            forall|k: int| 0 <= k < i ==> v@[k] == word@[k],
        decreases v@.len() - i,
    {
        if v[i] != word[i] {
            return false;
        }
        i = i + 1;
    }
    assert(v@ =~= word@);
    true
}

/// The handful that the items of `set` write.
fn parse_handful(set: &Vec<char>) -> (r: CubeSet)
    requires
        forall|j: int| 0 <= j < split_on(set@, ',').len() ==> item_ok(#[trigger] split_on(set@, ',')[j]),
    ensures
        r == handful(split_on(set@, ',')),
{
    let items = split_chars(set, ',');
    let ghost is = split_on(set@, ',');
    let red = vec!['r', 'e', 'd'];
    let green = vec!['g', 'r', 'e', 'e', 'n'];
    assert(red@ == seq!['r', 'e', 'd']);
    assert(green@ == seq!['g', 'r', 'e', 'e', 'n']);
    let mut cur = CubeSet { red: 0, green: 0, blue: 0 };
    let mut k: usize = 0;
    while k < items.len()
        invariant
            is == split_on(set@, ','),
            forall|j: int| 0 <= j < is.len() ==> item_ok(#[trigger] is[j]),
            items@.len() == is.len(),
            forall|i: int| 0 <= i < items@.len() ==> #[trigger] items@[i]@ == is[i],
            red@ == seq!['r', 'e', 'd'],
            green@ == seq!['g', 'r', 'e', 'e', 'n'],
            0 <= k <= items@.len(),
            cur == handful(is.take(k as int)),
        decreases items@.len() - k,
    {
        assert(is.take(k as int + 1).drop_last() == is.take(k as int));
        assert(items@[k as int]@ == is[k as int]);
        assert(item_ok(is[k as int]));
        let ws = words_in(&items[k]);
        assert(ws@[0]@.subrange(0, ws@[0]@.len() as int) == ws@[0]@);
        let n = match parse_u64(&ws[0], 0, ws[0].len()) {
            Some(v) => v as u32,
            None => 0,
        };
        if is_word(&ws[1], &red) {
            cur = CubeSet { red: n, ..cur };
        } else if is_word(&ws[1], &green) {
            cur = CubeSet { green: n, ..cur };
        } else {
            cur = CubeSet { blue: n, ..cur };
        }
        k = k + 1;
    }
    assert(is.take(k as int) == is);
    cur
}

/// The game that a line writes.
fn parse_game(line: &Vec<char>) -> (r: CubeGame)
    requires
        game_ok(line@),
    ensures
        game_matches(r, line@),
{
    let colon = find_char(line, ':');
    let len = line.len();
    assert(colon < len);
    let id = match parse_u64(line, 5, colon) {
        Some(v) => v as u32,
        None => 0,
    };
    let mut rest: Vec<char> = Vec::new();
    let mut j: usize = colon + 1;
    while j < line.len()
        invariant
            colon < line@.len(),
            colon + 1 <= j <= line@.len(),
            rest@ == line@.subrange(colon + 1, j as int),
        decreases line@.len() - j,
    {
        rest.push(line[j]);
        assert(line@.subrange(colon + 1, j + 1) == line@.subrange(colon + 1, j as int).push(line@[j as int]));
        j = j + 1;
    }
    let parts = split_chars(&rest, ';');
    let ghost gs = game_sets(line@);
    let mut sets: Vec<CubeSet> = Vec::new();
    let mut k: usize = 0;
    while k < parts.len()
        invariant
            gs == game_sets(line@),
            game_ok(line@),
            colon == first_pos(line@, ':'),
            rest@ == line@.subrange(colon + 1, line@.len() as int),
            parts@.len() == split_on(rest@, ';').len(),
            forall|i: int| 0 <= i < parts@.len() ==> #[trigger] parts@[i]@ == split_on(rest@, ';')[i],
            0 <= k <= parts@.len(),
            sets@.len() == k,
            forall|i: int| 0 <= i < k ==> #[trigger] sets@[i] == handful(gs[i]),
        decreases parts@.len() - k,
    {
        assert(gs[k as int] == split_on(parts@[k as int]@, ','));
        assert forall|jj: int| 0 <= jj < split_on(parts@[k as int]@, ',').len() implies item_ok(
            #[trigger] split_on(parts@[k as int]@, ',')[jj],
        ) by {
            assert(item_ok(gs[k as int][jj]));
        }
        sets.push(parse_handful(&parts[k]));
        k = k + 1;
    }
    CubeGame { id, sets }
}

impl State {
    /// One game per line of the text, after the blanks at either end are cut.
    pub fn from_string(contents: String) -> (r: Self)
        requires
            forall|i: int| 0 <= i < lines_of(trim(contents@)).len() ==> game_ok(#[trigger] lines_of(trim(contents@))[i]),
        ensures
            r.games@.len() == lines_of(trim(contents@)).len(),
            forall|i: int| 0 <= i < r.games@.len() ==> game_matches(#[trigger] r.games@[i], lines_of(trim(contents@))[i]),
    {
        let cs = chars_of(contents.as_str());
        let t = trimmed(&cs);
        let rows = split_lines(&t);
        let mut games: Vec<CubeGame> = Vec::new();
        let mut k: usize = 0;
        while k < rows.len()
            invariant
                t@ == trim(contents@),
                rows@.len() == lines_of(t@).len(),
                forall|i: int| 0 <= i < rows@.len() ==> #[trigger] rows@[i]@ == lines_of(t@)[i],
                forall|i: int| 0 <= i < lines_of(t@).len() ==> game_ok(#[trigger] lines_of(t@)[i]),
                0 <= k <= rows@.len(),
                games@.len() == k,
                forall|i: int| 0 <= i < k ==> game_matches(#[trigger] games@[i], lines_of(t@)[i]),
            decreases rows@.len() - k,
        {
            assert(rows@[k as int]@ == lines_of(t@)[k as int]);
            games.push(parse_game(&rows[k]));
            k = k + 1;
        }
        Self { games }
    }
}

} // verus!
