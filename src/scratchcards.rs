//! Scratchcards: each matching number wins a copy of one of the next cards.
use vstd::prelude::*;
use std::collections::HashMap;
use vstd::map::Map;
use crate::text::{chars_of, split_chars, split_on, lines_of, split_lines, first_pos, find_char, parse_u64,
    all_digits, decimal};
use vstd::arithmetic::power2::{pow2, lemma2_to64, lemma_pow2_strictly_increases};

verus! {

broadcast use vstd::std_specs::hash::group_hash_axioms;

pub struct ScratchCard {
    pub card_number: u32,
    pub win_numbers: Vec<u32>,
    pub card_numbers: Vec<u32>,
}

/// The card's numbers that are also winning numbers, in order.
pub open spec fn matching(c: ScratchCard) -> Seq<u32> {
    c.card_numbers@.filter(|n: u32| c.win_numbers@.contains(n))
}

/// Points double with each match after the first.
pub open spec fn points_for(m: nat) -> nat
    decreases m,
{
    if m == 0 {
        0
    } else if m == 1 {
        1
    } else {
        2 * points_for((m - 1) as nat)
    }
}

/// The first card numbered `n`.
pub open spec fn find_card(cards: Seq<ScratchCard>, n: int) -> Option<ScratchCard>
    decreases cards.len(),
{
    if cards.len() == 0 {
        None
    } else if cards[0].card_number == n {
        Some(cards[0])
    } else {
        find_card(cards.drop_first(), n)
    }
}

/// The copies won, all rounds counted, by the card numbered `x`.
pub open spec fn won_by_number(cards: Seq<ScratchCard>, x: int) -> int
    decreases u32::MAX + 1 - x, 1int, 0int,
{
    if x < 0 || x > u32::MAX {
        0
    } else {
        match find_card(cards, x) {
            Some(c) => matching(c).len() + won_after(cards, x, matching(c).len() as int),
            None => 0,
        }
    }
}

/// The copies won, all rounds counted, by the card `c`.
pub open spec fn won_by(cards: Seq<ScratchCard>, c: ScratchCard) -> int {
    matching(c).len() + won_after(cards, c.card_number as int, matching(c).len() as int)
}

/// The copies won by the `k` cards numbered right after `x`.
pub open spec fn won_after(cards: Seq<ScratchCard>, x: int, k: int) -> int
    decreases u32::MAX + 1 - x, 0int, k,
{
    if k <= 0 || x < 0 {
        0
    } else {
        won_after(cards, x, k - 1) + if x + k <= u32::MAX {
            won_by_number(cards, x + k)
        } else {
            0
        }
    }
}

/// Each remembered total is the true one.
pub open spec fn memo_ok(cards: Seq<ScratchCard>, counts: Map<u32, u32>) -> bool {
    forall|k: u32| #[trigger] counts.contains_key(k) ==> counts[k] == won_by_number(cards, k as int)
}

proof fn lemma_find_card(cards: Seq<ScratchCard>, n: int)
    ensures
        find_card(cards, n) matches Some(c) ==> c.card_number == n && exists|i: int|
            0 <= i < cards.len() && cards[i] == c,
    decreases cards.len(),
{
    if cards.len() > 0 {
        lemma_find_card(cards.drop_first(), n);
        if cards[0].card_number != n {
            if let Some(c) = find_card(cards, n) {
                let i = choose|i: int| 0 <= i < cards.drop_first().len() && cards.drop_first()[i] == c;
                assert(cards[i + 1] == c);
            }
        } else {
            assert(cards[0] == cards[0]);
        }
    }
}

proof fn lemma_won_nonneg(cards: Seq<ScratchCard>, x: int)
    ensures
        won_by_number(cards, x) >= 0,
    decreases u32::MAX + 1 - x, 1int, 0int,
{
    if 0 <= x <= u32::MAX {
        if let Some(c) = find_card(cards, x) {
            lemma_won_after_nonneg(cards, x, matching(c).len() as int);
        }
    }
}

proof fn lemma_won_after_nonneg(cards: Seq<ScratchCard>, x: int, k: int)
    ensures
        won_after(cards, x, k) >= 0,
    decreases u32::MAX + 1 - x, 0int, k,
{
    if k > 0 && x >= 0 {
        lemma_won_after_nonneg(cards, x, k - 1);
        if x + k <= u32::MAX {
            lemma_won_nonneg(cards, x + k);
        }
    }
}

proof fn lemma_won_after_mono(cards: Seq<ScratchCard>, x: int, m: int)
    requires
        x >= 0,
    ensures
        forall|k: int| 0 <= k <= m ==> #[trigger] won_after(cards, x, k) <= won_after(cards, x, m),
    decreases m,
{
    if m > 0 {
        lemma_won_after_mono(cards, x, m - 1);
        if x + m <= u32::MAX {
            lemma_won_nonneg(cards, x + m);
        }
    }
}

impl ScratchCard {
    pub fn matches(&self) -> (r: Vec<u32>)
        ensures
            r@ == matching(*self),
    {
        let mut r: Vec<u32> = Vec::new();
        let mut k: usize = 0;
        while k < self.card_numbers.len()
            invariant
                0 <= k <= self.card_numbers@.len(),
                r@ == self.card_numbers@.take(k as int).filter(|n: u32| self.win_numbers@.contains(n)),
            decreases self.card_numbers@.len() - k,
        {
            proof {
                reveal(Seq::filter);
                assert(self.card_numbers@.take(k as int + 1).drop_last() == self.card_numbers@.take(k as int));
            }
            let n = self.card_numbers[k];
            let mut found = false;
            let mut j: usize = 0;
            while j < self.win_numbers.len()
                invariant
                    0 <= j <= self.win_numbers@.len(),
                    found == exists|i: int| 0 <= i < j && self.win_numbers@[i] == n,
                decreases self.win_numbers@.len() - j,
            {
                if self.win_numbers[j] == n {
                    found = true;
                }
                j = j + 1;
            }
            proof {
                if self.win_numbers@.contains(n) {
                    let i = choose|i: int| 0 <= i < self.win_numbers@.len() && self.win_numbers@[i] == n;
                    assert(self.win_numbers@[i] == n);
                }
            }
            if found {
                r.push(n);
            }
            k = k + 1;
        }
        assert(self.card_numbers@.take(k as int) == self.card_numbers@);
        r
    }

    /// The numbers of the cards that this card wins a copy of.
    pub fn won_card_numbers(&self) -> (r: Vec<u32>)
        requires
            self.card_number + 1 + matching(*self).len() <= u32::MAX,
        ensures
            r@.len() == matching(*self).len(),
            forall|i: int| 0 <= i < r@.len() ==> #[trigger] r@[i] == self.card_number + 1 + i,
    {
        let m = self.matches();
        let mut r: Vec<u32> = Vec::new();
        let mut k: usize = 0;
        while k < m.len()
            invariant
                m@ == matching(*self),
                self.card_number + 1 + m@.len() <= u32::MAX,
                0 <= k <= m@.len(),
                r@.len() == k,
                forall|i: int| 0 <= i < k ==> #[trigger] r@[i] == self.card_number + 1 + i,
            decreases m@.len() - k,
        {
            r.push(self.card_number + 1 + k as u32);
            k = k + 1;
        }
        r
    }

    pub fn points(&self) -> (r: u32)
        requires
            matching(*self).len() <= 32,
        ensures
            r == points_for(matching(*self).len()),
    {
        let m = self.matches().len();
        let mut acc: u32 = 0;
        let mut k: usize = 0;
        while k < m
            invariant
                m == matching(*self).len(),
                m <= 32,
                0 <= k <= m,
                acc == points_for(k as nat),
            decreases m - k,
        {
            proof {
                lemma_points_pow2(k as nat);
                if k >= 1 {
                    lemma_pow2_strictly_increases((k - 1) as nat, 31);
                    lemma2_to64();
                }
            }
            acc = if acc == 0 {
                1
            } else {
                acc * 2
            };
            k = k + 1;
        }
        acc
    }
}

proof fn lemma_points_pow2(k: nat)
    ensures
        k >= 1 ==> points_for(k) == pow2((k - 1) as nat),
        k == 0 ==> points_for(k) == 0,
        points_for(k + 1) == if k == 0 { 1 } else { 2 * points_for(k) },
    decreases k,
{
    if k > 1 {
        lemma_points_pow2((k - 1) as nat);
        vstd::arithmetic::power2::lemma_pow2_unfold((k - 1) as nat);
    } else if k == 1 {
        lemma2_to64();
    }
}

/// The points of the first `k` cards, added up.
pub open spec fn total_points(cards: Seq<ScratchCard>, k: int) -> int
    decreases k,
{
    if k <= 0 || k > cards.len() {
        0
    } else {
        total_points(cards, k - 1) + points_for(matching(cards[k - 1]).len())
    }
}

/// The copies won by the first `k` cards, added up.
pub open spec fn total_won(cards: Seq<ScratchCard>, k: int) -> int
    decreases k,
{
    if k <= 0 || k > cards.len() {
        0
    } else {
        total_won(cards, k - 1) + won_by(cards, cards[k - 1])
    }
}

proof fn lemma_total_points_mono(cards: Seq<ScratchCard>, k: int)
    requires
        0 <= k <= cards.len(),
    ensures
        0 <= total_points(cards, k) <= total_points(cards, cards.len() as int),
    decreases cards.len() - k,
{
    lemma_total_points_nonneg(cards, k);
    if k < cards.len() {
        lemma_total_points_mono(cards, k + 1);
    }
}

proof fn lemma_total_points_nonneg(cards: Seq<ScratchCard>, k: int)
    ensures
        total_points(cards, k) >= 0,
    decreases k,
{
    if !(k <= 0 || k > cards.len()) {
        lemma_total_points_nonneg(cards, k - 1);
    }
}

proof fn lemma_total_won_mono(cards: Seq<ScratchCard>, k: int)
    requires
        0 <= k <= cards.len(),
    ensures
        0 <= total_won(cards, k) <= total_won(cards, cards.len() as int),
    decreases cards.len() - k,
{
    lemma_total_won_nonneg(cards, k);
    if k < cards.len() {
        lemma_total_won_mono(cards, k + 1);
        lemma_won_by_nonneg(cards, cards[k]);
    }
}

proof fn lemma_total_won_nonneg(cards: Seq<ScratchCard>, k: int)
    ensures
        total_won(cards, k) >= 0,
    decreases k,
{
    if !(k <= 0 || k > cards.len()) {
        lemma_total_won_nonneg(cards, k - 1);
        lemma_won_by_nonneg(cards, cards[k - 1]);
    }
}

proof fn lemma_won_by_nonneg(cards: Seq<ScratchCard>, c: ScratchCard)
    ensures
        won_by(cards, c) >= 0,
{
    lemma_won_after_nonneg(cards, c.card_number as int, matching(c).len() as int);
}

/// With card numbers unique, each card is the first of its number.
proof fn lemma_find_unique(cards: Seq<ScratchCard>, k: int)
    requires
        0 <= k < cards.len(),
        forall|i: int, j: int| 0 <= i < j < cards.len() ==> cards[i].card_number != cards[j].card_number,
    ensures
        find_card(cards, cards[k].card_number as int) == Some(cards[k]),
    decreases k,
{
    if k > 0 {
        let t = cards.drop_first();
        assert(cards[0].card_number != cards[k].card_number);
        assert forall|i: int, j: int| 0 <= i < j < t.len() implies t[i].card_number != t[j].card_number by {
            assert(t[i] == cards[i + 1] && t[j] == cards[j + 1]);
        }
        lemma_find_unique(t, k - 1);
        assert(t[k - 1] == cards[k]);
    }
}

/// The numbers of a piece of text: its words between spaces, read as decimals.
pub open spec fn numbers_of(s: Seq<char>) -> Seq<int> {
    split_on(s, ' ').filter(|w: Seq<char>| w.len() > 0).map_values(|w: Seq<char>| decimal(w))
}

/// Every word of the text is a number that fits in a `u32`.
pub open spec fn numbers_ok(s: Seq<char>) -> bool {
    forall|j: int|
        0 <= j < split_on(s, ' ').len() && (#[trigger] split_on(s, ' ')[j]).len() > 0 ==> all_digits(
            split_on(s, ' ')[j],
        ) && decimal(split_on(s, ' ')[j]) <= u32::MAX
}

/// A line `Card <n>: <winning numbers> | <numbers held>`; the card number is
/// the last word before the colon.
pub open spec fn card_ok(line: Seq<char>) -> bool {
    let colon = first_pos(line, ':');
    let bar = first_pos(line, '|');
    &&& 4 <= colon < bar < line.len()
    &&& numbers_of(line.subrange(4, colon)).len() >= 1
    &&& numbers_ok(line.subrange(4, colon))
    &&& numbers_ok(line.subrange(colon + 1, bar))
    &&& numbers_ok(line.subrange(bar + 1, line.len() as int))
}

/// `c` is the card that the line writes.
pub open spec fn card_matches(c: ScratchCard, line: Seq<char>) -> bool {
    let colon = first_pos(line, ':');
    let bar = first_pos(line, '|');
    &&& c.card_number == numbers_of(line.subrange(4, colon)).last()
    &&& c.win_numbers@.map_values(|v: u32| v as int) == numbers_of(line.subrange(colon + 1, bar))
    &&& c.card_numbers@.map_values(|v: u32| v as int) == numbers_of(line.subrange(bar + 1, line.len() as int))
}

/// The numbers of `line[a..b]`.
fn parse_numbers(line: &Vec<char>, a: usize, b: usize) -> (r: Vec<u32>)
    requires
        a <= b <= line@.len(),
        numbers_ok(line@.subrange(a as int, b as int)),
    ensures
        r@.map_values(|v: u32| v as int) == numbers_of(line@.subrange(a as int, b as int)),
{
    let ghost t = line@.subrange(a as int, b as int);
    let mut rest: Vec<char> = Vec::new();
    let mut j: usize = a;
    while j < b
        invariant
            a <= j <= b <= line@.len(),
            rest@ == line@.subrange(a as int, j as int),
        decreases b - j,
    {
        rest.push(line[j]);
        assert(line@.subrange(a as int, j + 1) == line@.subrange(a as int, j as int).push(line@[j as int]));
        j = j + 1;
    }
    let pieces = split_chars(&rest, ' ');
    let ghost ps = split_on(rest@, ' ');
    let mut out: Vec<u32> = Vec::new();
    let mut k: usize = 0;
    while k < pieces.len()
        invariant
            rest@ == t,
            ps == split_on(rest@, ' '),
            numbers_ok(t),
            pieces@.len() == ps.len(),
            forall|i: int| 0 <= i < pieces@.len() ==> #[trigger] pieces@[i]@ == ps[i],
            0 <= k <= pieces@.len(),
            out@.map_values(|v: u32| v as int) == ps.take(k as int).filter(|w: Seq<char>| w.len() > 0).map_values(
                |w: Seq<char>| decimal(w),
            ),
        decreases pieces@.len() - k,
    {
        proof {
            reveal(Seq::filter);
            assert(ps.take(k as int + 1).drop_last() == ps.take(k as int));
        }
        let piece = &pieces[k];
        if piece.len() > 0 {
            assert(piece@.subrange(0, piece@.len() as int) == piece@);
            let v = match parse_u64(piece, 0, piece.len()) {
                Some(v) => v as u32,
                None => 0,
            };
            let ghost before = out@;
            out.push(v);
            assert(out@.map_values(|v: u32| v as int) =~= before.map_values(|v: u32| v as int).push(decimal(ps[k as int])));
        }
        k = k + 1;
    }
    assert(ps.take(k as int) == ps);
    out
}

/// The card that a line writes.
fn parse_card(line: &Vec<char>) -> (r: ScratchCard)
    requires
        card_ok(line@),
    ensures
        card_matches(r, line@),
{
    let colon = find_char(line, ':');
    let bar = find_char(line, '|');
    let len = line.len();
    assert(bar < len);
    let head = parse_numbers(line, 4, colon);
    assert(head@.map_values(|v: u32| v as int).last() == head@.last() as int);
    let card_number = head[head.len() - 1];
    let win_numbers = parse_numbers(line, colon + 1, bar);
    let card_numbers = parse_numbers(line, bar + 1, line.len());
    ScratchCard { card_number, win_numbers, card_numbers }
}

pub struct Puzzle {
    pub cards: Vec<ScratchCard>,
}

impl Puzzle {
    pub fn card_by_number(&self, card_number: u32) -> (r: Option<&ScratchCard>)
        ensures
            match r {
                Some(c) => find_card(self.cards@, card_number as int) == Some(*c),
                None => find_card(self.cards@, card_number as int) is None,
            },
    {
        let mut k: usize = 0;
        assert(self.cards@.subrange(0, self.cards@.len() as int) == self.cards@);
        while k < self.cards.len()
            invariant
                0 <= k <= self.cards@.len(),
                find_card(self.cards@, card_number as int) == find_card(
                    self.cards@.subrange(k as int, self.cards@.len() as int),
                    card_number as int,
                ),
            decreases self.cards@.len() - k,
        {
            assert(self.cards@.subrange(k as int, self.cards@.len() as int).drop_first()
                == self.cards@.subrange(k as int + 1, self.cards@.len() as int));
            if self.cards[k].card_number == card_number {
                return Some(&self.cards[k]);
            }
            k = k + 1;
        }
        None
    }

    /// The copies won, all rounds counted, by `card`, which must be the first
    /// card of its number. `counts` remembers the totals already known, by card
    /// number, and learns this one.
    pub fn count_won_cards(&self, card: &ScratchCard, counts: &mut HashMap<u32, u32>) -> (r: u32)
        requires
            find_card(self.cards@, card.card_number as int) == Some(*card),
            memo_ok(self.cards@, old(counts)@),
            forall|i: int| 0 <= i < self.cards@.len() ==> #[trigger] self.cards@[i].card_number + 1 + matching(self.cards@[i]).len() <= u32::MAX,
            forall|x: int| #[trigger] won_by_number(self.cards@, x) <= u32::MAX,
        ensures
            r == won_by(self.cards@, *card),
            memo_ok(self.cards@, final(counts)@),
        decreases u32::MAX + 1 - card.card_number,
    {
        proof {
            lemma_find_card(self.cards@, card.card_number as int);
            let i = choose|i: int| 0 <= i < self.cards@.len() && self.cards@[i] == *card;
            assert(self.cards@[i].card_number + 1 + matching(self.cards@[i]).len() <= u32::MAX);
        }
        match counts.get(&card.card_number) {
            Some(c) => {
                return *c;
            },
            None => {},
        }
        let ghost x = card.card_number as int;
        let ghost cards = self.cards@;
        let won = card.won_card_numbers();
        let ghost m = won@.len() as int;
        proof {
            lemma_won_nonneg(cards, x);
            lemma_won_after_mono(cards, x, m);
            assert(won_by_number(cards, x) == won_by(cards, *card));
        }
        let mut count: u32 = won.len() as u32;
        let mut j: usize = 0;
        while j < won.len()
            invariant
                cards == self.cards@,
                x == card.card_number,
                m == won@.len(),
                m == matching(*card).len(),
                find_card(cards, x) == Some(*card),
                forall|i: int| 0 <= i < won@.len() ==> #[trigger] won@[i] == x + 1 + i,
                forall|i: int| 0 <= i < self.cards@.len() ==> #[trigger] self.cards@[i].card_number + 1 + matching(self.cards@[i]).len() <= u32::MAX,
                forall|x: int| #[trigger] won_by_number(self.cards@, x) <= u32::MAX,
                forall|k: int| 0 <= k <= m ==> #[trigger] won_after(cards, x, k) <= won_after(cards, x, m),
                won_by(cards, *card) <= u32::MAX,
                memo_ok(cards, counts@),
                0 <= j <= m,
                count == m + won_after(cards, x, j as int),
            decreases m - j,
        {
            let n = won[j];
            proof {
                lemma_won_nonneg(cards, n as int);
                assert(won_after(cards, x, j + 1) == won_after(cards, x, j as int) + won_by_number(cards, x + j + 1));
            }
            match self.card_by_number(n) {
                Some(c2) => {
                    proof {
                        lemma_find_card(cards, n as int);
                    }
                    let w = self.count_won_cards(c2, counts);
                    count = count + w;
                },
                None => {},
            }
            j = j + 1;
        }
        counts.insert(card.card_number, count);
        count
    }


    /// The points of all cards, added up.
    pub fn pt1(&self) -> (r: u32)
        requires
            forall|i: int| 0 <= i < self.cards@.len() ==> matching(#[trigger] self.cards@[i]).len() <= 32,
            total_points(self.cards@, self.cards@.len() as int) <= u32::MAX,
        ensures
            r == total_points(self.cards@, self.cards@.len() as int),
    {
        let mut acc: u32 = 0;
        let mut k: usize = 0;
        while k < self.cards.len()
            invariant
                forall|i: int| 0 <= i < self.cards@.len() ==> matching(#[trigger] self.cards@[i]).len() <= 32,
                total_points(self.cards@, self.cards@.len() as int) <= u32::MAX,
                0 <= k <= self.cards@.len(),
                acc == total_points(self.cards@, k as int),
            decreases self.cards@.len() - k,
        {
            proof {
                lemma_total_points_mono(self.cards@, k + 1);
            }
            assert(matching(self.cards@[k as int]).len() <= 32);
            let p = self.cards[k].points();
            acc = acc + p;
            k = k + 1;
        }
        acc
    }

    /// All the cards held at the end: the originals and every copy won.
    pub fn pt2(&self) -> (r: u32)
        requires
            forall|i: int, j: int| 0 <= i < j < self.cards@.len() ==> self.cards@[i].card_number != self.cards@[j].card_number,
            forall|i: int| 0 <= i < self.cards@.len() ==> #[trigger] self.cards@[i].card_number + 1 + matching(self.cards@[i]).len() <= u32::MAX,
            forall|x: int| #[trigger] won_by_number(self.cards@, x) <= u32::MAX,
            self.cards@.len() + total_won(self.cards@, self.cards@.len() as int) <= u32::MAX,
        ensures
            r == self.cards@.len() + total_won(self.cards@, self.cards@.len() as int),
    {
        let mut counts: HashMap<u32, u32> = HashMap::new();
        let n = self.cards.len();
        let mut acc: u32 = 0;
        let mut k: usize = 0;
        proof {
            lemma_total_won_mono(self.cards@, 0);
        }
        while k < n
            invariant
                n == self.cards@.len(),
                forall|i: int, j: int| 0 <= i < j < self.cards@.len() ==> self.cards@[i].card_number != self.cards@[j].card_number,
                forall|i: int| 0 <= i < self.cards@.len() ==> #[trigger] self.cards@[i].card_number + 1 + matching(self.cards@[i]).len() <= u32::MAX,
                forall|x: int| #[trigger] won_by_number(self.cards@, x) <= u32::MAX,
                n + total_won(self.cards@, n as int) <= u32::MAX,
                memo_ok(self.cards@, counts@),
                0 <= k <= n,
                acc == total_won(self.cards@, k as int),
            decreases n - k,
        {
            proof {
                lemma_total_won_mono(self.cards@, k + 1);
                lemma_find_unique(self.cards@, k as int);
            }
            let w = self.count_won_cards(&self.cards[k], &mut counts);
            acc = acc + w;
            k = k + 1;
        }
        (n as u32) + acc
    }


    /// One card per line: `Card <n>: <winning numbers> | <numbers held>`.
    pub fn load(contents: String) -> (r: Self)
        requires
            forall|i: int| 0 <= i < lines_of(contents@).len() ==> card_ok(#[trigger] lines_of(contents@)[i]),
        ensures
            r.cards@.len() == lines_of(contents@).len(),
            forall|i: int| 0 <= i < r.cards@.len() ==> card_matches(#[trigger] r.cards@[i], lines_of(contents@)[i]),
    {
        let cs = chars_of(contents.as_str());
        let rows = split_lines(&cs);
        let mut cards: Vec<ScratchCard> = Vec::new();
        let mut k: usize = 0;
        while k < rows.len()
            invariant
                cs@ == contents@,
                rows@.len() == lines_of(cs@).len(),
                forall|i: int| 0 <= i < rows@.len() ==> #[trigger] rows@[i]@ == lines_of(cs@)[i],
                forall|i: int| 0 <= i < lines_of(cs@).len() ==> card_ok(#[trigger] lines_of(cs@)[i]),
                0 <= k <= rows@.len(),
                cards@.len() == k,
                forall|i: int| 0 <= i < k ==> card_matches(#[trigger] cards@[i], lines_of(cs@)[i]),
            decreases rows@.len() - k,
        {
            assert(rows@[k as int]@ == lines_of(cs@)[k as int]);
            cards.push(parse_card(&rows[k]));
            k = k + 1;
        }
        Self { cards }
    }

}

} // verus!
