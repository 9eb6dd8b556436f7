//! Camel cards: hands of cards with a bid, ranked by type and then card by card.
use vstd::prelude::*;
use std::cmp::Ordering;
use crate::text::{chars_of, parse_u64, is_digit, digit_of, decimal, all_digits, first_pos, find_char, lines_of, split_lines};

verus! {

/// A label with a strength: a digit, `T`, `J`, `Q`, `K`, `A`, or `*` for a joker.
pub open spec fn card_ok(c: char) -> bool {
    c == 'A' || c == 'K' || c == 'Q' || c == 'J' || c == 'T' || c == '*' || is_digit(c)
}

pub open spec fn strength_of(c: char) -> int {
    if c == 'A' {
        14
    } else if c == 'K' {
        13
    } else if c == 'Q' {
        12
    } else if c == 'J' {
        11
    } else if c == 'T' {
        10
    } else if c == '*' {
        1
    } else {
        digit_of(c)
    }
}

#[derive(Clone, Copy, Debug, PartialEq, Eq, Structural)]
pub struct Card {
    pub label: char,
    pub strength: u32,
}

impl Card {
    pub fn new(label: char) -> (r: Self)
        requires
            card_ok(label),
        ensures
            r.label == label,
            r.strength == strength_of(label),
    {
        let strength: u32 = if label == 'A' {
            14
        } else if label == 'K' {
            13
        } else if label == 'Q' {
            12
        } else if label == 'J' {
            11
        } else if label == 'T' {
            10
        } else if label == '*' {
            1
        } else {
            label as u32 - '0' as u32
        };
        Self { label, strength }
    }
}

#[derive(Clone, Copy, Debug, PartialEq, Eq, Structural)]
pub enum HandType {
    HighCard,
    OnePair,
    TwoPair,
    ThreeOfAKind,
    FullHouse,
    FourOfAKind,
    FiveOfAKind,
}

/// The order of the hand types, weakest first.
pub open spec fn type_rank(t: HandType) -> int {
    match t {
        HandType::HighCard => 1,
        HandType::OnePair => 2,
        HandType::TwoPair => 3,
        HandType::ThreeOfAKind => 4,
        HandType::FullHouse => 5,
        HandType::FourOfAKind => 6,
        HandType::FiveOfAKind => 7,
    }
}

fn type_order(t: HandType) -> (r: u8)
    ensures
        r == type_rank(t),
{
    match t {
        HandType::HighCard => 1,
        HandType::OnePair => 2,
        HandType::TwoPair => 3,
        HandType::ThreeOfAKind => 4,
        HandType::FullHouse => 5,
        HandType::FourOfAKind => 6,
        HandType::FiveOfAKind => 7,
    }
}

pub struct Hand {
    pub cards: Vec<Card>,
    pub bid: u32,
}

pub struct IdentifiedHand<'a> {
    pub hand: &'a Hand,
    pub hand_type: HandType,
}

pub struct RankedHand<'b> {
    pub identified_hand: &'b IdentifiedHand<'b>,
    pub rank: u32,
}

impl RankedHand<'_> {
    pub fn winnings(&self) -> (r: u32)
        requires
            self.identified_hand.hand.bid * self.rank <= u32::MAX,
        ensures
            r == self.identified_hand.hand.bid * self.rank,
    {
        self.identified_hand.hand.bid * self.rank
    }
}

pub open spec fn cmp_int(a: int, b: int) -> Ordering {
    if a < b {
        Ordering::Less
    } else if a > b {
        Ordering::Greater
    } else {
        Ordering::Equal
    }
}

/// Card by card from index `k`, the first pair of different strengths decides.
pub open spec fn cmp_cards(a: Seq<Card>, b: Seq<Card>, k: int) -> Ordering
    decreases a.len() - k,
{
    if k < 0 || k >= a.len() || k >= b.len() {
        Ordering::Equal
    } else if a[k].strength != b[k].strength {
        cmp_int(a[k].strength as int, b[k].strength as int)
    } else {
        cmp_cards(a, b, k + 1)
    }
}

/// The type decides first, then the cards in order.
pub open spec fn cmp_typed(ta: HandType, a: Seq<Card>, tb: HandType, b: Seq<Card>) -> Ordering {
    if type_rank(ta) != type_rank(tb) {
        cmp_int(type_rank(ta), type_rank(tb))
    } else {
        cmp_cards(a, b, 0)
    }
}

pub open spec fn cmp_hands(a: IdentifiedHand, b: IdentifiedHand) -> Ordering {
    cmp_typed(a.hand_type, a.hand.cards@, b.hand_type, b.hand.cards@)
}

impl IdentifiedHand<'_> {
    pub fn compare(&self, other: &Self) -> (r: Ordering)
        ensures
            r == cmp_hands(*self, *other),
    {
        let a = type_order(self.hand_type);
        let b = type_order(other.hand_type);
        if a < b {
            return Ordering::Less;
        }
        if a > b {
            return Ordering::Greater;
        }
        let xs = &self.hand.cards;
        let ys = &other.hand.cards;
        let mut k: usize = 0;
        while k < xs.len() && k < ys.len()
            invariant
                xs@ == self.hand.cards@,
                ys@ == other.hand.cards@,
                type_rank(self.hand_type) == type_rank(other.hand_type),
                0 <= k,
                k <= xs@.len() || k <= ys@.len(),
                cmp_cards(xs@, ys@, 0) == cmp_cards(xs@, ys@, k as int),
            decreases xs@.len() - k,
        {
            let s = xs[k].strength;
            let t = ys[k].strength;
            if s < t {
                return Ordering::Less;
            }
            if s > t {
                return Ordering::Greater;
            }
            k = k + 1;
        }
        Ordering::Equal
    }
}

/// A line `cards bid`: card labels, one space, and the bid in decimal digits.
pub open spec fn hand_text_ok(s: Seq<char>) -> bool {
    let sp = first_pos(s, ' ');
    &&& sp < s.len()
    &&& forall|i: int| 0 <= i < sp ==> card_ok(#[trigger] s[i])
    &&& sp + 1 < s.len()
    &&& all_digits(s.subrange(sp + 1, s.len() as int))
    &&& decimal(s.subrange(sp + 1, s.len() as int)) <= u32::MAX
}

/// `h` is the hand that the line `s` writes.
pub open spec fn hand_matches(h: Hand, s: Seq<char>) -> bool {
    let sp = first_pos(s, ' ');
    &&& h.cards@.len() == sp
    &&& forall|i: int|
        0 <= i < sp ==> (#[trigger] h.cards@[i]).label == s[i] && h.cards@[i].strength
            == strength_of(s[i])
    &&& h.bid == decimal(s.subrange(sp + 1, s.len() as int))
}

/// How many of the first `k` labels are `c`.
pub open spec fn occ(ls: Seq<char>, c: char, k: int) -> int
    decreases k,
{
    if k <= 0 || k > ls.len() {
        0
    } else {
        occ(ls, c, k - 1) + if ls[k - 1] == c {
            1int
        } else {
            0int
        }
    }
}

pub open spec fn is_first(ls: Seq<char>, i: int) -> bool {
    forall|j: int| 0 <= j < i ==> ls[j] != ls[i]
}

/// Different labels other than the joker among the first `k`.
pub open spec fn distinct_upto(ls: Seq<char>, k: int) -> int
    decreases k,
{
    if k <= 0 || k > ls.len() {
        0
    } else {
        distinct_upto(ls, k - 1) + if ls[k - 1] != '*' && is_first(ls, k - 1) {
            1int
        } else {
            0int
        }
    }
}

/// Different labels other than the joker among the first `k` that the hand holds at least twice.
pub open spec fn pairs_upto(ls: Seq<char>, k: int) -> int
    decreases k,
{
    if k <= 0 || k > ls.len() {
        0
    } else {
        pairs_upto(ls, k - 1) + if ls[k - 1] != '*' && is_first(ls, k - 1) && occ(
            ls,
            ls[k - 1],
            ls.len() as int,
        ) >= 2 {
            1int
        } else {
            0int
        }
    }
}

/// The largest count of a label other than the joker among the first `k`.
pub open spec fn max_upto(ls: Seq<char>, k: int) -> int
    decreases k,
{
    if k <= 0 || k > ls.len() {
        0
    } else {
        let prev = max_upto(ls, k - 1);
        let c = occ(ls, ls[k - 1], ls.len() as int);
        if ls[k - 1] != '*' && c > prev {
            c
        } else {
            prev
        }
    }
}

/// The type from the largest count (jokers added), the number of different
/// labels, and how many of them come at least twice.
pub open spec fn type_for(m: int, d: int, p: int) -> HandType {
    if m == 5 {
        HandType::FiveOfAKind
    } else if m == 4 {
        HandType::FourOfAKind
    } else if m == 3 {
        if d == 2 {
            HandType::FullHouse
        } else {
            HandType::ThreeOfAKind
        }
    } else if m == 2 {
        if p == 2 {
            HandType::TwoPair
        } else {
            HandType::OnePair
        }
    } else {
        HandType::HighCard
    }
}

pub open spec fn labels(cards: Seq<Card>) -> Seq<char> {
    cards.map_values(|c: Card| c.label)
}

/// The type of a hand whose labels are `ls`, jokers joining the largest group.
pub open spec fn hand_type_of(ls: Seq<char>) -> HandType {
    let n = ls.len() as int;
    type_for(max_upto(ls, n) + occ(ls, '*', n), distinct_upto(ls, n), pairs_upto(ls, n))
}

proof fn lemma_occ_bound(ls: Seq<char>, c: char, k: int)
    requires
        0 <= k <= ls.len(),
    ensures
        0 <= occ(ls, c, k) <= k,
    decreases k,
{
    if k > 0 {
        lemma_occ_bound(ls, c, k - 1);
    }
}

/// How many cards of `cards` carry the label `c`.
fn count_label(cards: &Vec<Card>, c: char) -> (r: usize)
    ensures
        r == occ(labels(cards@), c, cards@.len() as int),
{
    let ghost ls = labels(cards@);
    let mut n: usize = 0;
    let mut i: usize = 0;
    while i < cards.len()
        invariant
            ls == labels(cards@),
            0 <= i <= cards@.len(),
            n == occ(ls, c, i as int),
            n <= i,
        decreases cards@.len() - i,
    {
        if cards[i].label == c {
            n = n + 1;
        }
        i = i + 1;
    }
    n
}

/// Whether no card before `i` carries the label of card `i`.
fn first_of_label(cards: &Vec<Card>, i: usize) -> (r: bool)
    requires
        i < cards@.len(),
    ensures
        r == is_first(labels(cards@), i as int),
{
    let ghost ls = labels(cards@);
    let mut j: usize = 0;
    while j < i
        invariant
            ls == labels(cards@),
            i < cards@.len(),
            0 <= j <= i,
            forall|k: int| 0 <= k < j ==> ls[k] != ls[i as int],
        decreases i - j,
    {
        if cards[j].label == cards[i].label {
            assert(ls[j as int] == ls[i as int]);
            return false;
        }
        j = j + 1;
    }
    true
}

impl Hand {
    pub fn from_string(string: String) -> (r: Self)
        requires
            hand_text_ok(string@),
        ensures
            hand_matches(r, string@),
    {
        let cs = chars_of(string.as_str());
        let sp = find_char(&cs, ' ');
        let mut cards: Vec<Card> = Vec::new();
        let mut i: usize = 0;
        while i < sp
            invariant
                cs@ == string@,
                sp == first_pos(cs@, ' '),
                hand_text_ok(cs@),
                0 <= i <= sp,
                cards@.len() == i,
                forall|k: int|
                    0 <= k < i ==> (#[trigger] cards@[k]).label == cs@[k] && cards@[k].strength
                        == strength_of(cs@[k]),
            decreases sp - i,
        {
            assert(card_ok(cs@[i as int]));
            cards.push(Card::new(cs[i]));
            i = i + 1;
        }
        let bid = match parse_u64(&cs, sp + 1, cs.len()) {
            Some(v) => v as u32,
            None => 0,
        };
        Self { cards, bid }
    }

    pub fn identify(&self) -> (r: IdentifiedHand)
        ensures
            r.hand == self,
            r.hand_type == hand_type_of(labels(self.cards@)),
    {
        let ghost ls = labels(self.cards@);
        let n = self.cards.len();
        let mut distinct: usize = 0;
        let mut pairs: usize = 0;
        let mut most: usize = 0;
        let mut i: usize = 0;
        while i < n
            invariant
                ls == labels(self.cards@),
                n == ls.len(),
                0 <= i <= n,
                distinct == distinct_upto(ls, i as int),
                pairs == pairs_upto(ls, i as int),
                most == max_upto(ls, i as int),
                distinct <= i,
                pairs <= i,
                most <= n,
            decreases n - i,
        {
            let c = self.cards[i].label;
            let k = count_label(&self.cards, c);
            let first = first_of_label(&self.cards, i);
            proof {
                lemma_occ_bound(ls, c, n as int);
            }
            if c != '*' && first {
                distinct = distinct + 1;
                if k >= 2 {
                    pairs = pairs + 1;
                }
            }
            if c != '*' && k > most {
                most = k;
            }
            i = i + 1;
        }
        let jokers = count_label(&self.cards, '*');
        proof {
            lemma_occ_bound(ls, '*', n as int);
        }
        let m = most as u128 + jokers as u128;
        let hand_type = if m == 5 {
            HandType::FiveOfAKind
        } else if m == 4 {
            HandType::FourOfAKind
        } else if m == 3 {
            if distinct == 2 {
                HandType::FullHouse
            } else {
                HandType::ThreeOfAKind
            }
        } else if m == 2 {
            if pairs == 2 {
                HandType::TwoPair
            } else {
                HandType::OnePair
            }
        } else {
            HandType::HighCard
        };
        IdentifiedHand { hand: self, hand_type }
    }
}

/// The text with each `J` turned into a joker `*`.
pub open spec fn with_jokers(s: Seq<char>) -> Seq<char> {
    s.map_values(|c: char| if c == 'J' { '*' } else { c })
}

pub struct Puzzle {
    pub hands: Vec<Hand>,
}

impl Puzzle {
    /// One hand per line.
    pub fn load(contents: String) -> (r: Self)
        requires
            forall|i: int| 0 <= i < lines_of(contents@).len() ==> hand_text_ok(#[trigger] lines_of(contents@)[i]),
        ensures
            r.hands@.len() == lines_of(contents@).len(),
            forall|i: int| 0 <= i < r.hands@.len() ==> hand_matches(#[trigger] r.hands@[i], lines_of(contents@)[i]),
    {
        let cs = chars_of(contents.as_str());
        Self { hands: hands_of(&cs) }
    }

    /// One hand per line, each `J` read as a joker.
    pub fn load_pt2(contents: String) -> (r: Self)
        requires
            forall|i: int|
                0 <= i < lines_of(with_jokers(contents@)).len() ==> hand_text_ok(
                    #[trigger] lines_of(with_jokers(contents@))[i],
                ),
        ensures
            r.hands@.len() == lines_of(with_jokers(contents@)).len(),
            forall|i: int|
                0 <= i < r.hands@.len() ==> hand_matches(
                    #[trigger] r.hands@[i],
                    lines_of(with_jokers(contents@))[i],
                ),
    {
        let cs = chars_of(contents.as_str());
        let mut swapped: Vec<char> = Vec::new();
        let mut i: usize = 0;
        while i < cs.len()
            invariant
                0 <= i <= cs@.len(),
                swapped@ == with_jokers(cs@.take(i as int)),
            decreases cs@.len() - i,
        {
            let c = cs[i];
            swapped.push(if c == 'J' { '*' } else { c });
            assert(with_jokers(cs@.take(i as int + 1)) =~= with_jokers(cs@.take(i as int)).push(
                if c == 'J' { '*' } else { c },
            ));
            i = i + 1;
        }
        assert(cs@.take(i as int) == cs@);
        Self { hands: hands_of(&swapped) }
    }
}

/// The type of the `i`-th hand.
pub open spec fn type_at(hands: Seq<Hand>, i: int) -> HandType {
    hand_type_of(labels(hands[i].cards@))
}

/// The hand `j` ranks below hand `i`: it compares lower, or equal and comes first.
pub open spec fn ranks_below(hands: Seq<Hand>, j: int, i: int) -> bool {
    let o = cmp_typed(type_at(hands, j), hands[j].cards@, type_at(hands, i), hands[i].cards@);
    o == Ordering::Less || (j < i && o == Ordering::Equal)
}

/// How many of the first `k` hands rank below hand `i`.
pub open spec fn below_count(hands: Seq<Hand>, i: int, k: int) -> int
    decreases k,
{
    if k <= 0 || k > hands.len() {
        0
    } else {
        below_count(hands, i, k - 1) + if ranks_below(hands, k - 1, i) {
            1int
        } else {
            0int
        }
    }
}

/// The rank of hand `i`: one more than the hands below it, the weakest hand
/// ranking 1, hands that compare equal ranking in their order.
pub open spec fn rank_of(hands: Seq<Hand>, i: int) -> int {
    1 + below_count(hands, i, hands.len() as int)
}

/// Bid times rank, added up over the first `k` hands.
pub open spec fn winnings_upto(hands: Seq<Hand>, k: int) -> int
    decreases k,
{
    if k <= 0 || k > hands.len() {
        0
    } else {
        winnings_upto(hands, k - 1) + hands[k - 1].bid * rank_of(hands, k - 1)
    }
}

proof fn lemma_below_count_bound(hands: Seq<Hand>, i: int, k: int)
    requires
        0 <= k <= hands.len(),
    ensures
        0 <= below_count(hands, i, k) <= k,
    decreases k,
{
    if k > 0 {
        lemma_below_count_bound(hands, i, k - 1);
    }
}

proof fn lemma_winnings_mono(hands: Seq<Hand>, k: int)
    requires
        0 <= k <= hands.len(),
    ensures
        0 <= winnings_upto(hands, k) <= winnings_upto(hands, hands.len() as int),
    decreases hands.len() - k,
{
    lemma_winnings_nonneg(hands, k);
    if k < hands.len() {
        lemma_winnings_mono(hands, k + 1);
        lemma_below_count_bound(hands, k, hands.len() as int);
        let b = hands[k].bid as int;
        let r = rank_of(hands, k);
        assert(b * r >= 0) by (nonlinear_arith)
            requires
                b >= 0,
                r >= 1,
        ;
    }
}

proof fn lemma_winnings_nonneg(hands: Seq<Hand>, k: int)
    ensures
        winnings_upto(hands, k) >= 0,
    decreases k,
{
    if !(k <= 0 || k > hands.len()) {
        lemma_winnings_nonneg(hands, k - 1);
        lemma_below_count_bound(hands, k - 1, hands.len() as int);
        let b = hands[k - 1].bid as int;
        let r = rank_of(hands, k - 1);
        assert(b * r >= 0) by (nonlinear_arith)
            requires
                b >= 0,
                r >= 1,
        ;
    }
}

impl Puzzle {
    /// Each hand wins its bid times its rank; the sum of all winnings.
    pub fn total_winnings(&self) -> (r: u32)
        requires
            self.hands@.len() < u32::MAX,
            winnings_upto(self.hands@, self.hands@.len() as int) <= u32::MAX,
        ensures
            r == winnings_upto(self.hands@, self.hands@.len() as int),
    {
        let ghost hs = self.hands@;
        let n = self.hands.len();
        let mut ids: Vec<IdentifiedHand> = Vec::new();
        let mut k: usize = 0;
        while k < n
            invariant
                hs == self.hands@,
                n == hs.len(),
                0 <= k <= n,
                ids@.len() == k,
                forall|i: int| 0 <= i < k ==> *(#[trigger] ids@[i]).hand == hs[i] && ids@[i].hand_type == type_at(hs, i),
            decreases n - k,
        {
            ids.push(self.hands[k].identify());
            k = k + 1;
        }
        let mut total: u32 = 0;
        let mut i: usize = 0;
        while i < n
            invariant
                hs == self.hands@,
                n == hs.len(),
                ids@.len() == n,
                forall|i: int| 0 <= i < n ==> *(#[trigger] ids@[i]).hand == hs[i] && ids@[i].hand_type == type_at(hs, i),
                winnings_upto(hs, n as int) <= u32::MAX,
                n < u32::MAX,
                0 <= i <= n,
                total == winnings_upto(hs, i as int),
            decreases n - i,
        {
            let mut below: u32 = 0;
            let mut j: usize = 0;
            proof {
                lemma_below_count_bound(hs, i as int, n as int);
                lemma_winnings_mono(hs, i + 1);
                assert(hs[i as int].bid * rank_of(hs, i as int) <= u32::MAX);
            }
            while j < n
                invariant
                    hs == self.hands@,
                    n == hs.len(),
                    ids@.len() == n,
                    forall|i: int| 0 <= i < n ==> *(#[trigger] ids@[i]).hand == hs[i] && ids@[i].hand_type == type_at(hs, i),
                    0 <= i < n,
                    0 <= j <= n,
                    below == below_count(hs, i as int, j as int),
                    below_count(hs, i as int, n as int) < u32::MAX,
                decreases n - j,
            {
                proof {
                    lemma_below_count_bound(hs, i as int, j as int);
                    lemma_below_count_mono(hs, i as int, j as int + 1, n as int);
                }
                let o = ids[j].compare(&ids[i]);
                let counts = match o {
                    Ordering::Less => true,
                    Ordering::Equal => j < i,
                    Ordering::Greater => false,
                };
                if counts {
                    below = below + 1;
                }
                j = j + 1;
            }
            let ranked = RankedHand { identified_hand: &ids[i], rank: below + 1 };
            let w = ranked.winnings();
            total = total + w;
            i = i + 1;
        }
        total
    }
}

proof fn lemma_below_count_mono(hands: Seq<Hand>, i: int, a: int, b: int)
    requires
        0 <= a <= b <= hands.len(),
    ensures
        below_count(hands, i, a) <= below_count(hands, i, b),
    decreases b - a,
{
    if a < b {
        lemma_below_count_mono(hands, i, a, b - 1);
    }
}

/// The hands that the lines of `cs` write.
fn hands_of(cs: &Vec<char>) -> (r: Vec<Hand>)
    requires
        forall|i: int| 0 <= i < lines_of(cs@).len() ==> hand_text_ok(#[trigger] lines_of(cs@)[i]),
    ensures
        r@.len() == lines_of(cs@).len(),
        forall|i: int| 0 <= i < r@.len() ==> hand_matches(#[trigger] r@[i], lines_of(cs@)[i]),
{
    let rows = split_lines(cs);
    let mut hands: Vec<Hand> = Vec::new();
    let mut k: usize = 0;
    while k < rows.len()
        invariant
            rows@.len() == lines_of(cs@).len(),
            forall|i: int| 0 <= i < rows@.len() ==> #[trigger] rows@[i]@ == lines_of(cs@)[i],
            forall|i: int| 0 <= i < lines_of(cs@).len() ==> hand_text_ok(#[trigger] lines_of(cs@)[i]),
            0 <= k <= rows@.len(),
            hands@.len() == k,
            forall|i: int| 0 <= i < k ==> hand_matches(#[trigger] hands@[i], lines_of(cs@)[i]),
        decreases rows@.len() - k,
    {
        let row = &rows[k];
        assert(row@ == lines_of(cs@)[k as int]);
        let line = crate::text::string_of(row, 0, row.len());
        assert(row@.subrange(0, row@.len() as int) == row@);
        hands.push(Hand::from_string(line));
        k = k + 1;
    }
    hands
}

} // verus!
