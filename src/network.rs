//! A network of labelled nodes, each leading left and right to another node.
use vstd::prelude::*;
use crate::text::{chars_of, string_of, lines_of, split_lines};

verus! {

#[derive(Clone, Copy, Debug, PartialEq, Eq, Structural)]
pub enum Direction {
    Left,
    Right,
}

pub struct Node {
    pub label: String,
    pub left: String,
    pub right: String,
}

impl Node {
    /// The label of the node that `direction` leads to.
    pub fn direction_label(&self, direction: &Direction) -> (r: &String)
        ensures
            r@ == match direction {
                Direction::Left => self.left@,
                Direction::Right => self.right@,
            },
    {
        match direction {
            Direction::Left => &self.left,
            Direction::Right => &self.right,
        }
    }
}

/// The first node of `ns` with this label.
pub open spec fn node_of(ns: Seq<Node>, label: Seq<char>) -> Option<Node>
    decreases ns.len(),
{
    if ns.len() == 0 {
        None
    } else if ns[0].label@ == label {
        Some(ns[0])
    } else {
        node_of(ns.drop_first(), label)
    }
}

pub open spec fn target(n: Node, d: Direction) -> Seq<char> {
    match d {
        Direction::Left => n.left@,
        Direction::Right => n.right@,
    }
}

/// A map of nodes with directions to follow over and over.
pub struct NodeMap {
    pub directions: Vec<Direction>,
    pub nodes: Vec<Node>,
}

/// The node reached from `n` by following `ds` one after the other.
pub open spec fn follow(ns: Seq<Node>, n: Node, ds: Seq<Direction>) -> Node
    decreases ds.len(),
{
    if ds.len() == 0 {
        n
    } else {
        match node_of(ns, target(follow(ns, n, ds.drop_last()), ds.last())) {
            Some(m) => m,
            None => n,
        }
    }
}

/// The node after `k` single steps from `n`, the directions repeating.
pub open spec fn walk(ns: Seq<Node>, ds: Seq<Direction>, n: Node, k: nat) -> Node
    decreases k,
{
    if k == 0 || ds.len() == 0 {
        n
    } else {
        let prev = walk(ns, ds, n, (k - 1) as nat);
        match node_of(ns, target(prev, ds[(k - 1) as int % (ds.len() as int)])) {
            Some(m) => m,
            None => prev,
        }
    }
}

pub open spec fn ends_with(s: Seq<char>, c: char) -> bool {
    s.len() > 0 && s.last() == c
}

/// The number of single steps after which the walk from `n` first stands on a
/// node whose label ends in `Z`.
pub open spec fn first_z(ns: Seq<Node>, ds: Seq<Direction>, n: Node, k: nat) -> bool {
    &&& k >= 1
    &&& ends_with(walk(ns, ds, n, k).label@, 'Z')
    &&& forall|j: nat| 1 <= j < k ==> !ends_with(#[trigger] walk(ns, ds, n, j).label@, 'Z')
}

impl NodeMap {
    /// Every label that a node leads to names a node of the map.
    pub open spec fn closed(&self) -> bool {
        forall|i: int, d: Direction|
            0 <= i < self.nodes@.len() ==> (#[trigger] node_of(self.nodes@, target(self.nodes@[i], d))) is Some
    }

    pub fn node(&self, label: &String) -> (r: Option<&Node>)
        ensures
            match r {
                Some(n) => node_of(self.nodes@, label@) == Some(*n),
                None => node_of(self.nodes@, label@) is None,
            },
    {
        let mut k: usize = 0;
        assert(self.nodes@.subrange(0, self.nodes@.len() as int) == self.nodes@);
        while k < self.nodes.len()
            invariant
                0 <= k <= self.nodes@.len(),
                node_of(self.nodes@, label@) == node_of(
                    self.nodes@.subrange(k as int, self.nodes@.len() as int),
                    label@,
                ),
            decreases self.nodes@.len() - k,
        {
            assert(self.nodes@.subrange(k as int, self.nodes@.len() as int).drop_first()
                == self.nodes@.subrange(k as int + 1, self.nodes@.len() as int));
            if self.nodes[k].label == *label {
                return Some(&self.nodes[k]);
            }
            k = k + 1;
        }
        None
    }

    pub fn next_node<'a>(&'a self, node: &'a Node, direction: &Direction) -> (r: &'a Node)
        requires
            node_of(self.nodes@, target(*node, *direction)) is Some,
        ensures
            node_of(self.nodes@, target(*node, *direction)) == Some(*r),
    {
        match self.node(node.direction_label(direction)) {
            Some(n) => n,
            None => node,
        }
    }
}

/// The greatest common divisor, by Euclid's rule.
pub open spec fn gcd_of(a: nat, b: nat) -> nat
    decreases b,
{
    if b == 0 {
        a
    } else {
        gcd_of(b, a % b)
    }
}

/// The least common multiple; 0 when either number is 0.
pub open spec fn lcm_of(a: nat, b: nat) -> nat {
    if a == 0 || b == 0 {
        0
    } else {
        a * (b / gcd_of(a, b))
    }
}

/// Relies on `num::integer::lcm` for `u64`: the least common multiple, 0 when
/// either number is 0. It multiplies `a` by `b / gcd`, which overflows exactly
/// when the least common multiple does not fit.
#[verifier::external_body]
fn lcm_u64(a: u64, b: u64) -> (r: u64)
    requires
        lcm_of(a as nat, b as nat) <= u64::MAX,
    ensures
        r == lcm_of(a as nat, b as nat),
{
    num::integer::lcm(a, b)
}

/// The least common multiple of the numbers of `s`, folded from the left.
pub open spec fn lcm_fold(s: Seq<nat>) -> nat
    decreases s.len(),
{
    if s.len() == 0 {
        0
    } else if s.len() == 1 {
        s[0]
    } else {
        lcm_of(lcm_fold(s.drop_last()), s.last())
    }
}

/// The steps from `n` to the first node whose label ends in `Z`.
pub open spec fn z_steps(ns: Seq<Node>, ds: Seq<Direction>, n: Node) -> nat {
    choose|k: nat| first_z(ns, ds, n, k)
}

/// The node after `k` rounds of all directions from `n`.
pub open spec fn rounds(ns: Seq<Node>, ds: Seq<Direction>, n: Node, k: nat) -> Node
    decreases k,
{
    if k == 0 {
        n
    } else {
        follow(ns, rounds(ns, ds, n, (k - 1) as nat), ds)
    }
}

pub open spec fn is_zzz(label: Seq<char>) -> bool {
    label == seq!['Z', 'Z', 'Z']
}

/// After `k` rounds from `n` the walk first stands on `ZZZ`.
pub open spec fn first_zzz(ns: Seq<Node>, ds: Seq<Direction>, n: Node, k: nat) -> bool {
    &&& k >= 1
    &&& is_zzz(rounds(ns, ds, n, k).label@)
    &&& forall|j: nat| 1 <= j < k ==> !is_zzz(#[trigger] rounds(ns, ds, n, j).label@)
}

proof fn lemma_rounds_still(ns: Seq<Node>, ds: Seq<Direction>, n: Node, k: nat)
    requires
        ds.len() == 0,
    ensures
        rounds(ns, ds, n, k) == n,
    decreases k,
{
    if k > 0 {
        lemma_rounds_still(ns, ds, n, (k - 1) as nat);
    }
}

/// Whether the label is `ZZZ`.
fn label_is_zzz(label: &String) -> (r: bool)
    ensures
        r == is_zzz(label@),
{
    let cs = chars_of(label.as_str());
    let r = cs.len() == 3 && cs[0] == 'Z' && cs[1] == 'Z' && cs[2] == 'Z';
    proof {
        if r {
            assert(cs@ =~= seq!['Z', 'Z', 'Z']);
        }
    }
    r
}

/// The step counts to a `Z` node from each node of `s`.
pub open spec fn z_counts(ns: Seq<Node>, ds: Seq<Direction>, s: Seq<Node>) -> Seq<nat> {
    s.map_values(|n: Node| z_steps(ns, ds, n))
}

/// The nodes whose label ends in `A`, in order.
pub open spec fn a_nodes(ns: Seq<Node>) -> Seq<Node> {
    ns.filter(|n: Node| ends_with(n.label@, 'A'))
}

/// From `n` the walk reaches a node ending in `Z`, within a count that fits in a `u64`.
pub open spec fn reaches_z(ns: Seq<Node>, ds: Seq<Direction>, n: Node) -> bool {
    exists|k: nat| k <= u64::MAX && first_z(ns, ds, n, k)
}

proof fn lemma_first_z_unique(ns: Seq<Node>, ds: Seq<Direction>, n: Node, k1: nat, k2: nat)
    requires
        first_z(ns, ds, n, k1),
        first_z(ns, ds, n, k2),
    ensures
        k1 == k2,
{
    if k1 < k2 {
        assert(!ends_with(walk(ns, ds, n, k1).label@, 'Z'));
    }
    if k2 < k1 {
        assert(!ends_with(walk(ns, ds, n, k2).label@, 'Z'));
    }
}

/// Whether the label ends in `c`.
fn label_ends_with(label: &String, c: char) -> (r: bool)
    ensures
        r == ends_with(label@, c),
{
    let cs = chars_of(label.as_str());
    cs.len() > 0 && cs[cs.len() - 1] == c
}

proof fn lemma_node_of_member(ns: Seq<Node>, label: Seq<char>)
    ensures
        node_of(ns, label) matches Some(m) ==> exists|i: int| 0 <= i < ns.len() && ns[i] == m,
    decreases ns.len(),
{
    if ns.len() > 0 {
        lemma_node_of_member(ns.drop_first(), label);
        if ns[0].label@ != label {
            if let Some(m) = node_of(ns, label) {
                let i = choose|i: int| 0 <= i < ns.drop_first().len() && ns.drop_first()[i] == m;
                assert(ns[i + 1] == m);
            }
        }
    }
}

impl NodeMap {
    /// The node reached from `start` by following all directions once.
    pub fn apply_directions<'a>(&'a self, start: &'a Node) -> (r: &'a Node)
        requires
            self.closed(),
            self.nodes@.contains(*start),
        ensures
            *r == follow(self.nodes@, *start, self.directions@),
            self.nodes@.contains(*r),
    {
        let mut cur = start;
        let mut k: usize = 0;
        assert(self.directions@.take(0) == Seq::<Direction>::empty());
        while k < self.directions.len()
            invariant
                self.closed(),
                0 <= k <= self.directions@.len(),
                self.nodes@.contains(*cur),
                *cur == follow(self.nodes@, *start, self.directions@.take(k as int)),
            decreases self.directions@.len() - k,
        {
            assert(self.directions@.take(k as int + 1).drop_last() == self.directions@.take(k as int));
            let d = self.directions[k];
            proof {
                let i = choose|i: int| 0 <= i < self.nodes@.len() && self.nodes@[i] == *cur;
                assert(node_of(self.nodes@, target(self.nodes@[i], d)) is Some);
            }
            let next = self.next_node(cur, &d);
            proof {
                lemma_node_of_member(self.nodes@, target(*cur, d));
            }
            cur = next;
            k = k + 1;
        }
        assert(self.directions@.take(k as int) == self.directions@);
        cur
    }

    /// The single steps from `node`, the directions repeating, until the first
    /// node whose label ends in `Z`.
    pub fn steps_pt2(&self, node: &Node) -> (r: u64)
        requires
            self.closed(),
            self.nodes@.contains(*node),
            self.directions@.len() > 0,
            reaches_z(self.nodes@, self.directions@, *node),
        ensures
            first_z(self.nodes@, self.directions@, *node, r as nat),
    {
        let ghost ns = self.nodes@;
        let ghost ds = self.directions@;
        let ghost kk = choose|k: nat| k <= u64::MAX && first_z(ns, ds, *node, k);
        let n = self.directions.len();
        let mut cur = node;
        let mut steps: u64 = 0;
        let mut i: usize = 0;
        loop
            invariant
                ns == self.nodes@,
                ds == self.directions@,
                n == ds.len(),
                n > 0,
                self.closed(),
                kk <= u64::MAX,
                first_z(ns, ds, *node, kk),
                ns.contains(*cur),
                *cur == walk(ns, ds, *node, steps as nat),
                i == (steps as int) % (n as int),
                steps < kk,
                forall|j: nat| 1 <= j <= steps ==> !ends_with(#[trigger] walk(ns, ds, *node, j).label@, 'Z'),
            decreases kk - steps,
        {
            let d = self.directions[i];
            proof {
                let idx = choose|idx: int| 0 <= idx < ns.len() && ns[idx] == *cur;
                assert(node_of(ns, target(ns[idx], d)) is Some);
            }
            let next = self.next_node(cur, &d);
            proof {
                lemma_node_of_member(ns, target(*cur, d));
                assert(walk(ns, ds, *node, (steps + 1) as nat) == *next);
            }
            cur = next;
            steps = steps + 1;
            i = if i + 1 == n { 0 } else { i + 1 };
            proof {
                let s0 = (steps - 1) as int;
                let i0 = (s0 % (n as int)) as int;
                vstd::arithmetic::div_mod::lemma_fundamental_div_mod(s0, n as int);
                let q = s0 / (n as int);
                if i == 0 {
                    assert(s0 + 1 == (q + 1) * (n as int)) by (nonlinear_arith)
                        requires
                            s0 == (n as int) * q + i0,
                            i0 + 1 == n,
                    ;
                    vstd::arithmetic::div_mod::lemma_mod_multiples_basic(q + 1, n as int);
                } else {
                    assert(s0 + 1 == q * (n as int) + (i0 + 1)) by (nonlinear_arith)
                        requires
                            s0 == (n as int) * q + i0,
                    ;
                    vstd::arithmetic::div_mod::lemma_mod_multiples_vanish(q, i0 + 1, n as int);
                    vstd::arithmetic::div_mod::lemma_small_mod((i0 + 1) as nat, n as nat);
                }
            }
            if label_ends_with(&cur.label, 'Z') {
                return steps;
            }
            proof {
                if steps == kk {
                    assert(ends_with(walk(ns, ds, *node, kk).label@, 'Z'));
                }
            }
        }
    }

    /// The least common multiple of the step counts from all nodes ending in `A`.
    pub fn part2(&self) -> (r: u64)
        requires
            self.closed(),
            self.directions@.len() > 0,
            a_nodes(self.nodes@).len() > 0,
            forall|i: int|
                0 <= i < a_nodes(self.nodes@).len() ==> reaches_z(
                    self.nodes@,
                    self.directions@,
                    #[trigger] a_nodes(self.nodes@)[i],
                ),
            forall|k: int|
                1 <= k <= a_nodes(self.nodes@).len() ==> #[trigger] lcm_fold(
                    z_counts(self.nodes@, self.directions@, a_nodes(self.nodes@).take(k)),
                ) <= u64::MAX,
        ensures
            r == lcm_fold(z_counts(self.nodes@, self.directions@, a_nodes(self.nodes@))),
    {
        let ghost ns = self.nodes@;
        let ghost ds = self.directions@;
        let ghost an = a_nodes(ns);
        let mut acc: u64 = 0;
        let mut found: usize = 0;
        let mut k: usize = 0;
        while k < self.nodes.len()
            invariant
                ns == self.nodes@,
                ds == self.directions@,
                an == a_nodes(ns),
                self.closed(),
                ds.len() > 0,
                forall|i: int| 0 <= i < an.len() ==> reaches_z(ns, ds, #[trigger] an[i]),
                forall|k: int| 1 <= k <= an.len() ==> #[trigger] lcm_fold(z_counts(ns, ds, an.take(k))) <= u64::MAX,
                0 <= k <= ns.len(),
                ns.take(k as int).filter(|n: Node| ends_with(n.label@, 'A')) == an.take(found as int),
                found <= an.len(),
                acc == lcm_fold(z_counts(ns, ds, an.take(found as int))),
            decreases ns.len() - k,
        {
            proof {
                reveal(Seq::filter);
                assert(ns.take(k as int + 1).drop_last() == ns.take(k as int));
                lemma_a_nodes_prefix(ns, k as int + 1);
            }
            let node = &self.nodes[k];
            if label_ends_with(&node.label, 'A') {
                proof {
                    let f1 = ns.take(k as int + 1).filter(|n: Node| ends_with(n.label@, 'A'));
                    assert(f1 == an.take(found as int).push(*node));
                    assert(an.take(f1.len() as int) == f1);
                    assert(an.take(found as int + 1)[found as int] == *node);
                    assert(an[found as int] == *node);
                    assert(ns[k as int] == *node);
                    assert(ns.contains(*node));
                }
                let steps = self.steps_pt2(node);
                proof {
                    let kk = choose|k: nat| k <= u64::MAX && first_z(ns, ds, *node, k);
                    lemma_first_z_unique(ns, ds, *node, kk, z_steps(ns, ds, *node));
                    lemma_first_z_unique(ns, ds, *node, steps as nat, z_steps(ns, ds, *node));
                    let zs = z_counts(ns, ds, an.take(found as int + 1));
                    assert(zs.drop_last() == z_counts(ns, ds, an.take(found as int)));
                    assert(zs.last() == steps);
                    assert(lcm_fold(zs) <= u64::MAX);
                }
                if found == 0 {
                    acc = steps;
                } else {
                    acc = lcm_u64(acc, steps);
                }
                found = found + 1;
            }
            k = k + 1;
        }
        proof {
            assert(ns.take(k as int) == ns);
            assert(an.take(found as int) == an);
        }
        acc
    }
}

impl NodeMap {
    /// The steps from `node` to `ZZZ`, counted in whole rounds of the directions.
    pub fn steps_pt1(&self, node: &Node) -> (r: u64)
        requires
            self.closed(),
            self.nodes@.contains(*node),
            exists|k: nat|
                #[trigger] first_zzz(self.nodes@, self.directions@, *node, k) && k * self.directions@.len()
                    <= u64::MAX,
        ensures
            exists|k: nat|
                #[trigger] first_zzz(self.nodes@, self.directions@, *node, k) && r == k * self.directions@.len(),
    {
        let ghost ns = self.nodes@;
        let ghost ds = self.directions@;
        let ghost kk = choose|k: nat| #[trigger] first_zzz(ns, ds, *node, k) && k * ds.len() <= u64::MAX;
        proof {
            if ds.len() == 0 {
                lemma_rounds_still(ns, ds, *node, kk);
                lemma_rounds_still(ns, ds, *node, 1);
                if kk > 1 {
                    assert(!is_zzz(rounds(ns, ds, *node, 1).label@));
                }
            } else {
                assert(kk <= kk * ds.len()) by (nonlinear_arith)
                    requires
                        ds.len() >= 1,
                ;
            }
        }
        let mut iterations: u64 = 1;
        let mut current = node;
        loop
            invariant
                ns == self.nodes@,
                ds == self.directions@,
                self.closed(),
                first_zzz(ns, ds, *node, kk),
                kk * ds.len() <= u64::MAX,
                kk <= u64::MAX,
                1 <= iterations <= kk,
                ns.contains(*current),
                *current == rounds(ns, ds, *node, (iterations - 1) as nat),
                forall|j: nat| 1 <= j < iterations ==> !is_zzz(#[trigger] rounds(ns, ds, *node, j).label@),
            decreases kk - iterations,
        {
            current = self.apply_directions(current);
            if label_is_zzz(&current.label) {
                proof {
                    if iterations < kk {
                        assert(!is_zzz(rounds(ns, ds, *node, iterations as nat).label@));
                    }
                    assert(iterations * ds.len() <= kk * ds.len()) by (nonlinear_arith)
                        requires
                            iterations <= kk,
                    ;
                }
                return iterations * self.directions.len() as u64;
            }
            proof {
                if iterations == kk {
                    assert(is_zzz(rounds(ns, ds, *node, kk).label@));
                }
            }
            iterations = iterations + 1;
        }
    }

    /// The steps from `AAA` to `ZZZ`, counted in whole rounds of the directions.
    pub fn part1(&self) -> (r: u64)
        requires
            self.closed(),
            node_of(self.nodes@, seq!['A', 'A', 'A']) matches Some(a) && exists|k: nat|
                #[trigger] first_zzz(self.nodes@, self.directions@, a, k) && k * self.directions@.len()
                    <= u64::MAX,
        ensures
            node_of(self.nodes@, seq!['A', 'A', 'A']) matches Some(a) && exists|k: nat|
                #[trigger] first_zzz(self.nodes@, self.directions@, a, k) && r == k * self.directions@.len(),
    {
        let label = string_of(&vec!['A', 'A', 'A'], 0, 3);
        assert(label@ =~= seq!['A', 'A', 'A']);
        match self.node(&label) {
            Some(a) => {
                proof {
                    lemma_node_of_member(self.nodes@, label@);
                }
                self.steps_pt1(a)
            },
            None => 0,
        }
    }
}

/// Where the first empty line begins: the first `\n` followed by another.
pub open spec fn blank_pos(s: Seq<char>) -> int
    decreases s.len(),
{
    if s.len() < 2 {
        s.len() as int
    } else if s[0] == '\n' && s[1] == '\n' {
        0
    } else {
        1 + blank_pos(s.drop_first())
    }
}

pub open spec fn direction_of(c: char) -> Direction {
    if c == 'L' {
        Direction::Left
    } else {
        Direction::Right
    }
}

/// The node that a line `AAA = (BBB, CCC)` describes.
pub open spec fn node_line(n: Node, line: Seq<char>) -> bool {
    &&& n.label@ == line.subrange(0, 3)
    &&& n.left@ == line.subrange(7, 10)
    &&& n.right@ == line.subrange(12, 15)
}

/// The text: directions, an empty line, then one node per line of at least 15 characters.
pub open spec fn map_text_ok(s: Seq<char>) -> bool {
    &&& blank_pos(s) + 2 <= s.len()
    &&& forall|i: int|
        0 <= i < lines_of(s.subrange(blank_pos(s) + 2, s.len() as int)).len() ==> (#[trigger] lines_of(
            s.subrange(blank_pos(s) + 2, s.len() as int),
        )[i]).len() >= 15
}

proof fn lemma_blank_pos(s: Seq<char>)
    ensures
        0 <= blank_pos(s) <= s.len(),
        blank_pos(s) + 2 <= s.len() ==> s[blank_pos(s)] == '\n' && s[blank_pos(s) + 1] == '\n',
        forall|j: int| 0 <= j < blank_pos(s) && j + 1 < s.len() ==> !(s[j] == '\n' && #[trigger] s[j + 1] == '\n'),
    decreases s.len(),
{
    if s.len() >= 2 && !(s[0] == '\n' && s[1] == '\n') {
        lemma_blank_pos(s.drop_first());
        assert forall|j: int| 0 <= j < blank_pos(s) && j + 1 < s.len() implies !(s[j] == '\n' && #[trigger] s[j + 1] == '\n') by {
            if j > 0 {
                assert(s[j] == s.drop_first()[j - 1]);
                assert(s[j + 1] == s.drop_first()[j]);
            }
        }
    }
}

impl NodeMap {
    pub fn load(contents: String) -> (r: Self)
        requires
            map_text_ok(contents@),
        ensures
            r.directions@ == contents@.take(blank_pos(contents@)).map_values(|c: char| direction_of(c)),
            r.nodes@.len() == lines_of(contents@.subrange(blank_pos(contents@) + 2, contents@.len() as int)).len(),
            forall|i: int|
                0 <= i < r.nodes@.len() ==> node_line(
                    #[trigger] r.nodes@[i],
                    lines_of(contents@.subrange(blank_pos(contents@) + 2, contents@.len() as int))[i],
                ),
    {
        let cs = chars_of(contents.as_str());
        let ghost s = cs@;
        proof {
            lemma_blank_pos(s);
        }
        let mut p: usize = 0;
        let n = cs.len();
        while p + 1 < n && !(cs[p] == '\n' && cs[p + 1] == '\n')
            invariant
                s == cs@,
                n == s.len(),
                forall|j: int| 0 <= j < blank_pos(s) && j + 1 < s.len() ==> !(s[j] == '\n' && #[trigger] s[j + 1] == '\n'),
                0 <= p <= blank_pos(s),
                blank_pos(s) + 2 <= s.len(),
                s[blank_pos(s)] == '\n' && s[blank_pos(s) + 1] == '\n',
            decreases s.len() - p,
        {
            p = p + 1;
        }
        assert(p == blank_pos(s));
        let mut directions: Vec<Direction> = Vec::new();
        let mut i: usize = 0;
        while i < p
            invariant
                s == cs@,
                p <= s.len(),
                0 <= i <= p,
                directions@ == s.take(i as int).map_values(|c: char| direction_of(c)),
            decreases p - i,
        {
            directions.push(if cs[i] == 'L' { Direction::Left } else { Direction::Right });
            assert(s.take(i as int + 1) == s.take(i as int).push(s[i as int]));
            assert(directions@ =~= s.take(i as int + 1).map_values(|c: char| direction_of(c)));
            i = i + 1;
        }
        let mut rest: Vec<char> = Vec::new();
        let mut j: usize = p + 2;
        while j < cs.len()
            invariant
                s == cs@,
                p + 2 <= j <= s.len(),
                rest@ == s.subrange(p + 2, j as int),
            decreases s.len() - j,
        {
            rest.push(cs[j]);
            assert(s.subrange(p + 2, j + 1) == s.subrange(p + 2, j as int).push(s[j as int]));
            j = j + 1;
        }
        let rows = split_lines(&rest);
        let ghost want = lines_of(rest@);
        let mut nodes: Vec<Node> = Vec::new();
        let mut k: usize = 0;
        while k < rows.len()
            invariant
                want == lines_of(rest@),
                rest@ == s.subrange(blank_pos(s) + 2, s.len() as int),
                s == contents@,
                map_text_ok(contents@),
                rows@.len() == want.len(),
                forall|i: int| 0 <= i < rows@.len() ==> #[trigger] rows@[i]@ == want[i],
                0 <= k <= rows@.len(),
                nodes@.len() == k,
                forall|i: int| 0 <= i < k ==> node_line(#[trigger] nodes@[i], want[i]),
            decreases rows@.len() - k,
        {
            let row = &rows[k];
            assert(row@ == want[k as int]);
            assert(want[k as int].len() >= 15);
            let label = string_of(row, 0, 3);
            let left = string_of(row, 7, 10);
            let right = string_of(row, 12, 15);
            nodes.push(Node { label, left, right });
            k = k + 1;
        }
        Self { directions, nodes }
    }
}

/// The nodes ending in `A` among a prefix are a prefix of those among all nodes.
proof fn lemma_a_nodes_prefix(ns: Seq<Node>, k: int)
    requires
        0 <= k <= ns.len(),
    ensures
        a_nodes(ns).take(ns.take(k).filter(|n: Node| ends_with(n.label@, 'A')).len() as int)
            == ns.take(k).filter(|n: Node| ends_with(n.label@, 'A')),
        ns.take(k).filter(|n: Node| ends_with(n.label@, 'A')).len() <= a_nodes(ns).len(),
    decreases ns.len() - k,
{
    reveal(Seq::filter);
    if k < ns.len() {
        lemma_a_nodes_prefix(ns, k + 1);
        assert(ns.take(k + 1).drop_last() == ns.take(k));
    } else {
        assert(ns.take(k) == ns);
    }
}

} // verus!
