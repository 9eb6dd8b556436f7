//! The lens library: a string hash, and a sequence of steps that put lenses
//! into 256 boxes and take them out again.
use vstd::prelude::*;
use crate::text::{chars_of, split_chars, split_on, string_of, is_digit, digit_of};

verus! {

pub open spec fn is_ws(c: char) -> bool {
    c == ' ' || c == '\n' || c == '\r' || c == '\t'
}

pub open spec fn trim_start(s: Seq<char>) -> Seq<char>
    decreases s.len(),
{
    if s.len() > 0 && is_ws(s[0]) {
        trim_start(s.drop_first())
    } else {
        s
    }
}

pub open spec fn trim_end(s: Seq<char>) -> Seq<char>
    decreases s.len(),
{
    if s.len() > 0 && is_ws(s.last()) {
        trim_end(s.drop_last())
    } else {
        s
    }
}

/// `s` without the blanks and line breaks at either end.
pub open spec fn trim(s: Seq<char>) -> Seq<char> {
    trim_end(trim_start(s))
}

/// The hash of a string: for each character, add its code, times 17, modulo 256.
pub open spec fn hash_of(s: Seq<char>) -> int
    decreases s.len(),
{
    if s.len() == 0 {
        0
    } else {
        ((hash_of(s.drop_last()) + (s.last() as u32)) * 17) % 256
    }
}

/// Where the first `=` stands, or the length when there is none.
pub open spec fn eq_pos(s: Seq<char>) -> int
    decreases s.len(),
{
    if s.len() == 0 {
        0
    } else if s[0] == '=' {
        0
    } else {
        1 + eq_pos(s.drop_first())
    }
}

/// A step that can be read: not empty, and ending in a digit where it inserts.
pub open spec fn op_ok(s: Seq<char>) -> bool {
    s.len() > 0 && (eq_pos(s) < s.len() ==> is_digit(s.last()))
}

/// The label a step speaks of.
pub open spec fn label_of(s: Seq<char>) -> Seq<char> {
    if eq_pos(s) < s.len() {
        s.take(eq_pos(s))
    } else {
        s.drop_last()
    }
}

#[derive(Debug, PartialEq, Eq)]
pub enum Operation {
    Remove { label: String },
    Insert { label: String, focal_length: u8 },
}

/// `op` is what the step `s` says.
pub open spec fn op_matches(op: Operation, s: Seq<char>) -> bool {
    match op {
        Operation::Insert { label, focal_length } => eq_pos(s) < s.len() && label@ == label_of(s)
            && focal_length == digit_of(s.last()),
        Operation::Remove { label } => eq_pos(s) == s.len() && label@ == label_of(s),
    }
}

proof fn lemma_eq_pos(s: Seq<char>)
    ensures
        0 <= eq_pos(s) <= s.len(),
        eq_pos(s) < s.len() ==> s[eq_pos(s)] == '=',
        forall|j: int| 0 <= j < eq_pos(s) ==> s[j] != '=',
    decreases s.len(),
{
    if s.len() > 0 && s[0] != '=' {
        lemma_eq_pos(s.drop_first());
        assert forall|j: int| 0 <= j < eq_pos(s) implies s[j] != '=' by {
            if j > 0 {
                assert(s[j] == s.drop_first()[j - 1]);
            }
        }
    }
}

impl Operation {
    pub fn load(input: &str) -> (r: Self)
        requires
            op_ok(input@),
        ensures
            op_matches(r, input@),
    {
        let cs = chars_of(input);
        let ghost s = cs@;
        proof {
            lemma_eq_pos(s);
        }
        let mut i: usize = 0;
        while i < cs.len()
            invariant
                s == cs@,
                s == input@,
                op_ok(s),
                0 <= i <= s.len(),
                i <= eq_pos(s),
                forall|j: int| 0 <= j < eq_pos(s) ==> s[j] != '=',
                eq_pos(s) < s.len() ==> s[eq_pos(s)] == '=',
            decreases s.len() - i,
        {
            if cs[i] == '=' {
                let last = cs[cs.len() - 1];
                let label = string_of(&cs, 0, i);
                return Operation::Insert { label, focal_length: (last as u32 - '0' as u32) as u8 };
            }
            i = i + 1;
        }
        let label = string_of(&cs, 0, cs.len() - 1);
        Operation::Remove { label }
    }
}

pub struct Step {
    pub line: String,
}

impl Step {
    pub fn load(input: &str) -> (r: Self)
        ensures
            r.line@ == input@,
    {
        let cs = chars_of(input);
        Self { line: string_of(&cs, 0, cs.len()) }
    }

    pub fn operation(&self) -> (r: Operation)
        requires
            op_ok(self.line@),
        ensures
            op_matches(r, self.line@),
    {
        Operation::load(self.line.as_str())
    }
}

/// A lens in a box: its label and focal length.
pub type Lens = (Seq<char>, u8);

pub open spec fn box_view(b: Vec<(String, u8)>) -> Seq<Lens> {
    b@.map_values(|l: (String, u8)| (l.0@, l.1))
}

pub open spec fn boxes_view(bs: Seq<Vec<(String, u8)>>) -> Seq<Seq<Lens>> {
    bs.map_values(|b: Vec<(String, u8)>| box_view(b))
}

/// Where the lens labelled `label` sits in the box, or the box's length.
pub open spec fn pos_of(bx: Seq<Lens>, label: Seq<char>) -> int
    decreases bx.len(),
{
    if bx.len() == 0 {
        0
    } else if bx[0].0 == label {
        0
    } else {
        1 + pos_of(bx.drop_first(), label)
    }
}

/// The boxes after the step `s`: an insertion replaces the lens of the same
/// label in place, or adds the lens at the back; a removal takes out the lenses
/// of that label.
pub open spec fn apply_op(boxes: Seq<Seq<Lens>>, s: Seq<char>) -> Seq<Seq<Lens>> {
    let label = label_of(s);
    let h = hash_of(label);
    let bx = boxes[h];
    if eq_pos(s) < s.len() {
        let lens = (label, digit_of(s.last()) as u8);
        let p = pos_of(bx, label);
        boxes.update(h, if p < bx.len() { bx.update(p, lens) } else { bx.push(lens) })
    } else {
        boxes.update(h, bx.filter(|l: Lens| l.0 != label))
    }
}

/// The boxes after the steps `lines`, starting from 256 empty boxes.
pub open spec fn boxes_after(lines: Seq<Seq<char>>) -> Seq<Seq<Lens>>
    decreases lines.len(),
{
    if lines.len() == 0 {
        Seq::new(256, |i: int| Seq::<Lens>::empty())
    } else {
        apply_op(boxes_after(lines.drop_last()), lines.last())
    }
}

/// The focusing power of the first `n` lenses of box `b`.
pub open spec fn box_power(b: int, bx: Seq<Lens>, n: int) -> int
    decreases n,
{
    if n <= 0 || n > bx.len() {
        0
    } else {
        box_power(b, bx, n - 1) + (b + 1) * n * (bx[n - 1].1 as int)
    }
}

/// The focusing power of the lenses in the first `n` boxes.
pub open spec fn total_power(bs: Seq<Seq<Lens>>, n: int) -> int
    decreases n,
{
    if n <= 0 || n > bs.len() {
        0
    } else {
        total_power(bs, n - 1) + box_power(n - 1, bs[n - 1], bs[n - 1].len() as int)
    }
}

proof fn lemma_box_power_mono(b: int, bx: Seq<Lens>, n: int)
    requires
        b >= 0,
        0 <= n <= bx.len(),
    ensures
        0 <= box_power(b, bx, n) <= box_power(b, bx, bx.len() as int),
    decreases bx.len() - n,
{
    lemma_box_power_nonneg(b, bx, n);
    if n < bx.len() {
        lemma_box_power_mono(b, bx, n + 1);
        let f = bx[n].1 as int;
        assert((b + 1) * (n + 1) * f >= 0) by (nonlinear_arith)
            requires
                b >= 0,
                n >= 0,
                f >= 0,
        ;
    }
}

proof fn lemma_box_power_nonneg(b: int, bx: Seq<Lens>, n: int)
    requires
        b >= 0,
    ensures
        box_power(b, bx, n) >= 0,
    decreases n,
{
    if !(n <= 0 || n > bx.len()) {
        lemma_box_power_nonneg(b, bx, n - 1);
        let f = bx[n - 1].1 as int;
        assert((b + 1) * n * f >= 0) by (nonlinear_arith)
            requires
                b >= 0,
                n >= 0,
                f >= 0,
        ;
    }
}

proof fn lemma_total_power_mono(bs: Seq<Seq<Lens>>, n: int)
    requires
        0 <= n <= bs.len(),
    ensures
        0 <= total_power(bs, n) <= total_power(bs, bs.len() as int),
    decreases bs.len() - n,
{
    lemma_total_power_nonneg(bs, n);
    if n < bs.len() {
        lemma_total_power_mono(bs, n + 1);
        lemma_box_power_nonneg(n, bs[n], bs[n].len() as int);
    }
}

proof fn lemma_total_power_nonneg(bs: Seq<Seq<Lens>>, n: int)
    ensures
        total_power(bs, n) >= 0,
    decreases n,
{
    if !(n <= 0 || n > bs.len()) {
        lemma_total_power_nonneg(bs, n - 1);
        lemma_box_power_nonneg(n - 1, bs[n - 1], bs[n - 1].len() as int);
    }
}

/// The hash of a string.
fn hash_str(input: &str) -> (r: u8)
    ensures
        r == hash_of(input@),
{
    let cs = chars_of(input);
    let mut acc: u64 = 0;
    let mut i: usize = 0;
    while i < cs.len()
        invariant
            0 <= i <= cs@.len(),
            acc == hash_of(cs@.take(i as int)),
            acc < 256,
        decreases cs@.len() - i,
    {
        assert(cs@.take(i as int + 1).drop_last() == cs@.take(i as int));
        acc = ((acc + cs[i] as u32 as u64) * 17) % 256;
        i = i + 1;
    }
    assert(cs@.take(i as int) == input@);
    acc as u8
}

pub open spec fn total_hash(steps: Seq<Step>, k: int) -> int
    decreases k,
{
    if k <= 0 || k > steps.len() {
        0
    } else {
        total_hash(steps, k - 1) + hash_of(steps[k - 1].line@)
    }
}

/// The lines of the steps.
pub open spec fn lines_of_steps(steps: Seq<Step>) -> Seq<Seq<char>> {
    steps.map_values(|st: Step| st.line@)
}

/// The position of the first `c` that is not blank at or after `i`, scanning forward.
fn skip_ws_front(cs: &Vec<char>) -> (a: usize)
    ensures
        a <= cs@.len(),
        trim_start(cs@) == cs@.subrange(a as int, cs@.len() as int),
{
    let mut i: usize = 0;
    assert(cs@.subrange(0, cs@.len() as int) == cs@);
    while i < cs.len() && (cs[i] == ' ' || cs[i] == '\n' || cs[i] == '\r' || cs[i] == '\t')
        invariant
            0 <= i <= cs@.len(),
            trim_start(cs@) == trim_start(cs@.subrange(i as int, cs@.len() as int)),
        decreases cs@.len() - i,
    {
        assert(cs@.subrange(i as int, cs@.len() as int).drop_first() == cs@.subrange(i as int + 1, cs@.len() as int));
        i = i + 1;
    }
    i
}

/// The characters of `cs` without blanks at either end.
pub fn trimmed(cs: &Vec<char>) -> (r: Vec<char>)
    ensures
        r@ == trim(cs@),
{
    let a = skip_ws_front(cs);
    let ghost u = cs@.subrange(a as int, cs@.len() as int);
    let mut b: usize = cs.len();
    assert(u.take(u.len() as int) == u);
    while b > a && (cs[b - 1] == ' ' || cs[b - 1] == '\n' || cs[b - 1] == '\r' || cs[b - 1] == '\t')
        invariant
            u == cs@.subrange(a as int, cs@.len() as int),
            a <= b <= cs@.len(),
            trim_end(u) == trim_end(u.take(b - a)),
        decreases b,
    {
        assert(u.take(b - a).drop_last() == u.take(b - a - 1));
        b = b - 1;
    }
    let mut r: Vec<char> = Vec::new();
    let mut i: usize = a;
    while i < b
        invariant
            u == cs@.subrange(a as int, cs@.len() as int),
            a <= i <= b <= cs@.len(),
            r@ == u.take(i - a),
        decreases b - i,
    {
        assert(u.take(i - a + 1) == u.take(i - a).push(cs@[i as int]));
        r.push(cs[i]);
        i = i + 1;
    }
    r
}

/// The lenses of `bx` whose label is not `label`, in order.
fn without_label(bx: &Vec<(String, u8)>, label: &String) -> (r: Vec<(String, u8)>)
    ensures
        box_view(r) == box_view(*bx).filter(|l: Lens| l.0 != label@),
{
    let mut out: Vec<(String, u8)> = Vec::new();
    let mut i: usize = 0;
    while i < bx.len()
        invariant
            0 <= i <= bx@.len(),
            box_view(out) == box_view(*bx).take(i as int).filter(|l: Lens| l.0 != label@),
        decreases bx@.len() - i,
    {
        proof {
            reveal(Seq::filter);
            assert(box_view(*bx).take(i as int + 1).drop_last() == box_view(*bx).take(i as int));
        }
        let same = bx[i].0 == *label;
        if !same {
            let ghost old_out = box_view(out);
            out.push((bx[i].0.clone(), bx[i].1));
            assert(box_view(out) == old_out.push(box_view(*bx)[i as int]));
        }
        i = i + 1;
    }
    assert(box_view(*bx).take(i as int) == box_view(*bx));
    out
}

/// Where the lens labelled `label` sits in `bx`, or the length of `bx`.
fn position_of(bx: &Vec<(String, u8)>, label: &String) -> (r: usize)
    ensures
        r == pos_of(box_view(*bx), label@),
        r <= bx@.len(),
{
    let ghost lv = box_view(*bx);
    let mut i: usize = 0;
    assert(lv.subrange(0, lv.len() as int) == lv);
    while i < bx.len()
        invariant
            lv == box_view(*bx),
            0 <= i <= lv.len(),
            pos_of(lv, label@) == i + pos_of(lv.subrange(i as int, lv.len() as int), label@),
        decreases lv.len() - i,
    {
        assert(lv.subrange(i as int, lv.len() as int).drop_first() == lv.subrange(i as int + 1, lv.len() as int));
        if bx[i].0 == *label {
            return i;
        }
        i = i + 1;
    }
    i
}

/// Carries out one step on the boxes.
fn apply(boxes: &mut Vec<Vec<(String, u8)>>, op: Operation, s: Ghost<Seq<char>>)
    requires
        old(boxes)@.len() == 256,
        op_matches(op, s@),
    ensures
        final(boxes)@.len() == 256,
        boxes_view(final(boxes)@) == apply_op(boxes_view(old(boxes)@), s@),
{
    let ghost before = boxes_view(boxes@);
    let ghost orig = boxes@;
    match op {
        Operation::Remove { label } => {
            let h = hash_str(label.as_str()) as usize;
            assert(box_view(boxes@[h as int]) == before[h as int]);
            assert(label@ == label_of(s@));
            let out = without_label(&boxes[h], &label);
            boxes.set(h, out);
            assert(boxes@ == orig.update(h as int, out));
            assert(label@ == label_of(s@));
            assert(h == hash_of(label_of(s@)));
            assert(box_view(out) == before[h as int].filter(|l: Lens| l.0 != label@));
            assert((|l: Lens| l.0 != label@) =~= (|l: Lens| l.0 != label_of(s@)));
            assert(boxes_view(boxes@) =~= before.update(h as int, box_view(out)));
            assert(eq_pos(s@) == s@.len());
            assert(apply_op(before, s@) == before.update(h as int, before[h as int].filter(|l: Lens| l.0 != label_of(s@))));
        },
        Operation::Insert { label, focal_length } => {
            let h = hash_str(label.as_str()) as usize;
            let mut bx: Vec<(String, u8)> = Vec::new();
            std::mem::swap(&mut boxes[h], &mut bx);
            assert(box_view(bx) == before[h as int]);
            let ghost lv = box_view(bx);
            let i = position_of(&bx, &label);
            let ghost lens = (label@, focal_length);
            assert(label@ == label_of(s@));
            if i < bx.len() {
                bx.set(i, (label, focal_length));
                assert(box_view(bx) =~= lv.update(i as int, lens));
            } else {
                bx.push((label, focal_length));
                assert(box_view(bx) =~= lv.push(lens));
            }
            boxes.set(h, bx);
            assert(boxes_view(boxes@) =~= before.update(h as int, box_view(bx)));
        },
    }
}

pub struct Sequence {
    pub steps: Vec<Step>,
}

impl Sequence {
    /// The steps of the text, split at commas after the blanks at either end are cut.
    pub fn load(contents: String) -> (r: Self)
        ensures
            lines_of_steps(r.steps@) == split_on(trim(contents@), ','),
    {
        let cs = chars_of(contents.as_str());
        let t = trimmed(&cs);
        let pieces = split_chars(&t, ',');
        let ghost want = split_on(trim(contents@), ',');
        let mut steps: Vec<Step> = Vec::new();
        let mut k: usize = 0;
        while k < pieces.len()
            invariant
                want == split_on(trim(contents@), ','),
                pieces@.len() == want.len(),
                forall|i: int| 0 <= i < pieces@.len() ==> #[trigger] pieces@[i]@ == want[i],
                0 <= k <= pieces@.len(),
                lines_of_steps(steps@) == want.take(k as int),
            decreases pieces@.len() - k,
        {
            let piece = &pieces[k];
            let line = string_of(piece, 0, piece.len());
            proof {
                assert(piece@.subrange(0, piece@.len() as int) == piece@);
            }
            let ghost old_steps = steps@;
            steps.push(Step { line });
            proof {
                assert(lines_of_steps(steps@) == lines_of_steps(old_steps).push(want[k as int]));
                assert(want.take(k as int + 1) == want.take(k as int).push(want[k as int]));
            }
            k = k + 1;
        }
        assert(want.take(k as int) == want);
        Self { steps }
    }

    pub fn hash(&self, input: &str) -> (r: u8)
        ensures
            r == hash_of(input@),
    {
        hash_str(input)
    }

    /// The sum of the hashes of all steps.
    pub fn part1(&self) -> (r: usize)
        requires
            total_hash(self.steps@, self.steps@.len() as int) <= usize::MAX,
        ensures
            r == total_hash(self.steps@, self.steps@.len() as int),
    {
        let mut acc: usize = 0;
        let mut k: usize = 0;
        while k < self.steps.len()
            invariant
                0 <= k <= self.steps@.len(),
                total_hash(self.steps@, self.steps@.len() as int) <= usize::MAX,
                acc == total_hash(self.steps@, k as int),
            decreases self.steps@.len() - k,
        {
            proof {
                lemma_total_hash_mono(self.steps@, k + 1);
            }
            let h = self.hash(self.steps[k].line.as_str());
            acc = acc + h as usize;
            k = k + 1;
        }
        acc
    }

    /// The focusing power of the lenses after all steps: each lens counts its
    /// box number plus one, times its slot plus one, times its focal length.
    pub fn part2(&self) -> (r: usize)
        requires
            forall|i: int| 0 <= i < self.steps@.len() ==> op_ok(#[trigger] self.steps@[i].line@),
            total_power(boxes_after(lines_of_steps(self.steps@)), 256) <= usize::MAX,
        ensures
            r == total_power(boxes_after(lines_of_steps(self.steps@)), 256),
    {
        let ghost lines = lines_of_steps(self.steps@);
        let mut boxes: Vec<Vec<(String, u8)>> = Vec::new();
        let mut b: usize = 0;
        while b < 256
            invariant
                0 <= b <= 256,
                boxes@.len() == b,
                forall|j: int| 0 <= j < b ==> (#[trigger] boxes@[j])@.len() == 0,
            decreases 256 - b,
        {
            boxes.push(Vec::new());
            b = b + 1;
        }
        assert(lines.take(0).len() == 0);
        assert forall|j: int| 0 <= j < 256 implies #[trigger] boxes_view(boxes@)[j] == Seq::<Lens>::empty() by {
            assert(box_view(boxes@[j]) =~= Seq::<Lens>::empty());
        }
        assert(boxes_view(boxes@) =~= boxes_after(lines.take(0)));
        let mut k: usize = 0;
        while k < self.steps.len()
            invariant
                lines == lines_of_steps(self.steps@),
                forall|i: int| 0 <= i < self.steps@.len() ==> op_ok(#[trigger] self.steps@[i].line@),
                0 <= k <= self.steps@.len(),
                boxes@.len() == 256,
                boxes_view(boxes@) == boxes_after(lines.take(k as int)),
            decreases self.steps@.len() - k,
        {
            assert(lines.take(k as int + 1).drop_last() == lines.take(k as int));
            assert(op_ok(self.steps@[k as int].line@));
            let op = self.steps[k].operation();
            apply(&mut boxes, op, Ghost(lines[k as int]));
            k = k + 1;
        }
        assert(lines.take(k as int) == lines);
        let ghost bs = boxes_view(boxes@);
        proof {
            lemma_total_power_mono(bs, 256);
        }
        let mut acc: usize = 0;
        let mut b: usize = 0;
        while b < 256
            invariant
                bs == boxes_view(boxes@),
                boxes@.len() == 256,
                total_power(bs, 256) <= usize::MAX,
                0 <= b <= 256,
                acc == total_power(bs, b as int),
            decreases 256 - b,
        {
            proof {
                lemma_total_power_mono(bs, b + 1);
                lemma_total_power_nonneg(bs, b as int);
            }
            let bx = &boxes[b];
            assert(box_view(*bx) == bs[b as int]);
            let ghost lv = bs[b as int];
            proof {
                lemma_box_power_mono(b as int, lv, lv.len() as int);
            }
            let mut j: usize = 0;
            let mut part: usize = 0;
            while j < bx.len()
                invariant
                    lv == box_view(*bx),
                    0 <= b < 256,
                    0 <= j <= lv.len(),
                    part == box_power(b as int, lv, j as int),
                    acc + box_power(b as int, lv, lv.len() as int) <= usize::MAX,
                    acc >= 0,
                decreases lv.len() - j,
            {
                proof {
                    lemma_box_power_mono(b as int, lv, j + 1);
                }
                let f = bx[j].1;
                assert(f == lv[j as int].1);
                if f > 0 {
                    proof {
                        assert((b + 1) * (j + 1) * f <= usize::MAX) by (nonlinear_arith)
                            requires
                                part + (b + 1) * (j + 1) * f <= usize::MAX,
                                part >= 0,
                                f >= 0,
                        ;
                        assert((b + 1) * (j + 1) <= (b + 1) * (j + 1) * f) by (nonlinear_arith)
                            requires
                                f >= 1,
                                b >= 0,
                                j >= 0,
                        ;
                    }
                    part = part + (b + 1) * (j + 1) * f as usize;
                } else {
                    assert((b + 1) * (j + 1) * f == 0) by (nonlinear_arith)
                        requires
                            f == 0,
                    ;
                }
                j = j + 1;
            }
            acc = acc + part;
            b = b + 1;
        }
        acc
    }

}

proof fn lemma_hash_range(s: Seq<char>)
    ensures
        0 <= hash_of(s) < 256,
    decreases s.len(),
{
    if s.len() > 0 {
        lemma_hash_range(s.drop_last());
    }
}

proof fn lemma_total_hash_mono(steps: Seq<Step>, k: int)
    requires
        0 <= k <= steps.len(),
    ensures
        0 <= total_hash(steps, k) <= total_hash(steps, steps.len() as int),
    decreases steps.len() - k,
{
    lemma_total_hash_nonneg(steps, k);
    if k < steps.len() {
        lemma_total_hash_mono(steps, k + 1);
        lemma_hash_range(steps[k].line@);
    }
}

proof fn lemma_total_hash_nonneg(steps: Seq<Step>, k: int)
    ensures
        total_hash(steps, k) >= 0,
    decreases k,
{
    if !(k <= 0 || k > steps.len()) {
        lemma_total_hash_nonneg(steps, k - 1);
        lemma_hash_range(steps[k - 1].line@);
    }
}

} // verus!
