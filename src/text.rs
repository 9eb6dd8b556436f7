//! Plain text helpers shared by the puzzle parsers.
use vstd::prelude::*;
use vstd::std_specs::iter::IteratorSpec;

verus! {

/// The pieces of `s` between occurrences of `sep`, as `str::split` yields them:
/// there is always at least one piece, and an empty input gives one empty piece.
pub open spec fn split_on(s: Seq<char>, sep: char) -> Seq<Seq<char>>
    decreases s.len(),
{
    if s.len() == 0 {
        seq![Seq::<char>::empty()]
    } else {
        let prev = split_on(s.drop_last(), sep);
        if s.last() == sep {
            prev.push(Seq::<char>::empty())
        } else {
            prev.update(prev.len() - 1, prev.last().push(s.last()))
        }
    }
}

/// The rows of a text: the pieces between newlines, without the empty piece
/// that a final newline leaves.
pub open spec fn lines_of(s: Seq<char>) -> Seq<Seq<char>> {
    let parts = split_on(s, '\n');
    if parts.last().len() == 0 {
        parts.drop_last()
    } else {
        parts
    }
}

/// The rows of the text `s`, each as its characters.
pub fn split_lines(s: &Vec<char>) -> (r: Vec<Vec<char>>)
    ensures
        r@.len() == lines_of(s@).len(),
        forall|i: int| 0 <= i < r@.len() ==> #[trigger] r@[i]@ == lines_of(s@)[i],
{
    let mut rows = split_chars(s, '\n');
    proof {
        lemma_split_on_nonempty(s@, '\n');
    }
    let last = rows.len() - 1;
    if rows[last].len() == 0 {
        rows.pop();
    }
    rows
}

/// The groups of lines that empty lines separate; there is always at least
/// one group.
pub open spec fn sections(ls: Seq<Seq<char>>) -> Seq<Seq<Seq<char>>>
    decreases ls.len(),
{
    if ls.len() == 0 {
        seq![Seq::<Seq<char>>::empty()]
    } else {
        let prev = sections(ls.drop_last());
        if ls.last().len() == 0 {
            prev.push(Seq::<Seq<char>>::empty())
        } else {
            prev.update(prev.len() - 1, prev.last().push(ls.last()))
        }
    }
}

proof fn lemma_sections_nonempty(ls: Seq<Seq<char>>)
    ensures
        sections(ls).len() >= 1,
    decreases ls.len(),
{
    if ls.len() > 0 {
        lemma_sections_nonempty(ls.drop_last());
    }
}

pub open spec fn rows_of(v: Seq<Vec<char>>) -> Seq<Seq<char>> {
    v.map_values(|r: Vec<char>| r@)
}

/// Groups the rows at empty rows.
pub fn split_sections(rows: &Vec<Vec<char>>) -> (r: Vec<Vec<Vec<char>>>)
    ensures
        r@.len() == sections(rows_of(rows@)).len(),
        forall|i: int| 0 <= i < r@.len() ==> rows_of(#[trigger] r@[i]@) == sections(rows_of(rows@))[i],
{
    let ghost ls = rows_of(rows@);
    let mut done: Vec<Vec<Vec<char>>> = Vec::new();
    let mut cur: Vec<Vec<char>> = Vec::new();
    let mut i: usize = 0;
    while i < rows.len()
        invariant
            ls == rows_of(rows@),
            0 <= i <= rows@.len(),
            done@.len() + 1 == sections(ls.take(i as int)).len(),
            forall|k: int| 0 <= k < done@.len() ==> rows_of(#[trigger] done@[k]@) == sections(ls.take(i as int))[k],
            rows_of(cur@) == sections(ls.take(i as int)).last(),
        decreases rows@.len() - i,
    {
        proof {
            assert(ls.take(i as int + 1).drop_last() == ls.take(i as int));
            lemma_sections_nonempty(ls.take(i as int));
        }
        let row = &rows[i];
        if row.len() == 0 {
            let finished = cur;
            done.push(finished);
            cur = Vec::new();
            assert(rows_of(cur@) =~= Seq::<Seq<char>>::empty());
        } else {
            let copy = string_chars(row);
            let ghost before = rows_of(cur@);
            cur.push(copy);
            assert(rows_of(cur@) =~= before.push(row@));
        }
        i = i + 1;
    }
    assert(ls.take(i as int) == ls);
    done.push(cur);
    done
}

/// A copy of the characters.
pub fn string_chars(v: &Vec<char>) -> (r: Vec<char>)
    ensures
        r@ == v@,
{
    let mut r: Vec<char> = Vec::new();
    let mut i: usize = 0;
    while i < v.len()
        invariant
            0 <= i <= v@.len(),
            r@ == v@.take(i as int),
        decreases v@.len() - i,
    {
        r.push(v[i]);
        assert(v@.take(i as int + 1) == v@.take(i as int).push(v@[i as int]));
        i = i + 1;
    }
    assert(v@.take(i as int) == v@);
    r
}

/// Where the first `c` stands in `s`, or the length when there is none.
pub open spec fn first_pos(s: Seq<char>, c: char) -> int
    decreases s.len(),
{
    if s.len() == 0 {
        0
    } else if s[0] == c {
        0
    } else {
        1 + first_pos(s.drop_first(), c)
    }
}

pub fn find_char(s: &Vec<char>, c: char) -> (r: usize)
    ensures
        r == first_pos(s@, c),
        r <= s@.len(),
        r < s@.len() ==> s@[r as int] == c,
        forall|j: int| 0 <= j < r ==> s@[j] != c,
{
    let mut i: usize = 0;
    assert(s@.subrange(0, s@.len() as int) == s@);
    while i < s.len()
        invariant
            0 <= i <= s@.len(),
            first_pos(s@, c) == i + first_pos(s@.subrange(i as int, s@.len() as int), c),
            forall|j: int| 0 <= j < i ==> s@[j] != c,
        decreases s@.len() - i,
    {
        assert(s@.subrange(i as int, s@.len() as int).drop_first() == s@.subrange(i as int + 1, s@.len() as int));
        if s[i] == c {
            return i;
        }
        i = i + 1;
    }
    i
}

pub proof fn lemma_split_on_nonempty(s: Seq<char>, sep: char)
    ensures
        split_on(s, sep).len() >= 1,
    decreases s.len(),
{
    if s.len() > 0 {
        lemma_split_on_nonempty(s.drop_last(), sep);
    }
}

/// The characters of a string, one by one.
pub fn chars_of(s: &str) -> (r: Vec<char>)
    ensures
        r@ == s@,
{
    let mut it = s.chars();
    let mut v: Vec<char> = Vec::new();
    loop
        invariant
            it.obeys_prophetic_iter_laws(),
            it.decrease() is Some,
            v@ + it.remaining() == s@,
        decreases it.decrease()->0,
    {
        match it.next() {
            Some(c) => {
                v.push(c);
            },
            None => {
                return v;
            },
        }
    }
}

/// Splits `s` at each `sep`; the view of each piece is the matching piece of `split_on`.
pub fn split_chars(s: &Vec<char>, sep: char) -> (r: Vec<Vec<char>>)
    ensures
        r@.len() == split_on(s@, sep).len(),
        forall|i: int| 0 <= i < r@.len() ==> #[trigger] r@[i]@ == split_on(s@, sep)[i],
{
    let mut parts: Vec<Vec<char>> = Vec::new();
    let mut cur: Vec<char> = Vec::new();
    let mut i: usize = 0;
    while i < s.len()
        invariant
            i <= s@.len(),
            parts@.len() + 1 == split_on(s@.take(i as int), sep).len(),
            forall|k: int| 0 <= k < parts@.len() ==> #[trigger] parts@[k]@ == split_on(s@.take(i as int), sep)[k],
            cur@ == split_on(s@.take(i as int), sep).last(),
        decreases s@.len() - i,
    {
        proof {
            assert(s@.take(i as int + 1).drop_last() == s@.take(i as int));
            lemma_split_on_nonempty(s@.take(i as int), sep);
        }
        let c = s[i];
        if c == sep {
            let done = cur;
            parts.push(done);
            cur = Vec::new();
        } else {
            cur.push(c);
        }
        i = i + 1;
    }
    proof {
        assert(s@.take(i as int) == s@);
    }
    parts.push(cur);
    parts
}

pub open spec fn is_digit(c: char) -> bool {
    '0' <= c <= '9'
}

pub open spec fn digit_of(c: char) -> int {
    (c as u32) - ('0' as u32)
}

pub open spec fn all_digits(s: Seq<char>) -> bool {
    forall|i: int| 0 <= i < s.len() ==> is_digit(#[trigger] s[i])
}

/// The number that the decimal digits `s` write.
pub open spec fn decimal(s: Seq<char>) -> int
    decreases s.len(),
{
    if s.len() == 0 {
        0
    } else {
        10 * decimal(s.drop_last()) + digit_of(s.last())
    }
}

proof fn lemma_decimal_nonneg(s: Seq<char>)
    requires
        all_digits(s),
    ensures
        decimal(s) >= 0,
    decreases s.len(),
{
    if s.len() > 0 {
        lemma_decimal_nonneg(s.drop_last());
    }
}

/// The value of the digits `s[a..b]`, if they are a non-empty run of decimal
/// digits whose value fits in a `u64`.
pub fn parse_u64(s: &Vec<char>, a: usize, b: usize) -> (r: Option<u64>)
    requires
        a <= b <= s@.len(),
    ensures
        r is Some <==> a < b && all_digits(s@.subrange(a as int, b as int)) && decimal(
            s@.subrange(a as int, b as int),
        ) <= u64::MAX,
        r matches Some(v) ==> v == decimal(s@.subrange(a as int, b as int)),
{
    let ghost t = s@.subrange(a as int, b as int);
    if a == b {
        return None;
    }
    let mut v: u64 = 0;
    let mut i: usize = a;
    while i < b
        invariant
            t == s@.subrange(a as int, b as int),
            a <= i <= b <= s@.len(),
            all_digits(t.take(i - a)),
            v == decimal(t.take(i - a)),
        decreases b - i,
    {
        let c = s[i];
        let ghost k = i - a;
        assert(t.take(k + 1).drop_last() == t.take(k));
        assert(t[k] == c);
        if !('0' <= c && c <= '9') {
            assert(!is_digit(t[k]));
            return None;
        }
        let d = (c as u32 - '0' as u32) as u64;
        if v > (u64::MAX - d) / 10 {
            proof {
                assert(10 * v + d > u64::MAX) by (nonlinear_arith)
                    requires
                        v > (u64::MAX - d) / 10,
                        0 <= d <= 9,
                ;
                assert(decimal(t.take(k + 1)) == 10 * v + d);
                if all_digits(t) {
                    lemma_decimal_big(t, k + 1);
                }
            }
            return None;
        }
        v = v * 10 + d;
        i = i + 1;
    }
    assert(t.take(b - a) == t);
    Some(v)
}

/// Digits after a prefix can only make the number larger.
proof fn lemma_decimal_big(s: Seq<char>, k: int)
    requires
        0 <= k <= s.len(),
        all_digits(s),
    ensures
        decimal(s.take(k)) <= decimal(s),
    decreases s.len() - k,
{
    if k < s.len() {
        lemma_decimal_big(s, k + 1);
        assert(s.take(k + 1).drop_last() == s.take(k));
        lemma_decimal_nonneg(s.take(k));
    } else {
        assert(s.take(k) == s);
    }
}

/// Relies on `String::push`: it appends one character to the string.
#[verifier::external_body]
fn push_char(s: &mut String, c: char)
    ensures
        final(s)@ == old(s)@.push(c),
{
    s.push(c);
}

/// A string holding the characters `v[a..b]`.
pub fn string_of(v: &Vec<char>, a: usize, b: usize) -> (r: String)
    requires
        a <= b <= v@.len(),
    ensures
        r@ == v@.subrange(a as int, b as int),
{
    let mut r = String::new();
    let mut i: usize = a;
    while i < b
        invariant
            a <= i <= b <= v@.len(),
            r@ == v@.subrange(a as int, i as int),
        decreases b - i,
    {
        assert(v@.subrange(a as int, i as int + 1) == v@.subrange(a as int, i as int).push(v@[i as int]));
        push_char(&mut r, v[i]);
        i = i + 1;
    }
    r
}

/// The lines, each followed by a newline.
pub open spec fn joined(ls: Seq<Seq<char>>) -> Seq<char>
    decreases ls.len(),
{
    if ls.len() == 0 {
        Seq::empty()
    } else {
        joined(ls.drop_last()) + ls.last() + seq!['\n']
    }
}

pub open spec fn no_newline(s: Seq<char>) -> bool {
    forall|i: int| 0 <= i < s.len() ==> s[i] != '\n'
}

proof fn lemma_split_append(s: Seq<char>, t: Seq<char>, sep: char)
    requires
        forall|i: int| 0 <= i < t.len() ==> t[i] != sep,
    ensures
        split_on(s + t, sep) == split_on(s, sep).update(
            split_on(s, sep).len() - 1,
            split_on(s, sep).last() + t,
        ),
    decreases t.len(),
{
    lemma_split_on_nonempty(s, sep);
    if t.len() == 0 {
        assert(s + t == s);
        assert(split_on(s, sep).last() + t == split_on(s, sep).last());
        assert(split_on(s, sep).update(split_on(s, sep).len() - 1, split_on(s, sep).last()) =~= split_on(s, sep));
    } else {
        lemma_split_append(s, t.drop_last(), sep);
        assert((s + t).drop_last() == s + t.drop_last());
        assert((s + t).last() == t.last());
        lemma_split_on_nonempty(s + t.drop_last(), sep);
        assert(split_on(s, sep).last() + t == (split_on(s, sep).last() + t.drop_last()).push(t.last()));
        assert(split_on(s + t, sep) =~= split_on(s, sep).update(split_on(s, sep).len() - 1, split_on(s, sep).last() + t));
    }
}

/// Reading back the lines of joined lines gives the lines.
pub proof fn lemma_lines_of_joined(ls: Seq<Seq<char>>)
    requires
        forall|i: int| 0 <= i < ls.len() ==> no_newline(#[trigger] ls[i]),
    ensures
        split_on(joined(ls), '\n') == ls.push(Seq::<char>::empty()),
        lines_of(joined(ls)) == ls,
    decreases ls.len(),
{
    if ls.len() == 0 {
        assert(split_on(Seq::<char>::empty(), '\n') =~= seq![Seq::<char>::empty()]);
        assert(ls.push(Seq::<char>::empty()) =~= seq![Seq::<char>::empty()]);
    } else {
        let prev = ls.drop_last();
        assert forall|i: int| 0 <= i < prev.len() implies no_newline(#[trigger] prev[i]) by {
            assert(prev[i] == ls[i]);
        }
        lemma_split_on_nonempty(joined(prev), '\n');
        lemma_lines_of_joined(prev);
        assert(no_newline(ls.last()));
        lemma_split_append(joined(prev), ls.last(), '\n');
        let body = joined(prev) + ls.last();
        assert(joined(ls) == body.push('\n'));
        assert(body.push('\n').drop_last() == body);
        let sp = split_on(joined(prev), '\n');
        assert(sp.last() + ls.last() =~= ls.last());
        assert(split_on(body, '\n') =~= prev.push(ls.last()));
        assert(prev.push(ls.last()) =~= ls);
        assert(split_on(joined(ls), '\n') =~= ls.push(Seq::<char>::empty()));
        assert(lines_of(joined(ls)) =~= ls);
    }
}

/// Lines never hold a newline.
pub proof fn lemma_lines_no_newline(s: Seq<char>)
    ensures
        forall|i: int| 0 <= i < lines_of(s).len() ==> no_newline(#[trigger] lines_of(s)[i]),
{
    lemma_split_no_sep(s, '\n');
    lemma_split_on_nonempty(s, '\n');
    let parts = split_on(s, '\n');
    assert forall|i: int| 0 <= i < lines_of(s).len() implies no_newline(#[trigger] lines_of(s)[i]) by {
        assert(lines_of(s)[i] == parts[i]);
    }
}

proof fn lemma_split_no_sep(s: Seq<char>, sep: char)
    ensures
        forall|i: int, j: int|
            0 <= i < split_on(s, sep).len() && 0 <= j < split_on(s, sep)[i].len() ==> #[trigger] split_on(s, sep)[i][j]
                != sep,
    decreases s.len(),
{
    if s.len() > 0 {
        lemma_split_no_sep(s.drop_last(), sep);
        lemma_split_on_nonempty(s.drop_last(), sep);
        let prev = split_on(s.drop_last(), sep);
        if s.last() != sep {
            assert forall|i: int, j: int|
                0 <= i < split_on(s, sep).len() && 0 <= j < split_on(s, sep)[i].len() implies #[trigger] split_on(s, sep)[i][j]
                    != sep by {
                if i < prev.len() - 1 {
                    assert(split_on(s, sep)[i] == prev[i]);
                } else {
                    assert(split_on(s, sep)[i] == prev.last().push(s.last()));
                    if j < prev.last().len() {
                        assert(prev.last()[j] == prev[prev.len() - 1][j]);
                    }
                }
            }
        } else {
            assert forall|i: int, j: int|
                0 <= i < split_on(s, sep).len() && 0 <= j < split_on(s, sep)[i].len() implies #[trigger] split_on(s, sep)[i][j]
                    != sep by {
                if i < prev.len() {
                    assert(split_on(s, sep)[i] == prev[i]);
                }
            }
        }
    }
}

/// The lines, each followed by a newline, as one text.
pub fn join_lines(ls: &Vec<Vec<char>>) -> (r: String)
    ensures
        r@ == joined(rows_of(ls@)),
{
    let ghost rs = rows_of(ls@);
    let mut all: Vec<char> = Vec::new();
    let mut k: usize = 0;
    while k < ls.len()
        invariant
            rs == rows_of(ls@),
            0 <= k <= ls@.len(),
            all@ == joined(rs.take(k as int)),
        decreases ls@.len() - k,
    {
        let row = &ls[k];
        let ghost before = all@;
        let mut i: usize = 0;
        while i < row.len()
            invariant
                0 <= i <= row@.len(),
                all@ == before + row@.take(i as int),
            decreases row@.len() - i,
        {
            all.push(row[i]);
            assert(row@.take(i as int + 1) == row@.take(i as int).push(row@[i as int]));
            i = i + 1;
        }
        all.push('\n');
        assert(rs.take(k as int + 1).drop_last() == rs.take(k as int));
        assert(rs.take(k as int + 1).last() == row@);
        assert(row@.take(i as int) == row@);
        assert(all@ =~= joined(rs.take(k as int + 1)));
        k = k + 1;
    }
    assert(rs.take(k as int) == rs);
    string_of(&all, 0, all.len())
}

/// The lines of sections are lines of the text, so they hold no newline either.
pub proof fn lemma_sections_no_newline(ls: Seq<Seq<char>>)
    requires
        forall|k: int| 0 <= k < ls.len() ==> no_newline(#[trigger] ls[k]),
    ensures
        forall|i: int, j: int|
            0 <= i < sections(ls).len() && 0 <= j < sections(ls)[i].len() ==> no_newline(#[trigger] sections(ls)[i][j]),
    decreases ls.len(),
{
    if ls.len() > 0 {
        let prev = ls.drop_last();
        assert forall|k: int| 0 <= k < prev.len() implies no_newline(#[trigger] prev[k]) by {
            assert(prev[k] == ls[k]);
        }
        lemma_sections_no_newline(prev);
        lemma_sections_nonempty(prev);
        let ps = sections(prev);
        assert(no_newline(ls[ls.len() - 1]));
        assert forall|i: int, j: int|
            0 <= i < sections(ls).len() && 0 <= j < sections(ls)[i].len() implies no_newline(#[trigger] sections(ls)[i][j]) by {
            if ls.last().len() == 0 {
                if i < ps.len() {
                    assert(sections(ls)[i] == ps[i]);
                }
            } else {
                if i < ps.len() - 1 {
                    assert(sections(ls)[i] == ps[i]);
                } else {
                    assert(sections(ls)[i] == ps.last().push(ls.last()));
                    if j < ps.last().len() {
                        assert(sections(ls)[i][j] == ps[ps.len() - 1][j]);
                    }
                }
            }
        }
    }
}

/// Changing one character that is not the separator keeps the pieces' lengths.
pub proof fn lemma_split_update(s: Seq<char>, i: int, c: char, sep: char)
    requires
        0 <= i < s.len(),
        s[i] != sep,
        c != sep,
    ensures
        split_on(s.update(i, c), sep).len() == split_on(s, sep).len(),
        forall|k: int|
            0 <= k < split_on(s, sep).len() ==> (#[trigger] split_on(s.update(i, c), sep)[k]).len() == split_on(
                s,
                sep,
            )[k].len(),
    decreases s.len(),
{
    let u = s.update(i, c);
    lemma_split_on_nonempty(s.drop_last(), sep);
    lemma_split_on_nonempty(u.drop_last(), sep);
    if i == s.len() - 1 {
        assert(u.drop_last() == s.drop_last());
    } else {
        assert(u.drop_last() == s.drop_last().update(i, c));
        lemma_split_update(s.drop_last(), i, c, sep);
        assert(u.last() == s.last());
    }
}

} // verus!
