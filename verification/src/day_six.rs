//! Counting elves, and elves on shelves, in a text.
use vstd::prelude::*;
use crate::text::chars_of;

verus! {

/// The three counts the endpoint answers with.
#[derive(Debug)]
pub struct DaySixResp {
    pub elf: usize,
    pub elf_on_a_shelf: usize,
    pub lonely_shelves: usize,
}

/// `"elf"` starts at index `i` of `s`.
pub open spec fn is_elf_at(s: Seq<char>, i: int) -> bool {
    0 <= i && i + 3 <= s.len() && s[i] == 'e' && s[i + 1] == 'l' && s[i + 2] == 'f'
}

/// Index of the first `"elf"` in `s`, or its length when there is none.
pub open spec fn next_elf(s: Seq<char>) -> nat
    decreases s.len(),
{
    if s.len() < 3 {
        s.len()
    } else if is_elf_at(s, 0) {
        0
    } else {
        1 + next_elf(s.drop_first())
    }
}

/// The pieces of `s` between the occurrences of `"elf"`, as `str::split("elf")` gives
/// them (the occurrences found from left to right, none overlapping).
pub open spec fn split_elf(s: Seq<char>) -> Seq<Seq<char>>
    decreases s.len(),
{
    let i = next_elf(s) as int;
    if i + 3 > s.len() {
        seq![s]
    } else {
        seq![s.take(i)] + split_elf(s.skip(i + 3))
    }
}

/// The characters with the Unicode `White_Space` property, which `char::is_whitespace`
/// tests and `str::trim` removes.
pub open spec fn is_white_space(c: char) -> bool {
    ||| ('\u{9}' <= c && c <= '\u{d}')
    ||| c == ' '
    ||| c == '\u{85}'
    ||| c == '\u{a0}'
    ||| c == '\u{1680}'
    ||| ('\u{2000}' <= c && c <= '\u{200a}')
    ||| c == '\u{2028}'
    ||| c == '\u{2029}'
    ||| c == '\u{202f}'
    ||| c == '\u{205f}'
    ||| c == '\u{3000}'
}

/// How many characters at the start of `s` are white space.
pub open spec fn leading_ws(s: Seq<char>) -> nat
    decreases s.len(),
{
    if s.len() > 0 && is_white_space(s[0]) {
        1 + leading_ws(s.drop_first())
    } else {
        0
    }
}

/// How many characters at the end of `s` are white space.
pub open spec fn trailing_ws(s: Seq<char>) -> nat
    decreases s.len(),
{
    if s.len() > 0 && is_white_space(s.last()) {
        1 + trailing_ws(s.drop_last())
    } else {
        0
    }
}

/// `s` without white space at either end, as `str::trim` gives it.
pub open spec fn trimmed(s: Seq<char>) -> Seq<char> {
    let t = s.skip(leading_ws(s) as int);
    t.take(t.len() - trailing_ws(t))
}

pub open spec fn ends_with_sh(p: Seq<char>) -> bool {
    p.len() >= 2 && p[p.len() - 2] == 's' && p[p.len() - 1] == 'h'
}

pub open spec fn on_a_sh() -> Seq<char> {
    seq!['o', 'n', ' ', 'a', ' ', 's', 'h']
}

/// How many pieces end with `"sh"`.
pub open spec fn count_shelves(ps: Seq<Seq<char>>) -> nat
    decreases ps.len(),
{
    if ps.len() == 0 {
        0
    } else {
        count_shelves(ps.drop_last()) + if ends_with_sh(ps.last()) {
            1nat
        } else {
            0nat
        }
    }
}

/// How many pieces are `"on a sh"` once trimmed.
pub open spec fn count_on_shelf(ps: Seq<Seq<char>>) -> nat
    decreases ps.len(),
{
    if ps.len() == 0 {
        0
    } else {
        count_on_shelf(ps.drop_last()) + if trimmed(ps.last()) == on_a_sh() {
            1nat
        } else {
            0nat
        }
    }
}

proof fn lemma_next_elf(s: Seq<char>, m: int)
    requires
        0 <= m <= s.len(),
        forall|j: int| 0 <= j < m ==> !is_elf_at(s, j),
        m == s.len() || is_elf_at(s, m),
    ensures
        next_elf(s) == m || (m == s.len() && next_elf(s) + 3 > s.len() && forall|j: int|
            0 <= j < s.len() ==> !is_elf_at(s, j)),
        m < s.len() ==> next_elf(s) == m,
    decreases m,
{
    if s.len() < 3 {
    } else if m == 0 {
    } else {
        let t = s.drop_first();
        assert forall|j: int| 0 <= j < m - 1 implies !is_elf_at(t, j) by {
            assert(!is_elf_at(s, j + 1));
        }
        if m < s.len() {
            assert(is_elf_at(t, m - 1));
        }
        assert(!is_elf_at(s, 0));
        lemma_next_elf(t, m - 1);
    }
}

/// `s` has no `"elf"` at all: the split leaves it whole.
proof fn lemma_split_none(s: Seq<char>)
    requires
        forall|j: int| 0 <= j < s.len() ==> !is_elf_at(s, j),
    ensures
        split_elf(s) == seq![s],
    decreases s.len(),
{
    lemma_next_elf_none(s);
}

proof fn lemma_next_elf_none(s: Seq<char>)
    requires
        forall|j: int| 0 <= j < s.len() ==> !is_elf_at(s, j),
    ensures
        next_elf(s) == s.len(),
    decreases s.len(),
{
    if s.len() >= 3 {
        let t = s.drop_first();
        assert forall|j: int| 0 <= j < t.len() implies !is_elf_at(t, j) by {
            assert(!is_elf_at(s, j + 1));
        }
        assert(!is_elf_at(s, 0));
        lemma_next_elf_none(t);
    }
}

fn is_white_space_exec(c: char) -> (b: bool)
    ensures
        b == is_white_space(c),
{
    ('\u{9}' <= c && c <= '\u{d}') || c == ' ' || c == '\u{85}' || c == '\u{a0}' || c
        == '\u{1680}' || ('\u{2000}' <= c && c <= '\u{200a}') || c == '\u{2028}' || c
        == '\u{2029}' || c == '\u{202f}' || c == '\u{205f}' || c == '\u{3000}'
}

proof fn lemma_leading(s: Seq<char>, a: int)
    requires
        0 <= a <= s.len(),
        forall|j: int| 0 <= j < a ==> is_white_space(s[j]),
        a == s.len() || !is_white_space(s[a]),
    ensures
        leading_ws(s) == a,
    decreases a,
{
    if a > 0 {
        lemma_leading(s.drop_first(), a - 1);
    }
}

proof fn lemma_trailing(s: Seq<char>, b: int)
    requires
        0 <= b <= s.len(),
        forall|j: int| b <= j < s.len() ==> is_white_space(s[j]),
        b == 0 || !is_white_space(s[b - 1]),
    ensures
        trailing_ws(s) == s.len() - b,
    decreases s.len() - b,
{
    if b < s.len() {
        lemma_trailing(s.drop_last(), b);
    }
}

proof fn lemma_leading_ws_props(s: Seq<char>)
    ensures
        leading_ws(s) <= s.len(),
        forall|i: int| 0 <= i < leading_ws(s) ==> is_white_space(#[trigger] s[i]),
        leading_ws(s) < s.len() ==> !is_white_space(s[leading_ws(s) as int]),
    decreases s.len(),
{
    if s.len() > 0 && is_white_space(s[0]) {
        let t = s.drop_first();
        lemma_leading_ws_props(t);
        assert forall|i: int| 0 <= i < leading_ws(s) implies is_white_space(#[trigger] s[i]) by {
            if i > 0 {
                assert(s[i] == t[i - 1]);
            }
        }
        if leading_ws(s) < s.len() {
            assert(s[leading_ws(s) as int] == t[leading_ws(t) as int]);
        }
    }
}

proof fn lemma_trailing_ws_props(s: Seq<char>)
    ensures
        trailing_ws(s) <= s.len(),
        forall|i: int| s.len() - trailing_ws(s) <= i < s.len() ==> is_white_space(#[trigger] s[i]),
        trailing_ws(s) < s.len() ==> !is_white_space(s[s.len() - trailing_ws(s) - 1]),
    decreases s.len(),
{
    if s.len() > 0 && is_white_space(s.last()) {
        let t = s.drop_last();
        lemma_trailing_ws_props(t);
        assert forall|i: int| s.len() - trailing_ws(s) <= i < s.len() implies is_white_space(
            #[trigger] s[i],
        ) by {
            if i < s.len() - 1 {
                assert(s[i] == t[i]);
            }
        }
        if trailing_ws(s) < s.len() {
            assert(s[s.len() - trailing_ws(s) - 1] == t[t.len() - trailing_ws(t) - 1]);
        }
    }
}

/// The piece is `"on a sh"` with only white space before and after it.
proof fn lemma_trimmed_is_on_a_sh(p: Seq<char>)
    ensures
        (trimmed(p) == "on a sh"@) <==> exists|a: int|
            {
                &&& 0 <= a
                &&& a + 7 <= p.len()
                &&& (forall|i: int| 0 <= i < a ==> is_white_space(#[trigger] p[i]))
                &&& #[trigger] p.subrange(a, a + 7) == "on a sh"@
                &&& (forall|i: int| a + 7 <= i < p.len() ==> is_white_space(#[trigger] p[i]))
            },
{
    reveal_strlit("on a sh");
    let w: Seq<char> = "on a sh"@;
    assert(w.len() == 7 && w[0] == 'o' && w[6] == 'h');
    lemma_leading_ws_props(p);
    let a = leading_ws(p) as int;
    let t = p.skip(a);
    lemma_trailing_ws_props(t);
    let b = trailing_ws(t) as int;
    if trimmed(p) == w {
        assert(t.len() - b == 7);
        assert(p.subrange(a, a + 7) =~= t.take(7));
        assert forall|i: int| a + 7 <= i < p.len() implies is_white_space(#[trigger] p[i]) by {
            assert(p[i] == t[i - a]);
        }
        assert(0 <= a && a + 7 <= p.len());
    }
    if exists|a2: int|
        {
            &&& 0 <= a2
            &&& a2 + 7 <= p.len()
            &&& (forall|i: int| 0 <= i < a2 ==> is_white_space(#[trigger] p[i]))
            &&& #[trigger] p.subrange(a2, a2 + 7) == w
            &&& (forall|i: int| a2 + 7 <= i < p.len() ==> is_white_space(#[trigger] p[i]))
        } {
        let a2 = choose|a2: int|
            {
                &&& 0 <= a2
                &&& a2 + 7 <= p.len()
                &&& (forall|i: int| 0 <= i < a2 ==> is_white_space(#[trigger] p[i]))
                &&& #[trigger] p.subrange(a2, a2 + 7) == w
                &&& (forall|i: int| a2 + 7 <= i < p.len() ==> is_white_space(#[trigger] p[i]))
            };
        assert(p[a2] == p.subrange(a2, a2 + 7)[0]);
        assert(!is_white_space(p[a2]));
        lemma_leading(p, a2);
        let t2 = p.skip(a2);
        assert(t2[6] == p.subrange(a2, a2 + 7)[6]);
        assert forall|j: int| 7 <= j < t2.len() implies is_white_space(t2[j]) by {
            assert(t2[j] == p[a2 + j]);
        }
        lemma_trailing(t2, 7);
        assert(trimmed(p) =~= p.subrange(a2, a2 + 7));
    }
}

/// A piece between two `"elf"`s counts as an elf on a shelf exactly when it is `"on a sh"`
/// with nothing but white space before and after it: adding a piece adds one to the count
/// just then, and an empty list counts nothing.
pub proof fn law_on_shelf_piece(ps: Seq<Seq<char>>, p: Seq<char>)
    ensures
        count_on_shelf(Seq::<Seq<char>>::empty()) == 0,
        count_on_shelf(ps.push(p)) == count_on_shelf(ps) + if exists|a: int|
            {
                &&& 0 <= a
                &&& a + 7 <= p.len()
                &&& (forall|i: int| 0 <= i < a ==> is_white_space(#[trigger] p[i]))
                &&& #[trigger] p.subrange(a, a + 7) == "on a sh"@
                &&& (forall|i: int| a + 7 <= i < p.len() ==> is_white_space(#[trigger] p[i]))
            } {
            1nat
        } else {
            0nat
        },
{
    reveal_strlit("on a sh");
    assert(on_a_sh() =~= "on a sh"@);
    assert(ps.push(p).drop_last() =~= ps);
    lemma_trimmed_is_on_a_sh(p);
}

/// Whether `cs[from..to]`, once trimmed, is `"on a sh"`.
fn trims_to_on_a_sh(cs: &Vec<char>, from: usize, to: usize) -> (b: bool)
    requires
        from <= to <= cs.len(),
    ensures
        b == (trimmed(cs@.subrange(from as int, to as int)) == on_a_sh()),
{
    let ghost p = cs@.subrange(from as int, to as int);
    let mut a = from;
    while a < to && is_white_space_exec(cs[a])
        invariant
            from <= a <= to <= cs.len(),
            forall|j: int| from <= j < a ==> is_white_space(cs@[j]),
        decreases to - a,
    {
        a = a + 1;
    }
    proof {
        lemma_leading(p, a - from);
    }
    let ghost t = p.skip(a - from);
    assert(t =~= cs@.subrange(a as int, to as int));
    let mut b = to;
    while b > a && is_white_space_exec(cs[b - 1])
        invariant
            a <= b <= to <= cs.len(),
            forall|j: int| b <= j < to ==> is_white_space(cs@[j]),
        decreases b - a,
    {
        b = b - 1;
    }
    proof {
        lemma_trailing(t, b - a);
        assert(trimmed(p) =~= cs@.subrange(a as int, b as int));
    }
    if b - a != 7 {
        return false;
    }
    let r = cs[a] == 'o' && cs[a + 1] == 'n' && cs[a + 2] == ' ' && cs[a + 3] == 'a' && cs[a + 4]
        == ' ' && cs[a + 5] == 's' && cs[a + 6] == 'h';
    proof {
        let q = cs@.subrange(a as int, b as int);
        if r {
            assert(q =~= on_a_sh());
        } else {
            if q == on_a_sh() {
                assert(q[0] == 'o' && q[1] == 'n' && q[2] == ' ' && q[3] == 'a');
                assert(q[4] == ' ' && q[5] == 's' && q[6] == 'h');
            }
        }
    }
    r
}

/// Counts the elves in `data`: one for each `"elf"` in it; the elves on a shelf, one for
/// each piece between them that reads `"on a sh"` once trimmed; and the shelves with no elf,
/// the pieces that end with `"sh"` less those. `None` where more pieces read `"on a sh"`
/// than end with `"sh"` (white space after the `"sh"`), so that the difference is negative.
pub fn endpoint_checked(data: &str) -> (r: Option<DaySixResp>)
    ensures
        count_on_shelf(split_elf(data@)) > count_shelves(split_elf(data@)) ==> r is None,
        count_on_shelf(split_elf(data@)) <= count_shelves(split_elf(data@)) ==> (r matches Some(
            d,
        ) && d.elf == split_elf(data@).len() - 1 && d.elf_on_a_shelf == count_on_shelf(
            split_elf(data@),
        ) && d.lonely_shelves == count_shelves(split_elf(data@)) - count_on_shelf(
            split_elf(data@),
        )),
{
    let cs = chars_of(data);
    let n = cs.len();
    let mut elves: usize = 0;
    let mut shelves: usize = 0;
    let mut on_shelves: usize = 0;
    let mut start: usize = 0;
    let mut i: usize = 0;
    let ghost mut done: Seq<Seq<char>> = seq![];
    assert(data@.skip(0) =~= data@);
    assert(done + split_elf(data@) =~= split_elf(data@));
    while i < n
        invariant
            cs@ == data@,
            n == cs@.len(),
            start <= i <= n,
            forall|j: int| start <= j < i ==> !is_elf_at(cs@, j),
            split_elf(data@) == done + split_elf(data@.skip(start as int)),
            elves == done.len(),
            shelves == count_shelves(done),
            on_shelves == count_on_shelf(done),
            3 * done.len() <= start,
            shelves <= done.len(),
            on_shelves <= done.len(),
        decreases n - i,
    {
        if n - i >= 3 && cs[i] == 'e' && cs[i + 1] == 'l' && cs[i + 2] == 'f' {
            let ghost rest = data@.skip(start as int);
            let ghost piece = cs@.subrange(start as int, i as int);
            proof {
                let m = (i - start) as int;
                assert forall|j: int| 0 <= j < m implies !is_elf_at(rest, j) by {
                    assert(!is_elf_at(cs@, start + j));
                }
                assert(is_elf_at(rest, m));
                lemma_next_elf(rest, m);
                assert(rest.take(m) =~= piece);
                assert(rest.skip(m + 3) =~= data@.skip(i + 3));
            }
            let sh = i - start >= 2 && cs[i - 2] == 's' && cs[i - 1] == 'h';
            let on = trims_to_on_a_sh(&cs, start, i);
            proof {
                let nd = done.push(piece);
                assert(nd.drop_last() =~= done);
                assert(sh == ends_with_sh(piece));
                assert(split_elf(data@) =~= nd + split_elf(data@.skip(i + 3)));
                done = nd;
            }
            elves = elves + 1;
            if sh {
                shelves = shelves + 1;
            }
            if on {
                on_shelves = on_shelves + 1;
            }
            i = i + 3;
            start = i;
        } else {
            proof {
                assert(!is_elf_at(cs@, i as int));
            }
            i = i + 1;
        }
    }
    let ghost piece = cs@.subrange(start as int, n as int);
    proof {
        let rest = data@.skip(start as int);
        assert(rest =~= piece);
        assert forall|j: int| 0 <= j < rest.len() implies !is_elf_at(rest, j) by {
            assert(!is_elf_at(cs@, start + j));
        }
        lemma_split_none(rest);
    }
    let sh = n - start >= 2 && cs[n - 2] == 's' && cs[n - 1] == 'h';
    let on = trims_to_on_a_sh(&cs, start, n);
    proof {
        let nd = done.push(piece);
        assert(nd.drop_last() =~= done);
        assert(sh == ends_with_sh(piece));
        assert(split_elf(data@) =~= nd);
        done = nd;
    }
    if sh {
        shelves = shelves + 1;
    }
    if on {
        on_shelves = on_shelves + 1;
    }
    if on_shelves > shelves {
        return None;
    }
    Some(DaySixResp { elf: elves, elf_on_a_shelf: on_shelves, lonely_shelves: shelves - on_shelves })
}

/// Counts the elves in `data`, as `endpoint_checked` does, where the difference is not
/// negative.
pub fn endpoint(data: &str) -> (r: DaySixResp)
    requires
        count_on_shelf(split_elf(data@)) <= count_shelves(split_elf(data@)),
    ensures
        r.elf == split_elf(data@).len() - 1,
        r.elf_on_a_shelf == count_on_shelf(split_elf(data@)),
        r.lonely_shelves == count_shelves(split_elf(data@)) - count_on_shelf(split_elf(data@)),
{
    match endpoint_checked(data) {
        Some(d) => d,
        None => DaySixResp { elf: 0, elf_on_a_shelf: 0, lonely_shelves: 0 },
    }
}

} // verus!
