//! Text helpers shared by the endpoints: characters in and out of strings, line splitting,
//! whitespace tokens, decimal numbers.
use vstd::prelude::*;
use vstd::std_specs::iter::IteratorSpec;

verus! {

/// `String::push` of std: appends one character.
#[verifier::external_body]
pub(crate) fn push_char(s: &mut String, c: char)
    ensures
        final(s)@ == old(s)@.push(c),
{
    s.push(c);
}

/// The characters of `s`, in order.
pub fn chars_of(s: &str) -> (v: Vec<char>)
    ensures
        v@ == s@,
{
    let mut v: Vec<char> = Vec::new();
    for c in it: s.chars()
        invariant
            v@ == it.seq().take(it.index() as int),
    {
        v.push(c);
    }
    v
}

/// The string holding exactly the characters `v[from..to]`.
pub fn string_of(v: &Vec<char>, from: usize, to: usize) -> (s: String)
    requires
        from <= to <= v.len(),
    ensures
        s@ == v@.subrange(from as int, to as int),
{
    let mut s = String::new();
    let mut i = from;
    while i < to
        invariant
            from <= i <= to <= v.len(),
            s@ == v@.subrange(from as int, i as int),
        decreases to - i,
    {
        push_char(&mut s, v[i]);
        assert(s@ =~= v@.subrange(from as int, i + 1));
        i = i + 1;
    }
    s
}

/// Appends the characters of `t` to `s`.
pub fn append(s: &mut String, t: &str)
    ensures
        final(s)@ == old(s)@ + t@,
{
    let cs = chars_of(t);
    let mut i: usize = 0;
    while i < cs.len()
        invariant
            i <= cs@.len(),
            cs@ == t@,
            s@ == old(s)@ + t@.subrange(0, i as int),
        decreases cs.len() - i,
    {
        push_char(s, cs[i]);
        assert(s@ =~= old(s)@ + t@.subrange(0, i + 1));
        i = i + 1;
    }
    assert(t@.subrange(0, t@.len() as int) =~= t@);
}

// ---------------------------------------------------------------------------------------------
// Lines
/// Index of the first `'\n'` in `s`, or its length when there is none.
pub open spec fn line_end(s: Seq<char>) -> nat
    decreases s.len(),
{
    if s.len() == 0 {
        0
    } else if s[0] == '\n' {
        0
    } else {
        1 + line_end(s.drop_first())
    }
}

/// A line without its terminating `"\r"`, when its `'\n'` followed one.
pub open spec fn strip_cr(line: Seq<char>) -> Seq<char> {
    if line.len() > 0 && line[line.len() - 1] == '\r' {
        line.drop_last()
    } else {
        line
    }
}

/// The lines of `s` as `str::lines` gives them: split after each `'\n'`, with that `'\n'`
/// and a `'\r'` just before it removed; a last line without `'\n'` is kept as it is, and
/// there is no empty line after a final `'\n'`.
pub open spec fn lines_of(s: Seq<char>) -> Seq<Seq<char>>
    decreases s.len(),
{
    if s.len() == 0 {
        seq![]
    } else {
        let e = line_end(s) as int;
        if e >= s.len() {
            seq![s]
        } else {
            seq![strip_cr(s.take(e))] + lines_of(s.skip(e + 1))
        }
    }
}

proof fn lemma_line_end(s: Seq<char>, m: int)
    requires
        0 <= m <= s.len(),
        forall|j: int| 0 <= j < m ==> s[j] != '\n',
        m == s.len() || s[m] == '\n',
    ensures
        line_end(s) == m,
    decreases m,
{
    if m > 0 {
        lemma_line_end(s.drop_first(), m - 1);
    }
}

/// The lines of `s`, as `str::lines` splits them.
pub fn lines(s: &str) -> (r: Vec<String>)
    ensures
        r@.len() == lines_of(s@).len(),
        forall|i: int| 0 <= i < r@.len() ==> #[trigger] r@[i]@ == lines_of(s@)[i],
{
    let cs = chars_of(s);
    let n = cs.len();
    let mut r: Vec<String> = Vec::new();
    let mut start: usize = 0;
    let mut i: usize = 0;
    let ghost mut done: Seq<Seq<char>> = seq![];
    assert(s@.skip(0) =~= s@);
    assert(done + lines_of(s@) =~= lines_of(s@));
    while i < n
        invariant
            cs@ == s@,
            n == cs@.len(),
            start <= i <= n,
            forall|j: int| start <= j < i ==> cs@[j] != '\n',
            lines_of(s@) == done + lines_of(s@.skip(start as int)),
            r@.len() == done.len(),
            forall|j: int| 0 <= j < r@.len() ==> #[trigger] r@[j]@ == done[j],
        decreases n - i,
    {
        if cs[i] == '\n' {
            let ghost rest = s@.skip(start as int);
            proof {
                let m = (i - start) as int;
                assert forall|j: int| 0 <= j < m implies rest[j] != '\n' by {
                    assert(rest[j] == cs@[start + j]);
                }
                assert(rest[m] == cs@[i as int]);
                lemma_line_end(rest, m);
                assert(rest.skip(m + 1) =~= s@.skip(i + 1));
                assert(rest.take(m) =~= cs@.subrange(start as int, i as int));
            }
            let mut end = i;
            if end > start && cs[end - 1] == '\r' {
                end = end - 1;
            }
            let line = string_of(&cs, start, end);
            proof {
                let m = (i - start) as int;
                assert(line@ =~= strip_cr(rest.take(m)));
                done = done + seq![line@];
                assert(lines_of(s@) =~= done + lines_of(s@.skip(i + 1)));
            }
            r.push(line);
            start = i + 1;
        }
        i = i + 1;
    }
    if start < n {
        let ghost rest = s@.skip(start as int);
        proof {
            let m = (n - start) as int;
            assert forall|j: int| 0 <= j < m implies rest[j] != '\n' by {
                assert(rest[j] == cs@[start + j]);
            }
            lemma_line_end(rest, m);
            assert(rest =~= cs@.subrange(start as int, n as int));
        }
        let line = string_of(&cs, start, n);
        proof {
            done = done + seq![line@];
            assert(lines_of(s@) =~= done);
        }
        r.push(line);
    } else {
        proof {
            assert(s@.skip(start as int) =~= Seq::<char>::empty());
            assert(lines_of(s@) =~= done);
        }
    }
    r
}

// ---------------------------------------------------------------------------------------------
// Whitespace-separated tokens
/// The characters that `u8::is_ascii_whitespace` accepts: space, tab, line feed, form feed
/// and carriage return.
pub open spec fn is_ascii_ws(c: char) -> bool {
    c == ' ' || c == '\t' || c == '\n' || c == '\x0C' || c == '\r'
}

/// Index of the first ASCII whitespace character of `s`, or its length.
pub open spec fn token_end(s: Seq<char>) -> nat
    decreases s.len(),
{
    if s.len() == 0 {
        0
    } else if is_ascii_ws(s[0]) {
        0
    } else {
        1 + token_end(s.drop_first())
    }
}

/// The non-empty runs of `s` between ASCII whitespace, as `str::split_ascii_whitespace`
/// gives them.
pub open spec fn tokens_of(s: Seq<char>) -> Seq<Seq<char>>
    decreases s.len(),
{
    if s.len() == 0 {
        seq![]
    } else if is_ascii_ws(s[0]) {
        tokens_of(s.drop_first())
    } else {
        let e = token_end(s) as int;
        if e >= s.len() {
            seq![s]
        } else {
            seq![s.take(e)] + tokens_of(s.skip(e))
        }
    }
}

proof fn lemma_token_end(s: Seq<char>, m: int)
    requires
        0 <= m <= s.len(),
        forall|j: int| 0 <= j < m ==> !is_ascii_ws(s[j]),
        m == s.len() || is_ascii_ws(s[m]),
    ensures
        token_end(s) == m,
    decreases m,
{
    if m > 0 {
        lemma_token_end(s.drop_first(), m - 1);
    }
}

fn is_ascii_ws_exec(c: char) -> (b: bool)
    ensures
        b == is_ascii_ws(c),
{
    c == ' ' || c == '\t' || c == '\n' || c == '\x0C' || c == '\r'
}

/// The tokens of `s` between ASCII whitespace.
pub fn tokens(s: &str) -> (r: Vec<String>)
    ensures
        r@.len() == tokens_of(s@).len(),
        forall|i: int| 0 <= i < r@.len() ==> #[trigger] r@[i]@ == tokens_of(s@)[i],
{
    let cs = chars_of(s);
    let n = cs.len();
    let mut r: Vec<String> = Vec::new();
    let mut i: usize = 0;
    let ghost mut done: Seq<Seq<char>> = seq![];
    assert(s@.skip(0) =~= s@);
    assert(done + tokens_of(s@) =~= tokens_of(s@));
    while i < n
        invariant
            cs@ == s@,
            n == cs@.len(),
            i <= n,
            tokens_of(s@) == done + tokens_of(s@.skip(i as int)),
            r@.len() == done.len(),
            forall|j: int| 0 <= j < r@.len() ==> #[trigger] r@[j]@ == done[j],
        decreases n - i,
    {
        let ghost rest = s@.skip(i as int);
        assert(rest[0] == cs@[i as int]);
        if is_ascii_ws_exec(cs[i]) {
            assert(rest.drop_first() =~= s@.skip(i + 1));
            i = i + 1;
        } else {
            let start = i;
            while i < n && !is_ascii_ws_exec(cs[i])
                invariant
                    start <= i <= n,
                    n == cs@.len(),
                    forall|j: int| start <= j < i ==> !is_ascii_ws(cs@[j]),
                decreases n - i,
            {
                i = i + 1;
            }
            proof {
                let m = (i - start) as int;
                assert forall|j: int| 0 <= j < m implies !is_ascii_ws(rest[j]) by {
                    assert(rest[j] == cs@[start + j]);
                }
                if i < n {
                    assert(rest[m] == cs@[i as int]);
                }
                lemma_token_end(rest, m);
                assert(rest.skip(m) =~= s@.skip(i as int));
                assert(rest.take(m) =~= cs@.subrange(start as int, i as int));
                if i == n {
                    assert(rest =~= cs@.subrange(start as int, i as int));
                    assert(s@.skip(i as int) =~= Seq::<char>::empty());
                }
            }
            let tok = string_of(&cs, start, i);
            proof {
                done = done + seq![tok@];
                assert(tokens_of(s@) =~= done + tokens_of(s@.skip(i as int)));
            }
            r.push(tok);
        }
    }
    proof {
        assert(s@.skip(n as int) =~= Seq::<char>::empty());
        assert(tokens_of(s@) =~= done);
    }
    r
}

/// Two strings are equal, character by character.
pub fn str_eq(a: &str, b: &str) -> (r: bool)
    ensures
        r == (a@ == b@),
{
    let x = chars_of(a);
    let y = chars_of(b);
    if x.len() != y.len() {
        return false;
    }
    let mut i: usize = 0;
    while i < x.len()
        invariant
            x@ == a@,
            y@ == b@,
            x@.len() == y@.len(),
            i <= x@.len(),
            forall|j: int| 0 <= j < i ==> x@[j] == y@[j],
        decreases x.len() - i,
    {
        if x[i] != y[i] {
            return false;
        }
        i = i + 1;
    }
    assert(a@ =~= b@);
    true
}

} // verus!
