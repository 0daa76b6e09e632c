//! Paging through a list of names, and splitting a page into chunks.
use vstd::prelude::*;

verus! {

/// `data` without its first `offset` items, then at most `limit` of the rest.
pub open spec fn sliced<T>(data: Seq<T>, offset: nat, limit: nat) -> Seq<T> {
    let start = if offset <= data.len() { offset } else { data.len() };
    let rest = data.skip(start as int);
    rest.take(if limit <= rest.len() { limit as int } else { rest.len() as int })
}

/// The number of chunks of `size` items (the last possibly shorter) that `n` items make.
pub open spec fn chunk_count(n: nat, size: nat) -> nat
    recommends
        size > 0,
{
    if n == 0 {
        0
    } else {
        ((n - 1) / (size as int) + 1) as nat
    }
}

/// Chunk `i` of `s`: items `i * size` up to `(i + 1) * size`, or up to the end.
pub open spec fn chunk<T>(s: Seq<T>, size: nat, i: int) -> Seq<T> {
    let start = i * size;
    let end = if (i + 1) * size <= s.len() { (i + 1) * size } else { s.len() as int };
    s.subrange(start, end)
}

/// The chunks of `s` put back together, in order.
pub open spec fn joined<T>(chunks: Seq<Seq<T>>) -> Seq<T>
    decreases chunks.len(),
{
    if chunks.len() == 0 {
        seq![]
    } else {
        joined(chunks.drop_last()) + chunks.last()
    }
}

/// The page of `data` that starts after `offset` items (none skipped when absent) and holds
/// at most `limit` items (no bound when absent).
pub fn slicing<'a>(offset: Option<usize>, limit: Option<usize>, data: Vec<&'a str>) -> (r: Vec<
    &'a str,
>)
    ensures
        r@ == sliced(
            data@,
            match offset {
                Some(o) => o as nat,
                None => 0,
            },
            match limit {
                Some(l) => l as nat,
                None => usize::MAX as nat,
            },
        ),
{
    let offset = match offset {
        Some(o) => o,
        None => 0,
    };
    let limit = match limit {
        Some(l) => l,
        None => usize::MAX,
    };
    let start = if offset <= data.len() { offset } else { data.len() };
    let end = if limit <= data.len() - start { start + limit } else { data.len() };
    let mut r: Vec<&'a str> = Vec::new();
    let mut i = start;
    while i < end
        invariant
            start <= i <= end <= data@.len(),
            r@ == data@.subrange(start as int, i as int),
        decreases end - i,
    {
        r.push(data[i]);
        assert(r@ =~= data@.subrange(start as int, i + 1));
        i = i + 1;
    }
    assert(r@ =~= sliced(data@, offset as nat, limit as nat));
    r
}

/// The page, as `slicing` gives it, cut into chunks of `split` items; the last chunk holds
/// what is left over.
pub fn splitting<'a>(offset: Option<usize>, limit: Option<usize>, split: usize, data: Vec<&'a str>) -> (r: Vec<Vec<&'a str>>)
    requires
        split > 0,
    ensures
        ({
            let page = sliced(
                data@,
                match offset {
                    Some(o) => o as nat,
                    None => 0,
                },
                match limit {
                    Some(l) => l as nat,
                    None => usize::MAX as nat,
                },
            );
            &&& r@.len() == chunk_count(page.len(), split as nat)
            &&& forall|i: int| 0 <= i < r@.len() ==> (#[trigger] r@[i])@ == chunk(page, split as nat, i)
        }),
{
    let page = slicing(offset, limit, data);
    let n = page.len();
    let mut r: Vec<Vec<&'a str>> = Vec::new();
    let mut start: usize = 0;
    assert(r@.len() * split == 0);
    while start < n
        invariant
            n == page@.len(),
            start <= n,
            start < n ==> start == r@.len() * split,
            split > 0,
            forall|i: int| 0 <= i < r@.len() ==> (#[trigger] r@[i])@ == chunk(page@, split as nat, i),
            start < n ==> r@.len() < chunk_count(n as nat, split as nat),
            start >= n ==> r@.len() == chunk_count(n as nat, split as nat),
        decreases n - start,
    {
        let end = if split <= n - start { start + split } else { n };
        let mut c: Vec<&'a str> = Vec::new();
        let mut i = start;
        while i < end
            invariant
                start <= i <= end <= n,
                n == page@.len(),
                c@ == page@.subrange(start as int, i as int),
            decreases end - i,
        {
            c.push(page[i]);
            assert(c@ =~= page@.subrange(start as int, i + 1));
            i = i + 1;
        }
        let ghost k = r@.len() as int;
        proof {
            assert(start == k * split);
            assert((k + 1) * split == start + split) by (nonlinear_arith)
                requires
                    start == k * split,
            ;
            assert(c@ == chunk(page@, split as nat, k));
            lemma_chunk_count_step(n as nat, split as nat, k as nat);
        }
        r.push(c);
        assert(r@[k] == c);
        start = end;
        proof {
            if end < n {
                assert(start == (k + 1) * split);
            } else {
                assert(end == n);
            }
        }
                proof {
            if start < n {
                assert(start == r@.len() * split);
            }
        }
    }
    r
}

proof fn lemma_chunk_count_step(n: nat, size: nat, k: nat)
    requires
        size > 0,
        k * size < n,
    ensures
        k < chunk_count(n, size),
        (k + 1) * size < n ==> k + 1 < chunk_count(n, size),
        (k + 1) * size >= n ==> k + 1 == chunk_count(n, size),
{
    let c = chunk_count(n, size);
    assert(c == (n - 1) / (size as int) + 1);
    assert(k * size <= n - 1);
    assert(k <= (n - 1) / (size as int)) by (nonlinear_arith)
        requires
            k * size <= n - 1,
            size > 0,
    ;
    if (k + 1) * size < n {
        assert(k + 1 <= (n - 1) / (size as int)) by (nonlinear_arith)
            requires
                (k + 1) * size <= n - 1,
                size > 0,
        ;
    } else {
        assert((n - 1) / (size as int) < k + 1) by (nonlinear_arith)
            requires
                (k + 1) * size >= n,
                size > 0,
                n >= 1,
        ;
    }
}

/// Putting the chunks of a page back together, in order, gives the page again.
pub proof fn law_chunks_rejoin<T>(page: Seq<T>, size: nat)
    requires
        size > 0,
    ensures
        joined(Seq::new(chunk_count(page.len(), size), |i: int| chunk(page, size, i))) == page,
{
    lemma_joined_prefix(page, size, chunk_count(page.len(), size));
    let c = chunk_count(page.len(), size);
    if page.len() > 0 {
        assert(c == (page.len() - 1) / (size as int) + 1);
        assert(c * size >= page.len()) by (nonlinear_arith)
            requires
                c == (page.len() - 1) / (size as int) + 1,
                size > 0,
        ;
        assert(page.subrange(0, page.len() as int) =~= page);
    } else {
        assert(page =~= Seq::<T>::empty());
    }
}

proof fn lemma_joined_prefix<T>(page: Seq<T>, size: nat, k: nat)
    requires
        size > 0,
        k <= chunk_count(page.len(), size),
    ensures
        joined(Seq::new(k, |i: int| chunk(page, size, i))) == page.subrange(
            0,
            if k * size <= page.len() { (k * size) as int } else { page.len() as int },
        ),
    decreases k,
{
    let cs = Seq::new(k, |i: int| chunk(page, size, i));
    if k == 0 {
        assert(cs.len() == 0);
        assert(k * size == 0) by (nonlinear_arith)
            requires
                k == 0,
        ;
        assert(joined(cs) =~= page.subrange(0, 0));
    } else {
        let k1 = (k - 1) as nat;
        lemma_joined_prefix(page, size, k1);
        let prev = Seq::new(k1, |i: int| chunk(page, size, i));
        assert(cs.drop_last() =~= prev);
        assert(k1 * size + size == k * size) by (nonlinear_arith)
            requires
                k1 == k - 1,
        ;
        assert(k1 * size < page.len()) by (nonlinear_arith)
            requires
                k <= (page.len() - 1) / (size as int) + 1,
                k1 == k - 1,
                size > 0,
                page.len() > 0,
        ;
        assert((k1 + 1) * size == k * size);
        let last = chunk(page, size, k1 as int);
        assert(cs.last() == last);
        assert(joined(cs) == joined(prev) + last);
        assert(joined(prev) == page.subrange(0, (k1 * size) as int));
        assert(joined(cs) =~= page.subrange(
            0,
            if k * size <= page.len() { (k * size) as int } else { page.len() as int },
        ));
    }
}

} // verus!
