//! Star charts: portals between stars and the shortest route through them.
use vstd::prelude::*;
use std::collections::{HashMap, HashSet};
use crate::numbers::{parse_unsigned, parse_usize, int_error_message, IntErrorKind};
use crate::text::{lines, lines_of, push_char, tokens, tokens_of};

verus! {

/// A two-way portal between the stars with the given indices.
#[derive(Clone, Copy, Debug, PartialEq, Eq, Hash)]
pub struct Portal(pub usize, pub usize);

/// What the route search reads of a universe: how many stars it has and its portals.
#[derive(Debug)]
pub struct Universe {
    pub n_stars: usize,
    pub portals: Vec<Portal>,
}

/// Portal `p` joins stars `a` and `b`, in either direction.
pub open spec fn connects(p: Portal, a: usize, b: usize) -> bool {
    (p.0 == a && p.1 == b) || (p.0 == b && p.1 == a)
}

/// Some portal of the list joins `a` and `b`.
pub open spec fn adjacent(portals: Seq<Portal>, a: usize, b: usize) -> bool {
    exists|i: int| 0 <= i < portals.len() && connects(#[trigger] portals[i], a, b)
}

/// Step `i` of `path` goes through a portal.
pub open spec fn step_ok(portals: Seq<Portal>, path: Seq<usize>, i: int) -> bool {
    adjacent(portals, path[i], path[i + 1])
}

/// Every step of `path` goes through a portal.
pub open spec fn is_walk(portals: Seq<Portal>, path: Seq<usize>) -> bool {
    forall|i: int| 0 <= i < path.len() - 1 ==> #[trigger] step_ok(portals, path, i)
}

/// No star occurs twice in `path`.
pub open spec fn is_simple(path: Seq<usize>) -> bool {
    forall|i: int, j: int| 0 <= i < j < path.len() ==> path[i] != path[j]
}

/// `path` is a simple walk through portals from `from` to `to`.
pub open spec fn is_route(portals: Seq<Portal>, path: Seq<usize>, from: usize, to: usize) -> bool {
    &&& path.len() >= 1
    &&& path[0] == from
    &&& path[path.len() - 1] == to
    &&& is_walk(portals, path)
    &&& is_simple(path)
}

/// The portals taken, in order, along `path`.
pub open spec fn hops(path: Seq<usize>) -> Seq<Portal> {
    Seq::new((path.len() - 1) as nat, |i: int| Portal(path[i], path[i + 1]))
}

/// `v` can be reached from `src` through at most `k` portals.
#[verifier::opaque]
pub open spec fn reachable_within(portals: Seq<Portal>, src: usize, k: nat, v: usize) -> bool
    decreases k,
{
    if k == 0 {
        v == src
    } else {
        ||| reachable_within(portals, src, (k - 1) as nat, v)
        ||| exists|i: int|
            0 <= i < portals.len() && {
                let p = #[trigger] portals[i];
                ||| (p.1 == v && reachable_within(portals, src, (k - 1) as nat, p.0))
                ||| (p.0 == v && reachable_within(portals, src, (k - 1) as nat, p.1))
            }
    }
}

proof fn lemma_reach_zero(portals: Seq<Portal>, src: usize, v: usize)
    ensures
        reachable_within(portals, src, 0, v) <==> v == src,
{
    reveal_with_fuel(reachable_within, 1);
}

proof fn lemma_reach_step(portals: Seq<Portal>, src: usize, k: nat, i: int, a: usize, b: usize)
    requires
        0 <= i < portals.len(),
        connects(portals[i], a, b),
        reachable_within(portals, src, k, a),
    ensures
        reachable_within(portals, src, k + 1, b),
{
    reveal_with_fuel(reachable_within, 1);
    let p = portals[i];
}

proof fn lemma_reach_back(portals: Seq<Portal>, src: usize, k: nat, v: usize) -> (r: (int, usize))
    requires
        reachable_within(portals, src, k + 1, v),
        !reachable_within(portals, src, k, v),
    ensures
        0 <= r.0 < portals.len(),
        connects(portals[r.0], r.1, v),
        reachable_within(portals, src, k, r.1),
{
    reveal_with_fuel(reachable_within, 1);
    let i = choose|i: int|
        0 <= i < portals.len() && {
            let p = #[trigger] portals[i];
            ||| (p.1 == v && reachable_within(portals, src, k, p.0))
            ||| (p.0 == v && reachable_within(portals, src, k, p.1))
        };
    let p = portals[i];
    if p.1 == v && reachable_within(portals, src, k, p.0) {
        (i, p.0)
    } else {
        (i, p.1)
    }
}

proof fn lemma_reach_monotone(portals: Seq<Portal>, src: usize, k: nat, m: nat, v: usize)
    requires
        k <= m,
        reachable_within(portals, src, k, v),
    ensures
        reachable_within(portals, src, m, v),
    decreases m - k,
{
    if k < m {
        lemma_reach_monotone(portals, src, k, (m - 1) as nat, v);
        reveal_with_fuel(reachable_within, 1);
    }
}

/// A walk that starts at `src` reaches its last star within as many portals as it has steps.
proof fn lemma_walk_reaches(portals: Seq<Portal>, src: usize, path: Seq<usize>)
    requires
        path.len() >= 1,
        path[0] == src,
        is_walk(portals, path),
    ensures
        reachable_within(portals, src, (path.len() - 1) as nat, path[path.len() - 1]),
    decreases path.len(),
{
    if path.len() == 1 {
        lemma_reach_zero(portals, src, path[0]);
    } else {
        let prefix = path.drop_last();
        assert forall|i: int| 0 <= i < prefix.len() - 1 implies #[trigger] step_ok(
            portals,
            prefix,
            i,
        ) by {
            assert(step_ok(portals, path, i));
        }
        lemma_walk_reaches(portals, src, prefix);
        let n = path.len() - 1;
        assert(step_ok(portals, path, n - 1));
        let i = choose|i: int|
            0 <= i < portals.len() && connects(#[trigger] portals[i], path[n - 1], path[n]);
        assert(prefix[n - 1] == path[n - 1]);
        lemma_reach_step(portals, src, (n - 1) as nat, i, path[n - 1], path[n]);
    }
}

/// Once a round of widening adds nothing, no further round does.
proof fn lemma_reach_fixpoint(portals: Seq<Portal>, src: usize, k: nat, m: nat, v: usize)
    requires
        k <= m,
        forall|w: usize|
            #[trigger] reachable_within(portals, src, k + 1, w) ==> reachable_within(
                portals,
                src,
                k,
                w,
            ),
    ensures
        reachable_within(portals, src, m, v) ==> reachable_within(portals, src, k, v),
    decreases m - k,
{
    if k < m && reachable_within(portals, src, m, v) {
        let m1 = (m - 1) as nat;
        if reachable_within(portals, src, m1, v) {
            lemma_reach_fixpoint(portals, src, k, m1, v);
        } else {
            let (i, a) = lemma_reach_back(portals, src, m1, v);
            lemma_reach_fixpoint(portals, src, k, m1, a);
            lemma_reach_step(portals, src, k, i, a, v);
        }
    }
}

/// The star that slot `s` names: slots `2i` and `2i + 1` are the two ends of portal `i`.
spec fn slot(portals: Seq<Portal>, s: int) -> usize {
    if s % 2 == 0 {
        portals[s / 2].0
    } else {
        portals[s / 2].1
    }
}

/// How many of the first `n` slots name a star not yet in `found`.
spec fn missing(portals: Seq<Portal>, found: Seq<usize>, n: int) -> nat
    decreases n,
{
    if n <= 0 {
        0
    } else {
        missing(portals, found, n - 1) + if found.contains(slot(portals, n - 1)) {
            0nat
        } else {
            1nat
        }
    }
}

proof fn lemma_missing_shrinks(
    portals: Seq<Portal>,
    found: Seq<usize>,
    more: Seq<usize>,
    n: int,
    s: int,
)
    requires
        forall|x: usize| found.contains(x) ==> more.contains(x),
    ensures
        missing(portals, more, n) <= missing(portals, found, n),
        0 <= s < n && !found.contains(slot(portals, s)) && more.contains(slot(portals, s))
            ==> missing(portals, more, n) < missing(portals, found, n),
    decreases n,
{
    if n > 0 {
        lemma_missing_shrinks(portals, found, more, n - 1, s);
    }
}

/// Index of `x` among the first `upto` entries of `found`, if it is there.
fn position(found: &Vec<usize>, upto: usize, x: usize) -> (r: Option<usize>)
    requires
        upto <= found.len(),
    ensures
        match r {
            Some(i) => i < upto && found@[i as int] == x,
            None => forall|j: int| 0 <= j < upto ==> found@[j] != x,
        },
{
    let mut i: usize = 0;
    while i < upto
        invariant
            i <= upto <= found.len(),
            forall|j: int| 0 <= j < i ==> found@[j] != x,
        decreases upto - i,
    {
        if found[i] == x {
            return Some(i);
        }
        i = i + 1;
    }
    None
}

/// Entry `i` (not the first) was reached through a portal from an earlier entry, its parent,
/// one portal further than the parent, and at most `k` portals from the start.
spec fn linked(
    portals: Seq<Portal>,
    found: Seq<usize>,
    parent: Seq<usize>,
    level: Seq<usize>,
    k: nat,
    i: int,
) -> bool {
    &&& parent[i] < i
    &&& 1 <= level[i] <= k
    &&& level[i] == level[parent[i] as int] + 1
    &&& adjacent(portals, found[parent[i] as int], found[i])
}

/// Entry `i` is reachable within its level, and not within one less.
spec fn least(portals: Seq<Portal>, src: usize, found: Seq<usize>, level: Seq<usize>, i: int) -> bool {
    &&& reachable_within(portals, src, level[i] as nat, found[i])
    &&& level[i] > 0 ==> !reachable_within(portals, src, (level[i] - 1) as nat, found[i])
}

/// What the search keeps true: `found` holds distinct stars, each with the index of the star
/// it was reached from and the least number of portals it takes, at most `k`.
#[verifier::opaque]
spec fn search_state(
    portals: Seq<Portal>,
    src: usize,
    found: Seq<usize>,
    parent: Seq<usize>,
    level: Seq<usize>,
    k: nat,
) -> bool {
    &&& found.len() >= 1
    &&& parent.len() == found.len()
    &&& level.len() == found.len()
    &&& found[0] == src
    &&& level[0] == 0
    &&& forall|i: int, j: int| 0 <= i < j < found.len() ==> found[i] != found[j]
    &&& forall|i: int| 1 <= i < found.len() ==> #[trigger] linked(portals, found, parent, level, k, i)
    &&& forall|i: int| 0 <= i < found.len() ==> #[trigger] least(portals, src, found, level, i)
}

/// The facts of `search_state` about one entry.
proof fn lemma_state_entry(
    portals: Seq<Portal>,
    src: usize,
    found: Seq<usize>,
    parent: Seq<usize>,
    level: Seq<usize>,
    k: nat,
    i: int,
)
    requires
        search_state(portals, src, found, parent, level, k),
        0 <= i < found.len(),
    ensures
        found.len() >= 1,
        parent.len() == found.len(),
        level.len() == found.len(),
        found[0] == src,
        level[0] == 0,
        level[i] <= k,
        i >= 1 ==> linked(portals, found, parent, level, k, i),
        least(portals, src, found, level, i),
        forall|j: int| 0 <= j < found.len() && j != i ==> found[j] != found[i],
{
    reveal(search_state);
    if i >= 1 {
        assert(linked(portals, found, parent, level, k, i));
    }
    assert(least(portals, src, found, level, i));
    assert forall|j: int| 0 <= j < found.len() && j != i implies found[j] != found[i] by {
        if j < i {
        } else {
        }
    }
}

proof fn lemma_state_start(portals: Seq<Portal>, src: usize)
    ensures
        search_state(portals, src, seq![src], seq![0usize], seq![0usize], 0),
{
    reveal(search_state);
    lemma_reach_zero(portals, src, src);
    assert(least(portals, src, seq![src], seq![0usize], 0));
}

proof fn lemma_state_grow(
    portals: Seq<Portal>,
    src: usize,
    found: Seq<usize>,
    parent: Seq<usize>,
    level: Seq<usize>,
    k: nat,
    k2: nat,
)
    requires
        search_state(portals, src, found, parent, level, k),
        k <= k2,
    ensures
        search_state(portals, src, found, parent, level, k2),
{
    reveal(search_state);
    assert forall|i: int| 1 <= i < found.len() implies #[trigger] linked(
        portals,
        found,
        parent,
        level,
        k2,
        i,
    ) by {
        assert(linked(portals, found, parent, level, k, i));
    }
}

proof fn lemma_state_push(
    portals: Seq<Portal>,
    src: usize,
    found: Seq<usize>,
    parent: Seq<usize>,
    level: Seq<usize>,
    k: nat,
    b: usize,
    ia: usize,
)
    requires
        search_state(portals, src, found, parent, level, k),
        k >= 1,
        k <= usize::MAX,
        level.len() == found.len(),
        ia < found.len(),
        level[ia as int] + 1 == k,
        adjacent(portals, found[ia as int], b),
        reachable_within(portals, src, k, b),
        !reachable_within(portals, src, (k - 1) as nat, b),
        !found.contains(b),
    ensures
        search_state(portals, src, found.push(b), parent.push(ia), level.push(k as usize), k),
{
    reveal(search_state);
    let f2 = found.push(b);
    let p2 = parent.push(ia);
    let l2 = level.push(k as usize);
    let n = found.len() as int;
    assert forall|i: int, j: int| 0 <= i < j < f2.len() implies f2[i] != f2[j] by {
        assert(f2[i] == found[i]);
        if j < n {
            assert(f2[j] == found[j]);
        }
    }
    assert forall|i: int| 1 <= i < f2.len() implies #[trigger] linked(
        portals,
        f2,
        p2,
        l2,
        k,
        i,
    ) by {
        if i < n {
            assert(linked(portals, found, parent, level, k, i));
            assert(p2[i] == parent[i]);
            assert(l2[i] == level[i]);
            assert(f2[i] == found[i]);
            assert(f2[p2[i] as int] == found[parent[i] as int]);
            assert(l2[p2[i] as int] == level[parent[i] as int]);
        } else {
            assert(f2[ia as int] == found[ia as int]);
            assert(l2[ia as int] == level[ia as int]);
        }
    }
    assert forall|i: int| 0 <= i < f2.len() implies #[trigger] least(portals, src, f2, l2, i) by {
        if i < n {
            assert(least(portals, src, found, level, i));
            assert(found[i] == f2[i]);
            assert(l2[i] == level[i]);
        }
    }
}

/// Everything within `k` portals of `src` is in `found`, and nothing else.
spec fn search_closed(portals: Seq<Portal>, src: usize, found: Seq<usize>, k: nat) -> bool {
    forall|v: usize| #[trigger] reachable_within(portals, src, k, v) <==> found.contains(v)
}

/// What holds while a round of widening from `k` to `k + 1` portals is under way:
/// `prev` is what was found before the round, and is kept as a prefix.
spec fn round_state(
    portals: Seq<Portal>,
    src: usize,
    prev: Seq<usize>,
    found: Seq<usize>,
    parent: Seq<usize>,
    level: Seq<usize>,
    k: nat,
) -> bool {
    &&& search_state(portals, src, found, parent, level, k + 1)
    &&& search_closed(portals, src, prev, k)
    &&& found.len() >= prev.len()
    &&& found.subrange(0, prev.len() as int) == prev
    &&& forall|i: int| prev.len() <= i < found.len() ==> #[trigger] level[i] == k + 1
    &&& forall|i: int| 0 <= i < prev.len() ==> #[trigger] level[i] <= k
}

/// One direction of one portal in a round: if `a` was found before the round and `b` is not
/// found yet, `b` is found now, one portal further than `a`.
fn extend(
    portals: &Vec<Portal>,
    src: usize,
    found: &mut Vec<usize>,
    parent: &mut Vec<usize>,
    level: &mut Vec<usize>,
    old_len: usize,
    k: usize,
    j: usize,
    a: usize,
    b: usize,
    prev: Ghost<Seq<usize>>,
)
    requires
        old_len == prev@.len(),
        k < usize::MAX,
        j < portals.len(),
        connects(portals@[j as int], a, b),
        round_state(portals@, src, prev@, old(found)@, old(parent)@, old(level)@, k as nat),
    ensures
        round_state(portals@, src, prev@, final(found)@, final(parent)@, final(level)@, k as nat),
        forall|x: usize| old(found)@.contains(x) ==> final(found)@.contains(x),
        prev@.contains(a) ==> final(found)@.contains(b),
{
    if let Some(ia) = position(found, old_len, a) {
        let cur = found.len();
        match position(found, cur, b) {
            Some(ib) => {
                assert(found@[ib as int] == b);
            },
            None => {
                proof {
                    let f = found@;
                    assert(f.subrange(0, old_len as int) == prev@);
                    assert(prev@[ia as int] == f[ia as int]);
                    assert(prev@.contains(a));
                    lemma_state_entry(portals@, src, f, parent@, level@, (k + 1) as nat, ia as int);
                    assert(level@[ia as int] <= k);
                    assert(reachable_within(portals@, src, k as nat, a));
                    lemma_reach_step(portals@, src, k as nat, j as int, a, b);
                    assert(!prev@.contains(b)) by {
                        if prev@.contains(b) {
                            let x = choose|x: int| 0 <= x < prev@.len() && prev@[x] == b;
                            assert(f[x] == prev@[x]);
                        }
                    }
                    assert(!reachable_within(portals@, src, k as nat, b));
                    assert(adjacent(portals@, a, b)) by {
                        assert(connects(portals@[j as int], a, b));
                    }
                    if level@[ia as int] < k {
                        lemma_reach_step(portals@, src, level@[ia as int] as nat, j as int, a, b);
                        lemma_reach_monotone(
                            portals@,
                            src,
                            (level@[ia as int] + 1) as nat,
                            k as nat,
                            b,
                        );
                    }
                    lemma_state_push(
                        portals@,
                        src,
                        f,
                        parent@,
                        level@,
                        (k + 1) as nat,
                        b,
                        ia,
                    );
                }
                let ghost before = found@;
                found.push(b);
                parent.push(ia);
                level.push(k + 1);
                proof {
                    let n = before.len() as int;
                    assert(found@[n] == b);
                    assert(found@.subrange(0, old_len as int) =~= prev@) by {
                        assert(before.subrange(0, old_len as int) == prev@);
                        assert forall|x: int| 0 <= x < old_len implies found@[x] == prev@[x] by {
                            assert(before[x] == prev@[x]);
                        }
                    }
                    assert forall|x: usize| before.contains(x) implies found@.contains(x) by {
                        let y = choose|y: int| 0 <= y < before.len() && before[y] == x;
                        assert(found@[y] == x);
                    }
                }
            },
        }
    } else {
        assert(!prev@.contains(a)) by {
            if prev@.contains(a) {
                let x = choose|x: int| 0 <= x < prev@.len() && prev@[x] == a;
                assert(found@[x] == prev@[x]);
            }
        }
    }
}

/// The breadth-first widening from `src`: returns the stars found, each with the index of the
/// star it was reached from and the number of portals it takes; stops as soon as `target` is
/// found (and gives its index) or nothing new can be reached.
fn widen(portals: &Vec<Portal>, src: usize, target: usize) -> (r: (
    Vec<usize>,
    Vec<usize>,
    Vec<usize>,
    Option<usize>,
    Ghost<nat>,
))
    ensures
        search_state(portals@, src, r.0@, r.1@, r.2@, r.4@),
        match r.3 {
            Some(ti) => ti < r.0.len() && r.0@[ti as int] == target,
            None => forall|m: nat| !reachable_within(portals@, src, m, target),
        },
{
    let mut found: Vec<usize> = Vec::new();
    let mut parent: Vec<usize> = Vec::new();
    let mut level: Vec<usize> = Vec::new();
    found.push(src);
    parent.push(0);
    level.push(0);
    let mut k: usize = 0;
    let n_slots: Ghost<int> = Ghost((2 * portals@.len()) as int);
    proof {
        lemma_state_start(portals@, src);
        assert(found@ =~= seq![src]);
        assert(parent@ =~= seq![0usize]);
        assert(level@ =~= seq![0usize]);
        assert forall|v: usize| #[trigger]
            reachable_within(portals@, src, 0, v) <==> found@.contains(v) by {
            lemma_reach_zero(portals@, src, v);
            if v == src {
                assert(found@[0] == v);
            }
        }
    }
    loop
        invariant
            search_state(portals@, src, found@, parent@, level@, k as nat),
            search_closed(portals@, src, found@, k as nat),
            k + 1 <= found.len(),
            n_slots@ == 2 * portals@.len(),
        decreases missing(portals@, found@, n_slots@),
    {
        let len = found.len();
        if let Some(ti) = position(&found, len, target) {
            return (found, parent, level, Some(ti), Ghost(k as nat));
        }
        let ghost prev = found@;
        proof {
            lemma_state_grow(portals@, src, found@, parent@, level@, k as nat, (k + 1) as nat);
            assert(found@.subrange(0, len as int) =~= prev);
            assert forall|i: int| 0 <= i < prev.len() implies #[trigger] level@[i] <= k by {
                lemma_state_entry(portals@, src, found@, parent@, level@, k as nat, i);
            }
        }
        let mut j: usize = 0;
        while j < portals.len()
            invariant
                len == prev.len(),
                k + 1 <= len,
                j <= portals.len(),
                round_state(portals@, src, prev, found@, parent@, level@, k as nat),
                forall|x: usize| prev.contains(x) ==> found@.contains(x),
                forall|i: int|
                    0 <= i < j ==> {
                        let p = #[trigger] portals@[i];
                        &&& prev.contains(p.0) ==> found@.contains(p.1)
                        &&& prev.contains(p.1) ==> found@.contains(p.0)
                    },
            decreases portals.len() - j,
        {
            let p = portals[j];
            let ghost f0 = found@;
            extend(
                portals,
                src,
                &mut found,
                &mut parent,
                &mut level,
                len,
                k,
                j,
                p.0,
                p.1,
                Ghost(prev),
            );
            let ghost f1 = found@;
            extend(
                portals,
                src,
                &mut found,
                &mut parent,
                &mut level,
                len,
                k,
                j,
                p.1,
                p.0,
                Ghost(prev),
            );
            proof {
                assert forall|i: int| 0 <= i < j + 1 implies {
                    let q = #[trigger] portals@[i];
                    &&& prev.contains(q.0) ==> found@.contains(q.1)
                    &&& prev.contains(q.1) ==> found@.contains(q.0)
                } by {
                    if i < j {
                        let q = portals@[i];
                        assert(prev.contains(q.0) ==> f0.contains(q.1));
                        assert(prev.contains(q.1) ==> f0.contains(q.0));
                    }
                }
            }
            j = j + 1;
        }
        proof {
            assert forall|v: usize| #[trigger]
                reachable_within(portals@, src, (k + 1) as nat, v) <==> found@.contains(v) by {
                if reachable_within(portals@, src, (k + 1) as nat, v) {
                    if !reachable_within(portals@, src, k as nat, v) {
                        let (i, a) = lemma_reach_back(portals@, src, k as nat, v);
                        let p = portals@[i];
                        assert(prev.contains(a));
                    }
                }
                if found@.contains(v) {
                    let x = choose|x: int| 0 <= x < found@.len() && found@[x] == v;
                    lemma_state_entry(portals@, src, found@, parent@, level@, (k + 1) as nat, x);
                    lemma_reach_monotone(portals@, src, level@[x] as nat, (k + 1) as nat, v);
                }
            }
        }
        if found.len() == len {
            proof {
                assert(found@ =~= prev);
                assert forall|m: nat| !reachable_within(portals@, src, m, target) by {
                    assert(!prev.contains(target));
                    if m <= k {
                        if reachable_within(portals@, src, m, target) {
                            lemma_reach_monotone(portals@, src, m, k as nat, target);
                        }
                    } else {
                        lemma_reach_fixpoint(portals@, src, k as nat, m, target);
                    }
                }
            }
            return (found, parent, level, None, Ghost((k + 1) as nat));
        }
        proof {
            let b = found@[len as int];
            assert(found@.contains(b));
            assert(!prev.contains(b)) by {
                lemma_state_entry(portals@, src, found@, parent@, level@, (k + 1) as nat, len as int);
                if prev.contains(b) {
                    let x = choose|x: int| 0 <= x < prev.len() && prev[x] == b;
                    assert(found@[x] == prev[x]);
                }
            }
            let (i, a) = lemma_reach_back(portals@, src, k as nat, b);
            let s = if portals@[i].1 == b {
                2 * i + 1
            } else {
                2 * i
            };
            assert(slot(portals@, s) == b);
            lemma_missing_shrinks(portals@, prev, found@, n_slots@, s);
        }
        k = k + 1;
    }
}

/// Walks back from entry `ti` along the parents to the start: the stars of the path, last
/// star first, with the route properties stated over the path in its forward order.
fn trace_back(
    portals: &Vec<Portal>,
    src: usize,
    found: &Vec<usize>,
    parent: &Vec<usize>,
    level: &Vec<usize>,
    ti: usize,
    k: Ghost<nat>,
) -> (chain: Vec<usize>)
    requires
        search_state(portals@, src, found@, parent@, level@, k@),
        ti < found.len(),
    ensures
        chain@.len() == level@[ti as int] + 1,
        is_route(portals@, chain@.reverse(), src, found@[ti as int]),
{
    proof {
        lemma_state_entry(portals@, src, found@, parent@, level@, k@, ti as int);
    }
    let mut chain: Vec<usize> = Vec::new();
    let mut idx = ti;
    chain.push(found[idx]);
    let ghost mut idxs: Seq<int> = seq![ti as int];
    let ghost top = level@[ti as int] as int;
    while idx != 0
        invariant
            search_state(portals@, src, found@, parent@, level@, k@),
            found@.len() == parent@.len() == level@.len(),
            idx < found.len(),
            ti < found.len(),
            idxs[0] == ti,
            top == level@[ti as int],
            chain@.len() == idxs.len(),
            chain@.len() >= 1,
            chain@.len() + level@[idx as int] == top + 1,
            idxs[idxs.len() - 1] == idx,
            forall|j: int|
                0 <= j < idxs.len() ==> {
                    &&& 0 <= #[trigger] idxs[j] < found@.len()
                    &&& found@[idxs[j]] == chain@[j]
                    &&& level@[idxs[j]] == top - j
                },
            forall|j: int|
                0 <= j < chain@.len() - 1 ==> #[trigger] adjacent(portals@, chain@[j + 1], chain@[j]),
        decreases level@[idx as int],
    {
        proof {
            lemma_state_entry(portals@, src, found@, parent@, level@, k@, idx as int);
        }
        let ghost prev = chain@;
        idx = parent[idx];
        chain.push(found[idx]);
        proof {
            idxs = idxs.push(idx as int);
            assert forall|j: int| 0 <= j < chain@.len() - 1 implies #[trigger] adjacent(
                portals@,
                chain@[j + 1],
                chain@[j],
            ) by {
                if j < prev.len() - 1 {
                    assert(chain@[j + 1] == prev[j + 1]);
                    assert(chain@[j] == prev[j]);
                    assert(adjacent(portals@, prev[j + 1], prev[j]));
                } else {
                    assert(chain@[j] == prev[j]);
                    assert(prev[j] == found@[idxs[j]]);
                }
            }
        }
    }
    proof {
        lemma_state_entry(portals@, src, found@, parent@, level@, k@, 0);
        let path = chain@.reverse();
        let n = chain@.len() as int;
        assert(path[0] == chain@[n - 1]);
        assert(path[n - 1] == chain@[0]);
        assert(chain@[0] == found@[ti as int]) by {
            assert(found@[idxs[0]] == chain@[0]);
        }
        assert(chain@[n - 1] == src) by {
            assert(found@[idxs[n - 1]] == chain@[n - 1]);
        }
        assert forall|i: int| 0 <= i < path.len() - 1 implies #[trigger] step_ok(
            portals@,
            path,
            i,
        ) by {
            assert(path[i] == chain@[n - 1 - i]);
            assert(path[i + 1] == chain@[n - 2 - i]);
            assert(adjacent(portals@, chain@[(n - 2 - i) + 1], chain@[n - 2 - i]));
        }
        assert forall|i: int, j: int| 0 <= i < j < path.len() implies path[i] != path[j] by {
            let a = n - 1 - i;
            let b = n - 1 - j;
            assert(path[i] == chain@[a]);
            assert(path[j] == chain@[b]);
            assert(0 <= idxs[a] < found@.len());
            assert(0 <= idxs[b] < found@.len());
            assert(level@[idxs[a]] != level@[idxs[b]]);
            lemma_state_entry(portals@, src, found@, parent@, level@, k@, idxs[a]);
        }
    }
    chain
}

/// The shortest route through the portals from the first star to the last, as the portals
/// it takes in order: `None` when no route exists. Among routes of the same length the
/// search may pick any.
pub fn flight(universe: &Universe) -> (r: Option<Vec<Portal>>)
    requires
        universe.n_stars >= 1,
        universe.n_stars == 1 || exists|i: int|
            0 <= i < universe.portals@.len() && (#[trigger] universe.portals@[i].0 == 0
                || universe.portals@[i].1 == 0),
    ensures
        ({
            let portals = universe.portals@;
            let last = (universe.n_stars - 1) as usize;
            match r {
                None => forall|path: Seq<usize>| !#[trigger] is_route(portals, path, 0, last),
                Some(route) => exists|path: Seq<usize>|
                    {
                        &&& #[trigger] is_route(portals, path, 0, last)
                        &&& route@ == hops(path)
                        &&& forall|q: Seq<usize>| #[trigger]
                            is_route(portals, q, 0, last) ==> q.len() >= path.len()
                    },
            }
        }),
{
    let portals = &universe.portals;
    let last = universe.n_stars - 1;
    let (found, parent, level, t, k) = widen(portals, 0, last);
    match t {
        None => {
            proof {
                assert forall|path: Seq<usize>| !#[trigger] is_route(portals@, path, 0, last) by {
                    if is_route(portals@, path, 0, last) {
                        lemma_walk_reaches(portals@, 0, path);
                    }
                }
            }
            None
        },
        Some(ti) => {
            let chain = trace_back(portals, 0, &found, &parent, &level, ti, k);
            let n = chain.len();
            let mut route: Vec<Portal> = Vec::new();
            let mut i: usize = 0;
            let ghost path = chain@.reverse();
            while i + 1 < n
                invariant
                    n == chain@.len(),
                    n >= 1,
                    path == chain@.reverse(),
                    i + 1 <= n,
                    route@.len() == i,
                    forall|j: int| 0 <= j < i ==> #[trigger] route@[j] == hops(path)[j],
                decreases n - i,
            {
                route.push(Portal(chain[n - 1 - i], chain[n - 2 - i]));
                i = i + 1;
            }
            proof {
                assert(route@ =~= hops(path));
                lemma_state_entry(portals@, 0, found@, parent@, level@, k@, ti as int);
                assert forall|q: Seq<usize>| #[trigger]
                    is_route(portals@, q, 0, last) implies q.len() >= path.len() by {
                    lemma_walk_reaches(portals@, 0, q);
                    if q.len() < path.len() {
                        lemma_reach_monotone(
                            portals@,
                            0,
                            (q.len() - 1) as nat,
                            (level@[ti as int] - 1) as nat,
                            last,
                        );
                    }
                }
            }
            Some(route)
        },
    }
}

// ---------------------------------------------------------------------------------------------
// The portal graph
/// Star `v` is an end of some portal.
pub open spec fn charted(portals: Seq<Portal>, v: usize) -> bool {
    exists|i: int| 0 <= i < portals.len() && (#[trigger] portals[i].0 == v || portals[i].1 == v)
}

/// The stars one portal away from `v`.
pub open spec fn neighbours(portals: Seq<Portal>, v: usize) -> Set<usize> {
    Set::new(|w: usize| adjacent(portals, v, w))
}

/// The portal graph as a map from each charted star to its neighbours.
pub open spec fn portal_graph(portals: Seq<Portal>) -> Map<usize, Set<usize>> {
    Map::new(|v: usize| charted(portals, v), |v: usize| neighbours(portals, v))
}

/// Portals go both ways: `b` is a neighbour of `a` in the graph exactly when `a` is one of
/// `b`.
pub proof fn law_portals_symmetric(portals: Seq<Portal>, a: usize, b: usize)
    ensures
        (portal_graph(portals).contains_key(a) && portal_graph(portals)[a].contains(b)) <==> (
        portal_graph(portals).contains_key(b) && portal_graph(portals)[b].contains(a)),
{
    if adjacent(portals, a, b) {
        let i = choose|i: int| 0 <= i < portals.len() && connects(#[trigger] portals[i], a, b);
        assert(connects(portals[i], b, a));
        assert(portals[i].0 == a || portals[i].1 == a);
        assert(portals[i].0 == b || portals[i].1 == b);
    }
    if adjacent(portals, b, a) {
        let i = choose|i: int| 0 <= i < portals.len() && connects(#[trigger] portals[i], b, a);
        assert(connects(portals[i], a, b));
        assert(portals[i].0 == a || portals[i].1 == a);
        assert(portals[i].0 == b || portals[i].1 == b);
    }
}

/// The portals as a two-way graph: for each star that some portal touches, the stars one
/// portal away.
pub struct Portals(HashMap<usize, HashSet<usize>>);

impl View for Portals {
    type V = Map<usize, Set<usize>>;

    closed spec fn view(&self) -> Map<usize, Set<usize>> {
        Map::new(|v: usize| self.0@.contains_key(v), |v: usize| self.0@[v]@)
    }
}

/// Adds `b` to the neighbours of `a`.
fn add_neighbour(map: &mut HashMap<usize, HashSet<usize>>, a: usize, b: usize)
    ensures
        forall|v: usize| #[trigger] final(map)@.contains_key(v) <==> (old(map)@.contains_key(v) || v == a),
        forall|v: usize|
            #[trigger] final(map)@.contains_key(v) && v != a ==> final(map)@[v] == old(map)@[v],
        final(map)@[a]@ == if old(map)@.contains_key(a) {
            old(map)@[a]@.insert(b)
        } else {
            Set::<usize>::empty().insert(b)
        },
{
    let mut set = match map.remove(&a) {
        Some(s) => s,
        None => HashSet::new(),
    };
    set.insert(b);
    map.insert(a, set);
}

impl Portals {
    /// The two-way graph of the portals.
    pub fn from(portals: &Vec<Portal>) -> (r: Portals)
        ensures
            r@ == portal_graph(portals@),
    {
        let mut map: HashMap<usize, HashSet<usize>> = HashMap::new();
        let mut i: usize = 0;
        while i < portals.len()
            invariant
                i <= portals.len(),
                forall|v: usize| #[trigger]
                    map@.contains_key(v) <==> charted(portals@.take(i as int), v),
                forall|v: usize| #[trigger]
                    map@.contains_key(v) ==> map@[v]@ == neighbours(portals@.take(i as int), v),
            decreases portals.len() - i,
        {
            let p = portals[i];
            let ghost before = map@;
            add_neighbour(&mut map, p.0, p.1);
            add_neighbour(&mut map, p.1, p.0);
            proof {
                let t0 = portals@.take(i as int);
                let t1 = portals@.take(i + 1);
                assert(t1[i as int] == p);
                assert forall|v: usize| #[trigger]
                    map@.contains_key(v) <==> charted(t1, v) by {
                    if charted(t0, v) {
                        let j = choose|j: int| 0 <= j < t0.len() && (#[trigger] t0[j].0 == v || t0[j].1 == v);
                        assert(t1[j] == t0[j]);
                    }
                    if charted(t1, v) {
                        let j = choose|j: int| 0 <= j < t1.len() && (#[trigger] t1[j].0 == v || t1[j].1 == v);
                        if j < i {
                            assert(t1[j] == t0[j]);
                        }
                    }
                }
                assert forall|v: usize| #[trigger]
                    map@.contains_key(v) implies map@[v]@ == neighbours(t1, v) by {
                    assert forall|w: usize| adjacent(t1, v, w) <==> (adjacent(t0, v, w) || connects(p, v, w)) by {
                        if adjacent(t0, v, w) {
                            let j = choose|j: int| 0 <= j < t0.len() && connects(#[trigger] t0[j], v, w);
                            assert(t1[j] == t0[j]);
                        }
                        if adjacent(t1, v, w) {
                            let j = choose|j: int| 0 <= j < t1.len() && connects(#[trigger] t1[j], v, w);
                            if j < i {
                                assert(t1[j] == t0[j]);
                            }
                        }
                        if connects(p, v, w) {
                            assert(connects(t1[i as int], v, w));
                        }
                    }
                    if before.contains_key(v) {
                        assert(map@[v]@ =~= neighbours(t1, v));
                    } else {
                        assert forall|w: usize| !adjacent(t0, v, w) by {
                            if adjacent(t0, v, w) {
                                let j = choose|j: int| 0 <= j < t0.len() && connects(#[trigger] t0[j], v, w);
                                assert(t0[j].0 == v || t0[j].1 == v);
                            }
                        }
                        assert(map@[v]@ =~= neighbours(t1, v));
                    }
                }
            }
            i = i + 1;
        }
        assert(portals@.take(portals@.len() as int) =~= portals@);
        let r = Portals(map);
        assert(r@ =~= portal_graph(portals@));
        r
    }

    /// The neighbours of `star`, if some portal touches it.
    pub fn get(&self, star: usize) -> (r: Option<&HashSet<usize>>)
        ensures
            r is Some <==> self@.contains_key(star),
            r matches Some(s) ==> s@ == self@[star],
    {
        self.0.get(&star)
    }
}

// ---------------------------------------------------------------------------------------------
// Present counting
/// The exclusive or of all the values, taken from the first to the last.
pub open spec fn xor_all(vs: Seq<usize>) -> usize
    decreases vs.len(),
{
    if vs.len() == 0 {
        0
    } else {
        xor_all(vs.drop_last()) ^ vs.last()
    }
}

/// The numbers on the lines, read one by one: the first error stops the reading.
pub open spec fn parse_lines(ls: Seq<Seq<char>>) -> Result<Seq<usize>, IntErrorKind>
    decreases ls.len(),
{
    if ls.len() == 0 {
        Ok(seq![])
    } else {
        match parse_unsigned(ls[0], usize::MAX as int) {
            Err(e) => Err(e),
            Ok(v) => match parse_lines(ls.drop_first()) {
                Err(e) => Err(e),
                Ok(rest) => Ok(seq![v as usize] + rest),
            },
        }
    }
}

/// `n` presents: the character U+1F381 repeated `n` times.
pub open spec fn presents(n: nat) -> Seq<char> {
    Seq::new(n, |i: int| '\u{1F381}')
}

/// The exclusive or of the numbers on the lines of `data`; or the message of the first
/// number that cannot be read.
pub fn xor_lines(data: &str) -> (r: Result<usize, String>)
    ensures
        match parse_lines(lines_of(data@)) {
            Ok(vs) => r == Ok::<usize, String>(xor_all(vs)),
            Err(e) => r matches Err(m) && m@ == int_error_message(e),
        },
{
    let ls = lines(data);
    let ghost lsv = lines_of(data@);
    let mut acc: usize = 0;
    let mut i: usize = 0;
    let ghost mut done: Seq<usize> = seq![];
    assert(lsv.skip(0) =~= lsv);
    while i < ls.len()
        invariant
            lsv == lines_of(data@),
            ls@.len() == lsv.len(),
            forall|j: int| 0 <= j < ls@.len() ==> #[trigger] ls@[j]@ == lsv[j],
            i <= ls@.len(),
            acc == xor_all(done),
            parse_lines(lsv) == match parse_lines(lsv.skip(i as int)) {
                Ok(rest) => Ok(done + rest),
                Err(e) => Err::<Seq<usize>, IntErrorKind>(e),
            },
        decreases ls.len() - i,
    {
        let ghost rest = lsv.skip(i as int);
        assert(rest[0] == ls@[i as int]@);
        assert(rest.drop_first() =~= lsv.skip(i + 1));
        match parse_usize(ls[i].as_str()) {
            Err(e) => {
                assert(parse_lines(rest) == Err::<Seq<usize>, IntErrorKind>(e));
                return Err(e.message());
            },
            Ok(v) => {
                proof {
                    let nd = done.push(v);
                    assert(nd.drop_last() =~= done);
                    match parse_lines(lsv.skip(i + 1)) {
                        Ok(rest2) => {
                            assert(done + (seq![v] + rest2) =~= nd + rest2);
                        },
                        Err(e) => {},
                    }
                    done = nd;
                }
                acc = acc ^ v;
            },
        }
        i = i + 1;
    }
    proof {
        assert(lsv.skip(i as int) =~= Seq::<Seq<char>>::empty());
        assert(done + seq![] =~= done);
    }
    Ok(acc)
}

/// `n` presents as text. The text takes four bytes a present, so `n` is bounded for it to fit
/// in memory.
pub fn presents_text(n: usize) -> (g: String)
    requires
        n <= isize::MAX / 4,
    ensures
        g@ == presents(n as nat),
{
    let mut g = String::new();
    let mut k: usize = 0;
    while k < n
        invariant
            k <= n,
            g@ == presents(k as nat),
        decreases n - k,
    {
        push_char(&mut g, '\u{1F381}');
        assert(g@ =~= presents((k + 1) as nat));
        k = k + 1;
    }
    g
}

/// The exclusive or of the numbers on the lines of `data`, as that many presents; or the
/// message of the first number that cannot be read.
pub fn integers(data: &str) -> (r: Result<String, String>)
    requires
        parse_lines(lines_of(data@)) matches Ok(vs) ==> xor_all(vs) <= isize::MAX / 4,
    ensures
        match parse_lines(lines_of(data@)) {
            Ok(vs) => r matches Ok(g) && g@ == presents(xor_all(vs) as nat),
            Err(e) => r matches Err(m) && m@ == int_error_message(e),
        },
{
    match xor_lines(data) {
        Ok(n) => Ok(presents_text(n)),
        Err(m) => Err(m),
    }
}

/// No number gives no presents, and each further number is taken whole into the exclusive
/// or: the exclusive or with one more number is the bitwise exclusive or of the earlier
/// result with that number.
pub proof fn law_xor_push(a: Seq<usize>, v: usize)
    ensures
        xor_all(Seq::<usize>::empty()) == 0,
        xor_all(a.push(v)) == xor_all(a) ^ v,
{
    assert(a.push(v).drop_last() =~= a);
}

/// The exclusive or of a single number is that number, so one line `n` gives `n` presents.
pub proof fn law_xor_single(v: usize)
    ensures
        xor_all(seq![v]) == v,
{
    law_xor_push(Seq::<usize>::empty(), v);
    assert(Seq::<usize>::empty().push(v) =~= seq![v]);
    assert(0usize ^ v == v) by (bit_vector);
}

/// The exclusive or of two sequences put together is that of the one with that of the other.
pub proof fn law_xor_concat(a: Seq<usize>, b: Seq<usize>)
    ensures
        xor_all(a + b) == xor_all(a) ^ xor_all(b),
    decreases b.len(),
{
    if b.len() == 0 {
        assert(a + b =~= a);
        let x = xor_all(a);
        assert(x ^ 0 == x) by (bit_vector);
    } else {
        law_xor_concat(a, b.drop_last());
        assert((a + b).drop_last() =~= a + b.drop_last());
        let x = xor_all(a);
        let y = xor_all(b.drop_last());
        let z = b.last();
        assert((x ^ y) ^ z == x ^ (y ^ z)) by (bit_vector);
    }
}

/// A number that occurs twice among the lines cancels out: the exclusive or is that of the
/// other numbers, so where every number but one comes in pairs, the one left is found.
pub proof fn law_xor_pair_cancels(a: Seq<usize>, x: usize, b: Seq<usize>, c: Seq<usize>)
    ensures
        xor_all(a + seq![x] + b + seq![x] + c) == xor_all(a + b + c),
{
    law_xor_concat(a + seq![x] + b + seq![x], c);
    law_xor_concat(a + seq![x] + b, seq![x]);
    law_xor_concat(a + seq![x], b);
    law_xor_concat(a, seq![x]);
    law_xor_concat(a + b, c);
    law_xor_concat(a, b);
    let sx = seq![x];
    assert(sx.drop_last() =~= Seq::<usize>::empty());
    assert(xor_all(sx) == xor_all(Seq::<usize>::empty()) ^ x);
    let p = xor_all(a);
    let q = xor_all(b);
    let r = xor_all(c);
    assert(0usize ^ x == x) by (bit_vector);
    assert(((p ^ x) ^ q) ^ x == p ^ q) by (bit_vector);
}

// ---------------------------------------------------------------------------------------------
// Reading a universe
/// Reads the portals from the given lines: each line two star numbers between whitespace.
pub open spec fn parse_portal_lines(ls: Seq<Seq<char>>) -> Option<Seq<Portal>>
    decreases ls.len(),
{
    if ls.len() == 0 {
        Some(seq![])
    } else {
        let t = tokens_of(ls[0]);
        if t.len() != 2 {
            None
        } else {
            match (parse_unsigned(t[0], usize::MAX as int), parse_unsigned(t[1], usize::MAX as int)) {
                (Ok(a), Ok(b)) => match parse_portal_lines(ls.drop_first()) {
                    Some(rest) => Some(seq![Portal(a as usize, b as usize)] + rest),
                    None => None,
                },
                _ => None,
            }
        }
    }
}

/// The lines that hold the coordinates of the stars: the `n` after the first, or those
/// there are.
pub open spec fn star_lines_of(ls: Seq<Seq<char>>, n: int) -> Seq<Seq<char>> {
    ls.subrange(1, if 1 + n <= ls.len() { 1 + n } else { ls.len() as int })
}

/// The lines that hold the portals: all after the line that follows the stars.
pub open spec fn portal_lines_of(ls: Seq<Seq<char>>, n: int) -> Seq<Seq<char>> {
    if 2 + n <= ls.len() {
        ls.skip(2 + n)
    } else {
        seq![]
    }
}

/// The tokens of each line.
pub open spec fn line_tokens(ls: Seq<Seq<char>>) -> Seq<Seq<Seq<char>>> {
    ls.map_values(|l: Seq<char>| tokens_of(l))
}

/// Every line has exactly three tokens.
pub open spec fn all_triples(t: Seq<Seq<Seq<char>>>) -> bool {
    forall|i: int| 0 <= i < t.len() ==> (#[trigger] t[i]).len() == 3
}

/// The text of a universe read as the service reads it: the first line gives the number
/// `n` of stars; of the next `n` lines (or fewer, if the text ends), each holds the three
/// coordinates of a star between whitespace; the line after them is passed over; every
/// line after that holds a portal as two star numbers. `None` where the text does not
/// have this shape.
pub open spec fn universe_text(s: Seq<char>) -> Option<(Seq<Seq<Seq<char>>>, Seq<Portal>)> {
    let ls = lines_of(s);
    let pn = parse_unsigned(ls[0], usize::MAX as int);
    if ls.len() == 0 || pn is Err {
        None
    } else {
        let n = pn->Ok_0;
        if n + 2 > usize::MAX {
            None
        } else {
            let stars = line_tokens(star_lines_of(ls, n));
            let portals = parse_portal_lines(portal_lines_of(ls, n));
            if !all_triples(stars) || portals is None {
                None
            } else {
                Some((stars, portals->Some_0))
            }
        }
    }
}

/// Reads a universe: its stars (each as the three tokens of its coordinates) and portals.
/// `None` where the text does not have the shape `universe_text` describes.
pub fn parse_universe(text: &str) -> (r: Option<(Universe, Vec<Vec<String>>)>)
    ensures
        match universe_text(text@) {
            None => r is None,
            Some((stars, portals)) => r matches Some((u, cs)) && {
                &&& u.n_stars == stars.len()
                &&& u.portals@ == portals
                &&& cs@.len() == stars.len()
                &&& forall|i: int| 0 <= i < cs@.len() ==> (#[trigger] cs@[i])@.len() == 3
                    && forall|j: int| 0 <= j < 3 ==> #[trigger] cs@[i]@[j]@ == stars[i][j]
            },
        },
{
    let ls = lines(text);
    let ghost lsv = lines_of(text@);
    if ls.len() == 0 {
        return None;
    }
    assert(ls@[0]@ == lsv[0]);
    let n = match parse_usize(ls[0].as_str()) {
        Ok(n) => n,
        Err(_) => {
            return None;
        },
    };
    if n > usize::MAX - 2 {
        return None;
    }
    let star_end: usize = if n < ls.len() - 1 { 1 + n } else { ls.len() };
    assert(star_end == if 1 + n <= lsv.len() { 1 + n } else { lsv.len() as int });
    let mut stars: Vec<Vec<String>> = Vec::new();
    let mut i: usize = 1;
    let ghost star_lines = star_lines_of(lsv, n as int);
    let ghost want = line_tokens(star_lines);
    while i < star_end
        invariant
            lsv == lines_of(text@),
            lsv.len() > 0,
            parse_unsigned(lsv[0], usize::MAX as int) == Ok::<int, IntErrorKind>(n as int),
            n + 2 <= usize::MAX,
            star_end == if 1 + n <= lsv.len() { 1 + n } else { lsv.len() as int },
            ls@.len() == lsv.len(),
            forall|j: int| 0 <= j < ls@.len() ==> #[trigger] ls@[j]@ == lsv[j],
            1 <= i <= star_end <= ls@.len(),
            star_lines == star_lines_of(lsv, n as int),
            star_lines == lsv.subrange(1, star_end as int),
            want == line_tokens(star_lines),
            stars@.len() == i - 1,
            forall|x: int|
                0 <= x < stars@.len() ==> (#[trigger] stars@[x])@.len() == 3 && forall|y: int|
                    0 <= y < 3 ==> #[trigger] stars@[x]@[y]@ == want[x][y],
            forall|x: int| 0 <= x < i - 1 ==> (#[trigger] want[x]).len() == 3,
        decreases star_end - i,
    {
        let t = tokens(ls[i].as_str());
        assert(want[i - 1] == tokens_of(lsv[i as int]));
        if t.len() != 3 {
            assert(want[i - 1].len() != 3);
            assert(!all_triples(want));
            return None;
        }
        stars.push(t);
        i = i + 1;
    }
    let mut portals: Vec<Portal> = Vec::new();
    let mut j: usize = 2 + n;
    let ghost portal_lines = portal_lines_of(lsv, n as int);
    proof {
        if 2 + n <= lsv.len() {
            assert(portal_lines.skip(0) =~= portal_lines);
        }
    }
    let ghost mut done: Seq<Portal> = seq![];
    while j < ls.len()
        invariant
            lsv == lines_of(text@),
            lsv.len() > 0,
            parse_unsigned(lsv[0], usize::MAX as int) == Ok::<int, IntErrorKind>(n as int),
            n + 2 <= usize::MAX,
            star_lines == star_lines_of(lsv, n as int),
            star_lines == lsv.subrange(1, star_end as int),
            star_end == if 1 + n <= lsv.len() { 1 + n } else { lsv.len() as int },
            want == line_tokens(star_lines),
            forall|x: int| 0 <= x < want.len() ==> (#[trigger] want[x]).len() == 3,
            stars@.len() == want.len(),
            forall|x: int|
                0 <= x < stars@.len() ==> (#[trigger] stars@[x])@.len() == 3 && forall|y: int|
                    0 <= y < 3 ==> #[trigger] stars@[x]@[y]@ == want[x][y],
            ls@.len() == lsv.len(),
            forall|x: int| 0 <= x < ls@.len() ==> #[trigger] ls@[x]@ == lsv[x],
            2 + n <= j,
            j <= ls@.len() || ls@.len() < 2 + n,
            j < ls@.len() ==> 2 + n <= ls@.len(),
            portals@ == done,
            2 + n > ls@.len() ==> done.len() == 0,
            portal_lines == portal_lines_of(lsv, n as int),
            j <= ls@.len() ==> parse_portal_lines(portal_lines) == match parse_portal_lines(lsv.skip(j as int)) {
                Some(rest) => Some(done + rest),
                None => None::<Seq<Portal>>,
            },
        decreases ls.len() - j,
    {
        let ghost rest = lsv.skip(j as int);
        assert(rest[0] == ls@[j as int]@);
        assert(rest.drop_first() =~= lsv.skip(j + 1));
        let t = tokens(ls[j].as_str());
        if t.len() != 2 {
            assert(parse_portal_lines(rest) is None);
                        return None;
        }
        let a = match parse_usize(t[0].as_str()) {
            Ok(a) => a,
            Err(_) => {
                assert(parse_portal_lines(rest) is None);
                                return None;
            },
        };
        let b = match parse_usize(t[1].as_str()) {
            Ok(b) => b,
            Err(_) => {
                assert(parse_portal_lines(rest) is None);
                                return None;
            },
        };
        proof {
            let nd = done.push(Portal(a, b));
            match parse_portal_lines(lsv.skip(j + 1)) {
                Some(r2) => {
                    assert(done + (seq![Portal(a, b)] + r2) =~= nd + r2);
                },
                None => {},
            }
            done = nd;
        }
        portals.push(Portal(a, b));
        j = j + 1;
    }
    proof {
        if 2 + n <= lsv.len() {
            assert(lsv.skip(j as int) =~= Seq::<Seq<char>>::empty());
            assert(done + seq![] =~= done);
        } else {
            assert(done =~= Seq::<Portal>::empty());
        }
        assert(all_triples(want));
    }
    Some((Universe { n_stars: stars.len(), portals }, stars))
}

} // verus!
