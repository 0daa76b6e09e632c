//! Gift orders: which gift is the most popular.
use vstd::prelude::*;
use crate::text::str_eq;

verus! {

/// An order of some quantity of a gift for a region.
#[derive(Debug)]
pub struct Order {
    pub id: i32,
    pub region_id: i32,
    pub gift_name: String,
    pub quantity: i32,
}

/// Some order of `os` is for gift `g`.
pub open spec fn ordered(os: Seq<Order>, g: Seq<char>) -> bool {
    exists|i: int| 0 <= i < os.len() && (#[trigger] os[i]).gift_name@ == g
}

/// The tally the service keeps for gift `g`: the quantities of its orders, except that the
/// first order of a gift only enters it into the tally, at zero.
pub open spec fn tally(os: Seq<Order>, g: Seq<char>) -> int
    decreases os.len(),
{
    if os.len() == 0 {
        0
    } else {
        let pre = os.drop_last();
        if os.last().gift_name@ == g && ordered(pre, g) {
            tally(pre, g) + os.last().quantity
        } else {
            tally(pre, g)
        }
    }
}

/// While the orders are tallied one by one, no tally leaves the range of `i32`.
pub open spec fn tallies_fit(os: Seq<Order>) -> bool {
    forall|k: int, g: Seq<char>|
        0 <= k <= os.len() ==> i32::MIN <= #[trigger] tally(os.take(k), g) <= i32::MAX
}

proof fn lemma_ordered_push(os: Seq<Order>, n: int, g: Seq<char>)
    requires
        0 <= n < os.len(),
    ensures
        ordered(os.take(n + 1), g) <==> (ordered(os.take(n), g) || os[n].gift_name@ == g),
{
    let a = os.take(n);
    let b = os.take(n + 1);
    if ordered(a, g) {
        let i = choose|i: int| 0 <= i < a.len() && (#[trigger] a[i]).gift_name@ == g;
        assert(b[i] == a[i]);
    }
    if ordered(b, g) {
        let i = choose|i: int| 0 <= i < b.len() && (#[trigger] b[i]).gift_name@ == g;
        if i < n {
            assert(b[i] == a[i]);
        }
    }
    if os[n].gift_name@ == g {
        assert(b[n] == os[n]);
    }
}

/// The gift with the largest tally, if there are orders at all: some gift ordered whose
/// tally no other gift's exceeds (among equals, any). `None` where a tally leaves the range
/// of `i32` on the way.
pub fn orders_popular_checked(orders: &Vec<Order>) -> (r: Option<Option<String>>)
    ensures
        r is None <==> !tallies_fit(orders@),
        r matches Some(p) ==> (p is None <==> orders@.len() == 0),
        r matches Some(Some(g)) ==> ordered(orders@, g@) && forall|i: int|
            0 <= i < orders@.len() ==> tally(orders@, (#[trigger] orders@[i]).gift_name@) <= tally(
                orders@,
                g@,
            ),
{
    let mut names: Vec<String> = Vec::new();
    let mut totals: Vec<i32> = Vec::new();
    let mut i: usize = 0;
    while i < orders.len()
        invariant
            i <= orders@.len(),
            forall|k: int, g: Seq<char>|
                0 <= k <= i ==> i32::MIN <= #[trigger] tally(orders@.take(k), g) <= i32::MAX,
            names@.len() == totals@.len(),
            forall|a: int, b: int| 0 <= a < b < names@.len() ==> names@[a]@ != names@[b]@,
            forall|g: Seq<char>|
                ordered(orders@.take(i as int), g) <==> exists|x: int|
                    0 <= x < names@.len() && #[trigger] names@[x]@ == g,
            forall|x: int|
                0 <= x < names@.len() ==> #[trigger] totals@[x] == tally(
                    orders@.take(i as int),
                    names@[x]@,
                ),
        decreases orders.len() - i,
    {
        let o = &orders[i];
        let ghost pre = orders@.take(i as int);
        let ghost post = orders@.take(i + 1);
        proof {
            assert(post.drop_last() =~= pre);
            assert(post.last() == orders@[i as int]);
        }
        let mut x: usize = 0;
        let mut found = false;
        while x < names.len() && !found
            invariant
                x <= names@.len(),
                found ==> x < names@.len() && names@[x as int]@ == o.gift_name@,
                !found ==> forall|y: int| 0 <= y < x ==> names@[y]@ != o.gift_name@,
            decreases names.len() - x, if found { 0int } else { 1int },
        {
            if str_eq(names[x].as_str(), o.gift_name.as_str()) {
                found = true;
            } else {
                x = x + 1;
            }
        }
        let ghost old_names = names@;
        let ghost old_totals = totals@;
        if found {
            proof {
                assert(ordered(pre, o.gift_name@));
                assert(tally(post, o.gift_name@) == tally(pre, o.gift_name@) + o.quantity);
            }
            if (o.quantity > 0 && totals[x] > i32::MAX - o.quantity) || (o.quantity < 0 && totals[x]
                < i32::MIN - o.quantity) {
                proof {
                    assert(!(i32::MIN <= tally(orders@.take(i + 1), o.gift_name@) <= i32::MAX));
                }
                return None;
            }
            let t = totals[x] + o.quantity;
            totals.set(x, t);
            proof {
                assert forall|g: Seq<char>| i32::MIN <= #[trigger] tally(post, g) <= i32::MAX by {
                    if g != o.gift_name@ {
                        assert(tally(post, g) == tally(pre, g));
                    }
                }
                assert forall|k: int, g: Seq<char>| 0 <= k <= i + 1 implies i32::MIN
                    <= #[trigger] tally(orders@.take(k), g) <= i32::MAX by {
                    if k == i + 1 {
                        assert(tally(post, g) == tally(orders@.take(k), g));
                    }
                }
                assert forall|y: int| 0 <= y < names@.len() implies #[trigger] totals@[y] == tally(
                    post,
                    names@[y]@,
                ) by {
                    if y != x {
                        assert(names@[y]@ != names@[x as int]@);
                    }
                }
                assert forall|g: Seq<char>|
                    ordered(post, g) <==> exists|z: int|
                        0 <= z < names@.len() && #[trigger] names@[z]@ == g by {
                    lemma_ordered_push(orders@, i as int, g);
                    assert(names@ == old_names);
                    assert(ordered(pre, g) <==> exists|z: int|
                        0 <= z < old_names.len() && #[trigger] old_names[z]@ == g);
                    if g == o.gift_name@ {
                        assert(names@[x as int]@ == g);
                    }
                }
            }
        } else {
            proof {
                assert(!ordered(pre, o.gift_name@));
                assert(tally(post, o.gift_name@) == tally(pre, o.gift_name@));
                lemma_tally_absent(pre, o.gift_name@);
            }
            names.push(o.gift_name.clone());
            totals.push(0);
            proof {
                assert forall|g: Seq<char>| i32::MIN <= #[trigger] tally(post, g) <= i32::MAX by {
                    if g != o.gift_name@ {
                        assert(tally(post, g) == tally(pre, g));
                    }
                }
                assert forall|k: int, g: Seq<char>| 0 <= k <= i + 1 implies i32::MIN
                    <= #[trigger] tally(orders@.take(k), g) <= i32::MAX by {
                    if k == i + 1 {
                        assert(tally(post, g) == tally(orders@.take(k), g));
                    }
                }
                assert forall|y: int| 0 <= y < names@.len() implies #[trigger] totals@[y] == tally(
                    post,
                    names@[y]@,
                ) by {
                    if y < old_names.len() {
                        assert(names@[y] == old_names[y]);
                        assert(old_names[y]@ != o.gift_name@);
                    }
                }
                assert forall|a: int, b: int| 0 <= a < b < names@.len() implies names@[a]@
                    != names@[b]@ by {
                    if b < old_names.len() {
                        assert(names@[a] == old_names[a]);
                        assert(names@[b] == old_names[b]);
                    } else {
                        assert(names@[a] == old_names[a]);
                    }
                }
                assert forall|g: Seq<char>|
                    ordered(post, g) <==> exists|z: int|
                        0 <= z < names@.len() && #[trigger] names@[z]@ == g by {
                    lemma_ordered_push(orders@, i as int, g);
                    assert(ordered(pre, g) <==> exists|z: int|
                        0 <= z < old_names.len() && #[trigger] old_names[z]@ == g);
                    if g == o.gift_name@ {
                        assert(names@[old_names.len() as int]@ == g);
                    }
                    if exists|z: int| 0 <= z < old_names.len() && #[trigger] old_names[z]@ == g {
                        let z = choose|z: int| 0 <= z < old_names.len() && #[trigger] old_names[z]@ == g;
                        assert(names@[z] == old_names[z]);
                    }
                    if exists|z: int| 0 <= z < names@.len() && #[trigger] names@[z]@ == g {
                        let z = choose|z: int| 0 <= z < names@.len() && #[trigger] names@[z]@ == g;
                        if z < old_names.len() {
                            assert(names@[z] == old_names[z]);
                        }
                    }
                }
            }
        }
        i = i + 1;
    }
    assert(orders@.take(i as int) =~= orders@);
    assert(tallies_fit(orders@));
    if names.len() == 0 {
        if orders.len() > 0 {
            assert(orders@[0].gift_name@ == orders@[0].gift_name@);
            assert(ordered(orders@, orders@[0].gift_name@));
        }
        return Some(None);
    }
    let mut best: usize = 0;
    let mut y: usize = 1;
    while y < names.len()
        invariant
            names@.len() == totals@.len(),
            best < y <= names@.len(),
            forall|z: int| 0 <= z < y ==> totals@[z] <= totals@[best as int],
        decreases names.len() - y,
    {
        if totals[y] >= totals[best] {
            best = y;
        }
        y = y + 1;
    }
    proof {
        assert(ordered(orders@, names@[best as int]@));
        assert forall|i: int| 0 <= i < orders@.len() implies tally(orders@, (#[trigger] orders@[i]).gift_name@)
            <= tally(orders@, names@[best as int]@) by {
            let g = orders@[i].gift_name@;
            assert(ordered(orders@, g));
            let z = choose|z: int| 0 <= z < names@.len() && #[trigger] names@[z]@ == g;
            assert(totals@[z] <= totals@[best as int]);
        }
    }
    Some(Some(names[best].clone()))
}

/// The gift with the largest tally, as `orders_popular_checked` finds it, where no tally
/// leaves the range of `i32`.
pub fn orders_popular(orders: &Vec<Order>) -> (r: Option<String>)
    requires
        tallies_fit(orders@),
    ensures
        r is None <==> orders@.len() == 0,
        r matches Some(g) ==> ordered(orders@, g@) && forall|i: int|
            0 <= i < orders@.len() ==> tally(orders@, (#[trigger] orders@[i]).gift_name@) <= tally(
                orders@,
                g@,
            ),
{
    match orders_popular_checked(orders) {
        Some(p) => p,
        None => None,
    }
}

proof fn lemma_tally_absent(os: Seq<Order>, g: Seq<char>)
    requires
        !ordered(os, g),
    ensures
        tally(os, g) == 0,
    decreases os.len(),
{
    if os.len() > 0 {
        let pre = os.drop_last();
        assert(!ordered(pre, g)) by {
            if ordered(pre, g) {
                let i = choose|i: int| 0 <= i < pre.len() && (#[trigger] pre[i]).gift_name@ == g;
                assert(os[i] == pre[i]);
            }
        }
        lemma_tally_absent(pre, g);
    }
}

} // verus!
