//! Recipes in cookies: decoding them, and baking as many cookies as the pantry allows.
use vstd::prelude::*;
use vstd::utf8::{decode_utf8, valid_utf8};
use base64::Engine;
use crate::Status;

verus! {

/// What `base64::prelude::BASE64_STANDARD.decode` gives for the given text: the decoded
/// bytes, or `None` where it reports an error.
pub uninterp spec fn base64_standard_decoded(input: Seq<char>) -> Option<Seq<u8>>;

/// `Engine::decode` of `base64` with the standard alphabet and padding
/// (`BASE64_STANDARD`); its result is named, not described.
#[verifier::external_body]
fn base64_decode(input: &str) -> (r: Option<Vec<u8>>)
    ensures
        match base64_standard_decoded(input@) {
            Some(b) => r matches Some(v) && v@ == b,
            None => r is None,
        },
{
    base64::prelude::BASE64_STANDARD.decode(input).ok()
}

/// `String::from_utf8` of std: the text the bytes encode, or `None` when they are not UTF-8.
#[verifier::external_body]
fn string_from_utf8(bytes: Vec<u8>) -> (r: Option<String>)
    ensures
        r is Some <==> valid_utf8(bytes@),
        r matches Some(s) ==> s@ == decode_utf8(bytes@),
{
    String::from_utf8(bytes).ok()
}

/// What decoding the recipe cookie gives: `400` when there is no cookie, `422` when its
/// value is not Base64 or does not decode to UTF-8 text, else that text.
pub open spec fn decoded_recipe(cookie: Option<Seq<char>>) -> Result<Seq<char>, u16> {
    match cookie {
        None => Err(400),
        Some(c) => match base64_standard_decoded(c) {
            None => Err(422),
            Some(b) => if valid_utf8(b) {
                Ok(decode_utf8(b))
            } else {
                Err(422)
            },
        },
    }
}

/// The recipe text from the bytes its Base64 decoding gave, if it gave any: `422` when it
/// gave none or they are not UTF-8.
pub fn recipe_from_bytes(decoded: Option<Vec<u8>>) -> (r: Result<String, Status>)
    ensures
        match decoded {
            None => r == Err::<String, Status>(Status { code: 422 }),
            Some(b) => if valid_utf8(b@) {
                r matches Ok(s) && s@ == decode_utf8(b@)
            } else {
                r == Err::<String, Status>(Status { code: 422 })
            },
        },
{
    match decoded {
        None => Err(Status { code: 422 }),
        Some(bytes) => match string_from_utf8(bytes) {
            None => Err(Status { code: 422 }),
            Some(s) => Ok(s),
        },
    }
}

/// Decodes the value of the `recipe` cookie, if there is one, from Base64 to text.
pub fn b64_decode(recipe: Option<&str>) -> (r: Result<String, Status>)
    ensures
        match decoded_recipe(
            match recipe {
                Some(c) => Some(c@),
                None => None,
            },
        ) {
            Ok(t) => r matches Ok(s) && s@ == t,
            Err(code) => r == Err::<String, Status>(Status { code }),
        },
{
    match recipe {
        None => Err(Status { code: 400 }),
        Some(c) => recipe_from_bytes(base64_decode(c)),
    }
}

/// A recipe (how much of each ingredient one cookie takes) and a pantry (how much of each
/// ingredient there is), each a list of named amounts.
#[derive(Debug)]
pub struct RecipePantryData {
    pub recipe: Vec<(String, usize)>,
    pub pantry: Vec<(String, usize)>,
}

/// How many cookies were baked, and what is left in the pantry.
#[derive(Debug)]
pub struct CookiesPantryData {
    pub cookies: usize,
    pub pantry: Vec<(String, usize)>,
}

/// The amount listed for ingredient `k` (the last entry for it), or 0 when it is not listed.
pub open spec fn amount(m: Seq<(String, usize)>, k: Seq<char>) -> nat
    decreases m.len(),
{
    if m.len() == 0 {
        0
    } else if m.last().0@ == k {
        m.last().1 as nat
    } else {
        amount(m.drop_last(), k)
    }
}

/// No ingredient is listed twice.
pub open spec fn distinct_names(m: Seq<(String, usize)>) -> bool {
    forall|i: int, j: int| 0 <= i < j < m.len() ==> m[i].0@ != m[j].0@
}

/// How many cookies the pantry allows by one recipe entry: as many as the pantry holds
/// amounts of it; no bound when the entry asks for none.
pub open spec fn allowed_by(entry: (String, usize), pantry: Seq<(String, usize)>) -> nat {
    if entry.1 != 0 {
        amount(pantry, entry.0@) / (entry.1 as nat)
    } else {
        usize::MAX as nat
    }
}

/// How many cookies can be baked: the least that any recipe entry allows, and `usize::MAX`
/// when no entry bounds it.
pub open spec fn cookies_for(recipe: Seq<(String, usize)>, pantry: Seq<(String, usize)>) -> nat
    decreases recipe.len(),
{
    if recipe.len() == 0 {
        usize::MAX as nat
    } else {
        let a = cookies_for(recipe.drop_last(), pantry);
        let b = allowed_by(recipe.last(), pantry);
        if b < a {
            b
        } else {
            a
        }
    }
}

/// The pantry after baking `n` cookies: each amount less what the cookies took of it.
pub open spec fn pantry_after(
    recipe: Seq<(String, usize)>,
    pantry: Seq<(String, usize)>,
    n: nat,
) -> Seq<(String, usize)> {
    pantry.map_values(
        |e: (String, usize)| (e.0, (e.1 - amount(recipe, e.0@) * n) as usize),
    )
}

proof fn lemma_cookies_bounded(recipe: Seq<(String, usize)>, pantry: Seq<(String, usize)>)
    ensures
        cookies_for(recipe, pantry) <= usize::MAX,
        forall|i: int|
            0 <= i < recipe.len() ==> cookies_for(recipe, pantry) <= allowed_by(
                #[trigger] recipe[i],
                pantry,
            ),
        recipe.len() > 0 && cookies_for(recipe, pantry) < usize::MAX ==> exists|i: int|
            0 <= i < recipe.len() && cookies_for(recipe, pantry) == allowed_by(
                #[trigger] recipe[i],
                pantry,
            ),
    decreases recipe.len(),
{
    if recipe.len() > 0 {
        let pre = recipe.drop_last();
        lemma_cookies_bounded(pre, pantry);
        assert forall|i: int| 0 <= i < recipe.len() implies cookies_for(recipe, pantry)
            <= allowed_by(#[trigger] recipe[i], pantry) by {
            if i < pre.len() {
                assert(recipe[i] == pre[i]);
            }
        }
        let a = cookies_for(pre, pantry);
        let b = allowed_by(recipe.last(), pantry);
        if cookies_for(recipe, pantry) < usize::MAX {
            if b < a {
                assert(recipe[recipe.len() - 1] == recipe.last());
            } else if pre.len() > 0 {
                let i = choose|i: int| 0 <= i < pre.len() && a == allowed_by(#[trigger] pre[i], pantry);
                assert(recipe[i] == pre[i]);
            }
        }
        assert(b <= usize::MAX) by {
            if recipe.last().1 != 0 {
                lemma_amount_bounded(pantry, recipe.last().0@);
                assert(amount(pantry, recipe.last().0@) / (recipe.last().1 as nat) <= amount(pantry, recipe.last().0@));
            }
        }
    }
}

proof fn lemma_amount_bounded(m: Seq<(String, usize)>, k: Seq<char>)
    ensures
        amount(m, k) <= usize::MAX,
        amount(m, k) > 0 ==> exists|i: int| 0 <= i < m.len() && (#[trigger] m[i]).0@ == k && m[i].1 == amount(m, k),
    decreases m.len(),
{
    if m.len() > 0 {
        lemma_amount_bounded(m.drop_last(), k);
        if m.last().0@ != k && amount(m, k) > 0 {
            let i = choose|i: int| 0 <= i < m.len() - 1 && (#[trigger] m.drop_last()[i]).0@ == k && m.drop_last()[i].1 == amount(m.drop_last(), k);
            assert(m[i] == m.drop_last()[i]);
        } else if amount(m, k) > 0 {
            assert(m[m.len() - 1] == m.last());
        }
    }
}

proof fn lemma_amount_distinct(m: Seq<(String, usize)>, i: int)
    requires
        distinct_names(m),
        0 <= i < m.len(),
    ensures
        amount(m, m[i].0@) == m[i].1,
    decreases m.len(),
{
    if i < m.len() - 1 {
        let pre = m.drop_last();
        assert(pre[i] == m[i]);
        assert(m.last() == m[m.len() - 1]);
        lemma_amount_distinct(pre, i);
    }
}

/// The amount of `k` in `m`, as `amount` states it.
fn amount_of(m: &Vec<(String, usize)>, k: &String) -> (r: usize)
    ensures
        r == amount(m@, k@),
{
    let mut i = m.len();
    proof {
        lemma_amount_bounded(m@, k@);
        assert(m@.take(i as int) =~= m@);
    }
    while i > 0
        invariant
            i <= m@.len(),
            amount(m@, k@) == amount(m@.take(i as int), k@),
        decreases i,
    {
        let ghost t = m@.take(i as int);
        assert(t.last() == m@[i - 1]);
        assert(t.drop_last() =~= m@.take(i - 1));
        if m[i - 1].0 == *k {
            return m[i - 1].1;
        }
        i = i - 1;
    }
    0
}

/// Bakes as many cookies as the pantry allows by the recipe: for each recipe entry that asks
/// for some of an ingredient, no more cookies than the pantry holds amounts of it (no bound
/// when no entry asks for anything); and gives the pantry with what the cookies took removed.
pub fn bake_cookies(d: &RecipePantryData) -> (r: CookiesPantryData)
    requires
        distinct_names(d.pantry@),
    ensures
        r.cookies == cookies_for(d.recipe@, d.pantry@),
        r.pantry@ == pantry_after(d.recipe@, d.pantry@, r.cookies as nat),
        r.pantry@.len() == d.pantry@.len(),
        forall|j: int|
            0 <= j < d.pantry@.len() ==> (#[trigger] r.pantry@[j]).0@ == d.pantry@[j].0@
                && r.pantry@[j].1 + amount(d.recipe@, d.pantry@[j].0@) * r.cookies
                == d.pantry@[j].1,
{
    let recipe = &d.recipe;
    let pantry = &d.pantry;
    let mut n: usize = usize::MAX;
    let mut i: usize = 0;
    while i < recipe.len()
        invariant
            i <= recipe@.len(),
            n == cookies_for(recipe@.take(i as int), pantry@),
        decreases recipe.len() - i,
    {
        let ghost t = recipe@.take(i + 1);
        assert(t.drop_last() =~= recipe@.take(i as int));
        assert(t.last() == recipe@[i as int]);
        let (ref k, v) = recipe[i];
        let allowed = if v != 0 {
            amount_of(pantry, k) / v
        } else {
            usize::MAX
        };
        if allowed < n {
            n = allowed;
        }
        i = i + 1;
    }
    assert(recipe@.take(i as int) =~= recipe@);
    let mut left: Vec<(String, usize)> = Vec::new();
    let mut j: usize = 0;
    proof {
        lemma_cookies_bounded(recipe@, pantry@);
    }
    while j < pantry.len()
        invariant
            j <= pantry@.len(),
            n == cookies_for(recipe@, pantry@),
            distinct_names(pantry@),
            forall|x: int| 0 <= x < recipe@.len() ==> n <= allowed_by(#[trigger] recipe@[x], pantry@),
            left@.len() == j,
            forall|x: int| 0 <= x < j ==> #[trigger] left@[x] == pantry_after(recipe@, pantry@, n as nat)[x],
        decreases pantry.len() - j,
    {
        let (ref k, v) = pantry[j];
        let used = amount_of(recipe, k);
        proof {
            lemma_amount_distinct(pantry@, j as int);
            lemma_amount_bounded(recipe@, k@);
            if used > 0 {
                let x = choose|x: int| 0 <= x < recipe@.len() && (#[trigger] recipe@[x]).0@ == k@ && recipe@[x].1 == used;
                assert(n <= allowed_by(recipe@[x], pantry@));
                assert(n <= v / used);
                assert(used * n <= v) by (nonlinear_arith)
                    requires
                        n <= v / used,
                        used > 0,
                ;
            } else {
                assert(used * n == 0) by (nonlinear_arith)
                    requires
                        used == 0,
                ;
            }
        }
        left.push((k.clone(), v - used * n));
        j = j + 1;
    }
    assert(left@ =~= pantry_after(recipe@, pantry@, n as nat));
    proof {
        assert forall|j: int| 0 <= j < pantry@.len() implies (#[trigger] left@[j]).0@ == pantry@[j].0@
            && left@[j].1 + amount(recipe@, pantry@[j].0@) * n == pantry@[j].1 by {
            law_pantry_left(recipe@, pantry@, j);
        }
    }
    CookiesPantryData { cookies: n, pantry: left }
}

/// The amount of an ingredient is found by its name, wherever it stands in the list: where no
/// name is listed twice, the entry named `k` gives the amount of `k`.
pub proof fn law_amount_by_name(m: Seq<(String, usize)>, i: int)
    requires
        distinct_names(m),
        0 <= i < m.len(),
    ensures
        amount(m, m[i].0@) == m[i].1,
{
    lemma_amount_distinct(m, i);
}

/// What baking leaves of each ingredient: its amount in the pantry less the recipe's amount
/// of that same ingredient, looked up by name, times the cookies baked; the names and their
/// order stay as they were.
pub proof fn law_pantry_left(recipe: Seq<(String, usize)>, pantry: Seq<(String, usize)>, j: int)
    requires
        0 <= j < pantry.len(),
    ensures
        ({
            let n = cookies_for(recipe, pantry);
            let left = pantry_after(recipe, pantry, n);
            &&& left.len() == pantry.len()
            &&& left[j].0@ == pantry[j].0@
            &&& amount(recipe, pantry[j].0@) * n <= amount(pantry, pantry[j].0@)
            &&& (distinct_names(pantry) ==> left[j].1 + amount(recipe, pantry[j].0@) * n
                == pantry[j].1)
        }),
{
    let n = cookies_for(recipe, pantry);
    let k = pantry[j].0@;
    let used = amount(recipe, k);
    lemma_cookies_bounded(recipe, pantry);
    lemma_amount_bounded(recipe, k);
    if used > 0 {
        let x = choose|x: int| 0 <= x < recipe.len() && (#[trigger] recipe[x]).0@ == k && recipe[x].1 == used;
        law_enough_in_pantry(recipe, pantry, x);
    } else {
        assert(used * n == 0) by (nonlinear_arith)
            requires
                used == 0,
        ;
    }
    if distinct_names(pantry) {
        lemma_amount_distinct(pantry, j);
        lemma_amount_bounded(pantry, k);
    }
}

/// Every recipe entry is satisfied: the cookies baked take no more of any ingredient than
/// the pantry holds.
pub proof fn law_enough_in_pantry(recipe: Seq<(String, usize)>, pantry: Seq<(String, usize)>, i: int)
    requires
        0 <= i < recipe.len(),
    ensures
        recipe[i].1 * cookies_for(recipe, pantry) <= amount(pantry, recipe[i].0@),
{
    lemma_cookies_bounded(recipe, pantry);
    let n = cookies_for(recipe, pantry);
    let v = recipe[i].1 as nat;
    let p = amount(pantry, recipe[i].0@);
    assert(n <= allowed_by(recipe[i], pantry));
    if v != 0 {
        assert(v * n <= p) by (nonlinear_arith)
            requires
                n <= p / v,
                v > 0,
        ;
    } else {
        assert(v * n == 0) by (nonlinear_arith)
            requires
                v == 0,
        ;
    }
}

/// No more cookies could be baked: unless nothing bounds them, one more cookie would take
/// more of some ingredient than the pantry holds.
pub proof fn law_no_more_cookies(recipe: Seq<(String, usize)>, pantry: Seq<(String, usize)>)
    requires
        cookies_for(recipe, pantry) < usize::MAX,
    ensures
        exists|i: int|
            0 <= i < recipe.len() && #[trigger] recipe[i].1 * (cookies_for(recipe, pantry) + 1)
                > amount(pantry, recipe[i].0@),
{
    lemma_cookies_bounded(recipe, pantry);
    let n = cookies_for(recipe, pantry);
    let i = choose|i: int| 0 <= i < recipe.len() && n == allowed_by(#[trigger] recipe[i], pantry);
    let v = recipe[i].1 as nat;
    let p = amount(pantry, recipe[i].0@);
    assert(v != 0);
    assert(v * (n + 1) > p) by (nonlinear_arith)
        requires
            n == p / v,
            v > 0,
    ;
}

} // verus!
