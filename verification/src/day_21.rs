//! Cell ids written in binary, as the coordinate endpoints take them.
use vstd::prelude::*;
use vstd::arithmetic::power2::pow2;
use crate::text::chars_of;

verus! {

/// A value given in binary.
pub struct BinaryRep<T>(pub T);

impl<T> BinaryRep<T> {
    /// The value itself.
    pub fn deref(&self) -> (r: &T)
        ensures
            *r == self.0,
    {
        &self.0
    }
}

/// Every character is `'0'` or `'1'`.
pub open spec fn all_bits(s: Seq<char>) -> bool {
    forall|i: int| 0 <= i < s.len() ==> #[trigger] s[i] == '0' || s[i] == '1'
}

/// The binary digits read as a number, most significant first.
pub open spec fn binary_value(s: Seq<char>) -> nat
    decreases s.len(),
{
    if s.len() == 0 {
        0
    } else {
        binary_value(s.drop_last()) * 2 + if s.last() == '1' {
            1nat
        } else {
            0nat
        }
    }
}

proof fn lemma_binary_value_bound(s: Seq<char>)
    ensures
        binary_value(s) < pow2(s.len()),
    decreases s.len(),
{
    if s.len() > 0 {
        lemma_binary_value_bound(s.drop_last());
        lemma_pow2_step((s.len() - 1) as nat);
    } else {
        vstd::arithmetic::power::lemma_pow0(2);
    }
}

/// The text the parameter is refused with.
pub open spec fn binary_param_error() -> Seq<char> {
    "Parameter must be a binary representation of a(n) u64 (8 bits)."@
}

/// Reads a path parameter as 64 binary digits: the value they write, or the refusal when the
/// parameter is anything else.
pub fn from_param(param: &str) -> (r: Result<BinaryRep<u64>, String>)
    ensures
        param@.len() == 64 && all_bits(param@) ==> (r matches Ok(b) && b.0 == binary_value(
            param@,
        )),
        !(param@.len() == 64 && all_bits(param@)) ==> (r matches Err(m) && m@
            == binary_param_error()),
{
    let cs = chars_of(param);
    let mut ok = cs.len() == 64;
    let mut i: usize = 0;
    while i < cs.len()
        invariant
            cs@ == param@,
            i <= cs@.len(),
            ok == (cs@.len() == 64 && forall|j: int| 0 <= j < i ==> #[trigger] cs@[j] == '0'
                || cs@[j] == '1'),
        decreases cs.len() - i,
    {
        if cs[i] != '0' && cs[i] != '1' {
            ok = false;
        }
        i = i + 1;
    }
    if !ok {
        return Err(String::from_str("Parameter must be a binary representation of a(n) u64 (8 bits)."));
    }
    let mut acc: u128 = 0;
    let mut k: usize = 0;
    proof {
        vstd::arithmetic::power2::lemma2_to64_rest();
    }
    while k < 64
        invariant
            cs@ == param@,
            cs@.len() == 64,
            k <= 64,
            acc == binary_value(cs@.take(k as int)),
            pow2(64) == 0x1_0000_0000_0000_0000,
        decreases 64 - k,
    {
        proof {
            lemma_binary_value_bound(cs@.take(k as int));
            lemma_pow2_mono(k as nat, 64);
            let t = cs@.take(k + 1);
            assert(t.drop_last() =~= cs@.take(k as int));
            assert(t.last() == cs@[k as int]);
        }
        let bit: u128 = if cs[k] == '1' {
            1
        } else {
            0
        };
        acc = acc * 2 + bit;
        k = k + 1;
    }
    proof {
        assert(cs@.take(64) =~= param@);
        lemma_binary_value_bound(param@);
    }
    Ok(BinaryRep(acc as u64))
}

/// `n` written with `k` binary digits, most significant first (the digits above the `k`th
/// are dropped).
pub open spec fn binary_digits(n: nat, k: nat) -> Seq<char>
    decreases k,
{
    if k == 0 {
        seq![]
    } else {
        binary_digits(n / 2, (k - 1) as nat).push(if n % 2 == 1 { '1' } else { '0' })
    }
}

proof fn lemma_binary_digits(n: nat, k: nat)
    requires
        n < pow2(k),
    ensures
        binary_digits(n, k).len() == k,
        all_bits(binary_digits(n, k)),
        binary_value(binary_digits(n, k)) == n,
    decreases k,
{
    if k == 0 {
        vstd::arithmetic::power2::lemma2_to64();
    } else {
        let m = n / 2;
        let p = pow2((k - 1) as nat);
        lemma_pow2_step((k - 1) as nat);
        assert(m < p) by (nonlinear_arith)
            requires
                n < 2 * p,
                m == n / 2,
        ;
        lemma_binary_digits(m, (k - 1) as nat);
        let d = binary_digits(m, (k - 1) as nat);
        let b = if n % 2 == 1 { '1' } else { '0' };
        let e = d.push(b);
        assert(e.drop_last() =~= d);
        assert(e.last() == b);
        assert(m * 2 + n % 2 == n) by (nonlinear_arith)
            requires
                m == n / 2,
        ;
        assert forall|i: int| 0 <= i < e.len() implies #[trigger] e[i] == '0' || e[i] == '1' by {
            if i < d.len() {
                assert(e[i] == d[i]);
            }
        }
    }
}

/// Any `u64` written with 64 binary digits is a parameter `from_param` accepts, and it reads
/// back the same value.
pub proof fn law_binary_round_trip(n: u64)
    ensures
        binary_digits(n as nat, 64).len() == 64,
        all_bits(binary_digits(n as nat, 64)),
        binary_value(binary_digits(n as nat, 64)) == n,
{
    vstd::arithmetic::power2::lemma2_to64_rest();
    lemma_binary_digits(n as nat, 64);
}

proof fn lemma_pow2_mono(a: nat, b: nat)
    requires
        a <= b,
    ensures
        pow2(a) <= pow2(b),
    decreases b - a,
{
    if a < b {
        lemma_pow2_mono(a, (b - 1) as nat);
        lemma_pow2_step((b - 1) as nat);
    }
}

proof fn lemma_pow2_step(e: nat)
    ensures
        pow2(e + 1) == 2 * pow2(e),
{
    vstd::arithmetic::power::lemma_pow_positive(2, e);
    vstd::arithmetic::power::lemma_pow_positive(2, e + 1);
    reveal(vstd::arithmetic::power::pow);
    assert(vstd::arithmetic::power::pow(2, e + 1) == 2 * vstd::arithmetic::power::pow(2, e));
}

} // verus!
