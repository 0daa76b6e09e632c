//! Cubing the exclusive or of the numbers in a request path.
use vstd::prelude::*;
use crate::numbers::{fmt_i128, parse_i128, parse_signed, signed_decimal, IntErrorKind};

verus! {

/// The exclusive or of the numbers in the path segments.
#[derive(Debug)]
pub struct BitXORFromSeg(pub i128);

/// The exclusive or of all the values, from the first to the last.
pub open spec fn xor_all_i128(vs: Seq<i128>) -> i128
    decreases vs.len(),
{
    if vs.len() == 0 {
        0
    } else {
        xor_all_i128(vs.drop_last()) ^ vs.last()
    }
}

/// The segments read as `i128` numbers, one by one: the first error stops the reading.
pub open spec fn parse_segments(segs: Seq<Seq<char>>) -> Result<Seq<i128>, IntErrorKind>
    decreases segs.len(),
{
    if segs.len() == 0 {
        Ok(seq![])
    } else {
        match parse_signed(segs.last(), i128::MIN as int, i128::MAX as int) {
            Err(e) => match parse_segments(segs.drop_last()) {
                Err(e0) => Err(e0),
                Ok(_) => Err(e),
            },
            Ok(v) => match parse_segments(segs.drop_last()) {
                Err(e0) => Err(e0),
                Ok(vs) => Ok(vs.push(v as i128)),
            },
        }
    }
}

impl BitXORFromSeg {
    /// Reads every segment as an `i128` and takes their exclusive or; the first segment that
    /// cannot be read gives the error.
    pub fn from_segments(segments: &Vec<String>) -> (r: Result<BitXORFromSeg, IntErrorKind>)
        ensures
            match parse_segments(segments@.map_values(|s: String| s@)) {
                Ok(vs) => r matches Ok(b) && b.0 == xor_all_i128(vs),
                Err(e) => r matches Err(e2) && e2 == e,
            },
    {
        let ghost segs = segments@.map_values(|s: String| s@);
        let mut val: i128 = 0;
        let mut i: usize = 0;
        let ghost mut vals: Seq<i128> = seq![];
        while i < segments.len()
            invariant
                segs == segments@.map_values(|s: String| s@),
                i <= segments.len(),
                parse_segments(segs.take(i as int)) == Ok::<Seq<i128>, IntErrorKind>(vals),
                val == xor_all_i128(vals),
            decreases segments.len() - i,
        {
            let ghost pre = segs.take(i as int);
            let ghost next = segs.take(i + 1);
            assert(next.drop_last() =~= pre);
            assert(next.last() == segments@[i as int]@);
            match parse_i128(segments[i].as_str()) {
                Ok(v) => {
                    proof {
                        assert(vals.push(v).drop_last() =~= vals);
                        vals = vals.push(v);
                    }
                    val = val ^ v;
                },
                Err(e) => {
                    proof {
                        lemma_segments_stop(segs, (i + 1) as int);
                    }
                    return Err(e);
                },
            }
            i = i + 1;
        }
        assert(segs.take(i as int) =~= segs);
        Ok(BitXORFromSeg(val))
    }
}

/// Once a prefix of the segments fails to read, every longer prefix fails with the same error.
proof fn lemma_segments_stop(segs: Seq<Seq<char>>, n: int)
    requires
        1 <= n <= segs.len(),
        parse_segments(segs.take(n)) is Err,
    ensures
        parse_segments(segs) == parse_segments(segs.take(n)),
    decreases segs.len() - n,
{
    if n < segs.len() {
        let t = segs.take(n + 1);
        assert(t.drop_last() =~= segs.take(n));
        lemma_segments_stop(segs, n + 1);
    } else {
        assert(segs.take(n) =~= segs);
    }
}

/// The cube of the value, in decimal.
pub fn bit_sled_cube(res: BitXORFromSeg) -> (s: String)
    requires
        i128::MIN <= res.0 * res.0 * res.0 <= i128::MAX,
    ensures
        s@ == signed_decimal(res.0 * res.0 * res.0),
{
    let v = res.0;
    proof {
        lemma_square_fits(v as int);
    }
    let sq = v * v;
    let cube = sq * v;
    fmt_i128(cube)
}

/// Where the cube of `v` fits in an `i128`, so does its square.
proof fn lemma_square_fits(v: int)
    requires
        i128::MIN <= v * v * v <= i128::MAX,
    ensures
        i128::MIN <= v * v <= i128::MAX,
{
    assert(v * v >= 0) by (nonlinear_arith);
    if -1 <= v <= 1 {
        assert(v * v <= 1) by (nonlinear_arith)
            requires
                -1 <= v <= 1,
        ;
    } else {
        assert(v * v * 2 <= v * v * v || v * v * 2 <= -(v * v * v)) by (nonlinear_arith)
            requires
                v >= 2 || v <= -2,
        ;
    }
}

} // verus!
