//! Counting the red pixels of an uploaded image.
use vstd::prelude::*;
use crate::Status;

verus! {

/// The samples of the image the bytes encode, converted to 16-bit RGB (three samples per
/// pixel, row by row), as `image` decodes it after guessing its format; `None` where the
/// format is not recognised or the decoding fails.
pub uninterp spec fn image_rgb16(bytes: Seq<u8>) -> Option<Seq<u16>>;

/// `image::io::Reader::new` over the bytes, `with_guessed_format`, `decode`, then
/// `into_rgb16` and `into_raw`: the samples `image_rgb16` names.
#[verifier::external_body]
fn decode_rgb16(bytes: Vec<u8>) -> (r: Option<Vec<u16>>)
    ensures
        match image_rgb16(bytes@) {
            Some(px) => r matches Some(v) && v@ == px,
            None => r is None,
        },
{
    let reader = match image::io::Reader::new(std::io::Cursor::new(bytes)).with_guessed_format() {
        Ok(reader) => reader,
        Err(_) => return None,
    };
    match reader.decode() {
        Ok(img) => Some(img.into_rgb16().into_raw()),
        Err(_) => None,
    }
}

/// Pixel `k` is red: its red sample exceeds its green and blue samples together.
pub open spec fn is_red(px: Seq<u16>, k: int) -> bool {
    px[3 * k] > px[3 * k + 1] + px[3 * k + 2]
}

/// How many of the first `k` pixels are red.
pub open spec fn red_pixels(px: Seq<u16>, k: int) -> nat
    decreases k,
{
    if k <= 0 {
        0
    } else {
        red_pixels(px, k - 1) + if is_red(px, k - 1) {
            1nat
        } else {
            0nat
        }
    }
}

/// How many whole pixels (runs of three samples) are red; samples left over are ignored.
pub fn count_red_pixels(px: &Vec<u16>) -> (n: usize)
    ensures
        n == red_pixels(px@, (px@.len() / 3) as int),
{
    let pixels = px.len() / 3;
    let mut n: usize = 0;
    let mut k: usize = 0;
    while k < pixels
        invariant
            pixels == px@.len() / 3,
            k <= pixels,
            n == red_pixels(px@, k as int),
            n <= k,
        decreases pixels - k,
    {
        let len = px.len();
        assert(3 * k + 2 < len) by (nonlinear_arith)
            requires
                k < pixels,
                pixels == len / 3,
        ;
        let r = px[3 * k] as u32;
        let g = px[3 * k + 1] as u32;
        let b = px[3 * k + 2] as u32;
        if r > g + b {
            n = n + 1;
        }
        k = k + 1;
    }
    n
}

/// How many pixels of the uploaded image are red; `422` when it is no image.
pub fn bull_mode(data: Vec<u8>) -> (r: Result<usize, Status>)
    ensures
        match image_rgb16(data@) {
            Some(px) => r == Ok::<usize, Status>(red_pixels(px, (px.len() / 3) as int) as usize),
            None => r == Err::<usize, Status>(Status { code: 422 }),
        },
{
    match decode_rgb16(data) {
        Some(px) => Ok(count_red_pixels(&px)),
        None => Err(Status { code: 422 }),
    }
}

} // verus!
