use cch23::day_12::{tally_ulids, ulids, ulids_weekday, TimedStrings};
use cch23::day_eleven::{bull_mode, count_red_pixels};
use cch23::day_seven::{b64_decode, bake_cookies, recipe_from_bytes, RecipePantryData};
use cch23::Status;

#[test]
fn recipe_cookie_decoded() {
    let r = b64_decode(Some("eyJmbG91ciI6MTAwLCJjaG9jb2xhdGUgY2hpcHMiOjIwfQ=="));
    assert_eq!(r.unwrap(), "{\"flour\":100,\"chocolate chips\":20}");
}

#[test]
fn recipe_cookie_errors() {
    assert_eq!(b64_decode(None).err(), Some(Status { code: 400 }));
    assert_eq!(b64_decode(Some("!!!!")).err(), Some(Status { code: 422 }));
    // one byte 0xFF: Base64, but no UTF-8
    assert_eq!(b64_decode(Some("/w==")).err(), Some(Status { code: 422 }));
}

#[test]
fn recipe_from_decoded_bytes() {
    assert_eq!(recipe_from_bytes(Some(b"abc".to_vec())).unwrap(), "abc");
    assert_eq!(recipe_from_bytes(Some(vec![0xff])).err(), Some(Status { code: 422 }));
    assert_eq!(recipe_from_bytes(None).err(), Some(Status { code: 422 }));
}

fn amounts(v: &[(&str, usize)]) -> Vec<(String, usize)> {
    v.iter().map(|(k, n)| (k.to_string(), *n)).collect()
}

#[test]
fn baking_as_many_as_possible() {
    let d = RecipePantryData {
        recipe: amounts(&[("flour", 95), ("sugar", 50), ("butter", 30), ("baking powder", 10), ("chocolate chips", 50)]),
        pantry: amounts(&[("flour", 385), ("sugar", 507), ("butter", 2122), ("baking powder", 865), ("chocolate chips", 457)]),
    };
    let r = bake_cookies(&d);
    assert_eq!(r.cookies, 4);
    assert_eq!(
        r.pantry,
        amounts(&[("flour", 5), ("sugar", 307), ("butter", 2002), ("baking powder", 825), ("chocolate chips", 257)])
    );
    // every ingredient suffices for the cookies baked, and one more would not
    for (k, per) in &d.recipe {
        let have = d.pantry.iter().find(|(p, _)| p == k).map(|(_, n)| *n).unwrap_or(0);
        assert!(per * r.cookies <= have);
    }
    assert!(d.recipe.iter().any(|(k, per)| {
        let have = d.pantry.iter().find(|(p, _)| p == k).map(|(_, n)| *n).unwrap_or(0);
        per * (r.cookies + 1) > have
    }));
}

#[test]
fn baking_with_unknown_and_free_ingredients() {
    let d = RecipePantryData {
        recipe: amounts(&[("cocoa bean", 1), ("chicken", 0)]),
        pantry: amounts(&[("cocoa bean", 5), ("corn", 5)]),
    };
    let r = bake_cookies(&d);
    assert_eq!(r.cookies, 5);
    assert_eq!(r.pantry, amounts(&[("cocoa bean", 0), ("corn", 5)]));
    let d = RecipePantryData { recipe: amounts(&[("flour", 1)]), pantry: amounts(&[("sugar", 9)]) };
    assert_eq!(bake_cookies(&d).cookies, 0);
    let d = RecipePantryData { recipe: amounts(&[("air", 0)]), pantry: amounts(&[("sugar", 9)]) };
    let r = bake_cookies(&d);
    assert_eq!(r.cookies, usize::MAX);
    assert_eq!(r.pantry, amounts(&[("sugar", 9)]));
}

fn png(width: u32, height: u32, rgb: Vec<u8>) -> Vec<u8> {
    let img = image::RgbImage::from_raw(width, height, rgb).unwrap();
    let mut out = std::io::Cursor::new(Vec::new());
    img.write_to(&mut out, image::ImageOutputFormat::Png).unwrap();
    out.into_inner()
}

#[test]
fn red_pixels_of_an_image() {
    let data = png(3, 1, vec![255, 0, 0, 0, 255, 0, 200, 100, 99]);
    assert_eq!(bull_mode(data), Ok(2));
    let data = png(1, 1, vec![100, 50, 50]);
    assert_eq!(bull_mode(data), Ok(0));
}

#[test]
fn red_pixels_of_no_image() {
    assert_eq!(bull_mode(vec![1, 2, 3]), Err(Status { code: 422 }));
    assert_eq!(bull_mode(vec![]), Err(Status { code: 422 }));
}

#[test]
fn red_pixels_counted_from_samples() {
    assert_eq!(count_red_pixels(&vec![10, 2, 3, 5, 3, 2, 1]), 1);
    assert_eq!(count_red_pixels(&vec![u16::MAX, u16::MAX, 1]), 0);
    assert_eq!(count_red_pixels(&vec![]), 0);
}

const SEC: u128 = 1_000_000_000;

#[test]
fn timed_strings() {
    let mut t = TimedStrings::new();
    assert_eq!(t.load("packet", 0), Err(Status { code: 404 }));
    t.save("packet", 10 * SEC);
    assert_eq!(t.load("packet", 12 * SEC + SEC / 2), Ok(2));
    assert_eq!(t.load("packet", 10 * SEC), Ok(0));
    assert_eq!(t.load("packet", 9 * SEC), Err(Status { code: 500 }));
    t.save("other", 20 * SEC);
    assert_eq!(t.load("packet", 30 * SEC), Ok(20));
    t.save("packet", 25 * SEC);
    assert_eq!(t.load("packet", 30 * SEC), Ok(5));
    assert_eq!(t.load("other", 30 * SEC), Ok(10));
}

const A: &str = "01BX5ZZKBKACTAV9WEVGEMMVRZ";
const B: &str = "01HJDV4GG00000000000000001";
const C: &str = "01QFJ6BY000000000000000002";

#[test]
fn ulids_as_uuids_reversed() {
    let data = vec![A.to_string(), B.to_string(), C.to_string()];
    assert_eq!(
        ulids(&data).unwrap(),
        vec![
            "01bbe465-f800-0000-0000-000000000002",
            "018c9bb2-4200-0000-0000-000000000001",
            "015f4bff-cd73-5334-ada7-8edc1d4a6f1f",
        ]
    );
    let edge = vec!["00000000000000000000000000".to_string(), "7zzzzzzzzzzzzzzzzzzzzzzzzz".to_string()];
    assert_eq!(
        ulids(&edge).unwrap(),
        vec!["ffffffff-ffff-ffff-ffff-ffffffffffff", "00000000-0000-0000-0000-000000000000"]
    );
    assert!(ulids(&vec![]).unwrap().is_empty());
}

#[test]
fn ulids_that_are_not() {
    assert_eq!(ulids(&vec![A.to_string(), "0000000000000000000000000I".to_string()]), Err(Status { code: 400 }));
    assert_eq!(ulids(&vec!["0000".to_string()]), Err(Status { code: 400 }));
    assert!(ulids_weekday(0, &vec!["nope".to_string()], 0).is_err());
}

#[test]
fn ulids_counted() {
    let data = vec![A.to_string(), B.to_string(), C.to_string()];
    let now = 1_704_067_200 * SEC; // 2024-01-01T00:00:00Z
    let d = ulids_weekday(6, &data, now).unwrap();
    assert_eq!((d.christmas_eve, d.weekday, d.future, d.lsb1), (1, 1, 1, 2));
    let d = ulids_weekday(1, &data, 0).unwrap();
    assert_eq!((d.christmas_eve, d.weekday, d.future, d.lsb1), (1, 1, 3, 2));
}

#[test]
fn ulids_tallied_from_dates() {
    let d = tally_ulids(&vec![0, 1], &vec![Some((12, 24)), None], 3, 0);
    assert_eq!((d.christmas_eve, d.weekday, d.future, d.lsb1), (1, 2, 0, 1));
    let d = tally_ulids(&vec![0], &vec![Some((12, 25))], 4, 0);
    assert_eq!((d.christmas_eve, d.weekday, d.future, d.lsb1), (0, 0, 0, 0));
}
