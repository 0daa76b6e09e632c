use cch23::day_four::{contest, strength, strength_checked, ContestData, StrengthData};
use cch23::day_5::{slicing, splitting};
use cch23::day_one::{bit_sled_cube, BitXORFromSeg};
use cch23::day_six::{endpoint, endpoint_checked};
use cch23::numbers::IntErrorKind;

fn segs(v: &[&str]) -> Vec<String> {
    v.iter().map(|s| s.to_string()).collect()
}

#[test]
fn sled_cube_of_xor() {
    let b = BitXORFromSeg::from_segments(&segs(&["4", "8"])).unwrap();
    assert_eq!(b.0, 12);
    assert_eq!(bit_sled_cube(b), "1728");
    let b = BitXORFromSeg::from_segments(&segs(&["10"])).unwrap();
    assert_eq!(bit_sled_cube(b), "1000");
    let b = BitXORFromSeg::from_segments(&segs(&["4", "5", "8", "10"])).unwrap();
    assert_eq!(bit_sled_cube(b), "27");
    let b = BitXORFromSeg::from_segments(&segs(&["-3"])).unwrap();
    assert_eq!(bit_sled_cube(b), "-27");
    let b = BitXORFromSeg::from_segments(&segs(&[])).unwrap();
    assert_eq!(bit_sled_cube(b), "0");
}

#[test]
fn sled_cube_bad_segment() {
    assert_eq!(
        BitXORFromSeg::from_segments(&segs(&["4", "x", ""])).err(),
        Some(IntErrorKind::InvalidDigit)
    );
    assert_eq!(BitXORFromSeg::from_segments(&segs(&["", "x"])).err(), Some(IntErrorKind::Empty));
}

fn sd(name: &str, strength: usize) -> StrengthData {
    StrengthData { name: name.to_string(), strength }
}

#[test]
fn reindeer_strength() {
    let data = vec![sd("Dasher", 5), sd("Dancer", 6), sd("Prancer", 4), sd("Vixen", 7)];
    assert_eq!(strength(&data), 22);
    assert_eq!(strength_checked(&data), Some(22));
    assert_eq!(strength(&vec![]), 0);
}

#[test]
fn reindeer_strength_overflow() {
    assert_eq!(strength_checked(&vec![sd("a", usize::MAX), sd("b", 1)]), None);
    assert_eq!(strength_checked(&vec![sd("a", usize::MAX), sd("b", 0)]), Some(usize::MAX));
}

fn cd(name: &str, strength: usize, speed: i32, height: usize, antler: usize, magic: usize, food: &str, candies: usize) -> ContestData {
    ContestData {
        name: name.to_string(),
        strength,
        speed,
        height,
        antler_width: antler,
        snow_magic_power: magic,
        favorite_food: food.to_string(),
        candies_eaten_yesterday: candies,
    }
}

#[test]
fn reindeer_contest() {
    let data = vec![
        cd("Dasher", 5, 504, 80, 36, 9001, "hay", 2),
        cd("Dancer", 6, 482, 65, 37, 4004, "grass", 5),
    ];
    let out = contest(&data);
    assert_eq!(out.fastest, "Speeding past the finish line with a strength of 5 is Dasher");
    assert_eq!(out.tallest, "Dasher is standing tall with his 36 cm wide antlers");
    assert_eq!(out.magician, "Dasher could blast you away with a snow magic power of 9001");
    assert_eq!(out.consumer, "Dancer ate lots of candies, but also some grass");
}

#[test]
fn reindeer_contest_ties_pick_the_last() {
    let data = vec![cd("First", 1, 7, 10, 1, 3, "hay", 4), cd("Second", 2, 7, 10, 2, 3, "oats", 4)];
    let out = contest(&data);
    assert_eq!(out.fastest, "Speeding past the finish line with a strength of 2 is Second");
    assert_eq!(out.tallest, "Second is standing tall with his 2 cm wide antlers");
    assert_eq!(out.magician, "Second could blast you away with a snow magic power of 3");
    assert_eq!(out.consumer, "Second ate lots of candies, but also some oats");
}

#[test]
fn paging() {
    let data = vec!["a", "b", "c", "d", "e"];
    assert_eq!(slicing(Some(1), Some(2), data.clone()), vec!["b", "c"]);
    assert_eq!(slicing(None, None, data.clone()), data);
    assert_eq!(slicing(Some(3), None, data.clone()), vec!["d", "e"]);
    assert_eq!(slicing(Some(9), Some(2), data.clone()), Vec::<&str>::new());
    assert_eq!(slicing(None, Some(0), data.clone()), Vec::<&str>::new());
}

#[test]
fn paging_in_chunks() {
    let data = vec!["a", "b", "c", "d", "e"];
    assert_eq!(splitting(None, None, 2, data.clone()), vec![vec!["a", "b"], vec!["c", "d"], vec!["e"]]);
    assert_eq!(splitting(Some(1), Some(3), 5, data.clone()), vec![vec!["b", "c", "d"]]);
    assert_eq!(splitting(Some(5), None, 2, data.clone()), Vec::<Vec<&str>>::new());
}

#[test]
fn chunks_rejoin_to_the_page() {
    let data = vec!["Ava", "Caleb", "Mia", "Owen", "Lily", "Ethan", "Zoe"];
    let page = slicing(Some(2), Some(4), data.clone());
    let chunks = splitting(Some(2), Some(4), 3, data);
    let joined: Vec<&str> = chunks.concat();
    assert_eq!(joined, page);
    assert!(chunks.iter().all(|c| c.len() <= 3 && !c.is_empty()));
}

#[test]
fn elves_counted() {
    let text = "The mischievous elf peeked out from behind the toy workshop,\n      and another elf joined in the festive dance.\n      Look, there is also an elf on that shelf!";
    let r = endpoint(text);
    assert_eq!(r.elf, 4);
    let text = "there is an elf on a shelf on an elf.\n      there is also another shelf in Belfast.";
    let r = endpoint(text);
    assert_eq!(r.elf, 5);
    assert_eq!(r.elf_on_a_shelf, 1);
    assert_eq!(r.lonely_shelves, 1);
}

#[test]
fn no_elves() {
    let r = endpoint("");
    assert_eq!((r.elf, r.elf_on_a_shelf, r.lonely_shelves), (0, 0, 0));
    let r = endpoint("elelfelf");
    assert_eq!(r.elf, 2);
}

#[test]
fn elf_on_a_shelf_with_trailing_space_has_no_answer() {
    assert!(endpoint_checked("elf on a sh elf").is_none());
    let r = endpoint_checked("elf on a shelf").unwrap();
    assert_eq!((r.elf, r.elf_on_a_shelf, r.lonely_shelves), (2, 1, 0));
}
