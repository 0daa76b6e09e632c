use cch23::day_21::from_param;
use cch23::day_22::{flight, integers, parse_universe, presents_text, xor_lines, Portal, Portals, Universe};
use cch23::day_twenty::{
    archive_files, archive_files_size, checked_total, cookie_step, count_listing, no_cookie, parse_commit_log,
    size_listing,
};

fn archive(files: &[(&str, &[u8])]) -> Vec<u8> {
    let mut b = tar::Builder::new(Vec::new());
    for (name, body) in files {
        let mut h = tar::Header::new_gnu();
        h.set_size(body.len() as u64);
        h.set_mode(0o644);
        h.set_cksum();
        b.append_data(&mut h, name, *body).unwrap();
    }
    b.into_inner().unwrap()
}

#[test]
fn archive_counted_and_sized() {
    let data = archive(&[("a.txt", b"hello"), ("b/c.txt", b"seven!!"), ("empty", b"")]);
    assert_eq!(archive_files(data.clone()), Ok(3));
    assert_eq!(archive_files_size(data), Some(Ok(12)));
    assert_eq!(archive_files(Vec::new()), Ok(0));
    assert_eq!(archive_files_size(Vec::new()), Some(Ok(0)));
}

#[test]
fn archive_that_is_no_archive() {
    let garbage = vec![b'x'; 1024];
    // the failed read is an item of the listing, and it ends it
    assert_eq!(archive_files(garbage.clone()), Ok(1));
    match archive_files_size(garbage) {
        Some(Err((s, m))) => {
            assert_eq!(s.code, 500);
            assert!(!m.is_empty());
        }
        other => panic!("unexpected {:?}", other.map(|r| r.map_err(|e| e.1))),
    }
}

#[test]
fn listings_counted_and_summed() {
    assert_eq!(count_listing(Ok((vec![1, 2], None))), Ok(2));
    assert_eq!(count_listing(Ok((vec![1, 2], Some("bad".to_string())))), Ok(3));
    let e = count_listing(Err("no".to_string())).err().unwrap();
    assert_eq!((e.0.code, e.1.as_str()), (500, "no"));
    assert_eq!(size_listing(Ok((vec![5, 7], None))), Some(Ok(12)));
    let e = size_listing(Ok((vec![5, 7], Some("bad".to_string())))).unwrap().err().unwrap();
    assert_eq!((e.0.code, e.1.as_str()), (500, "bad"));
    assert_eq!(size_listing(Ok((vec![u64::MAX, 1], Some("bad".to_string())))), None);
    assert_eq!(checked_total(&vec![u64::MAX - 1, 1]), Some(u64::MAX));
    assert_eq!(checked_total(&vec![u64::MAX, 1]), None);
}

#[test]
fn commit_log_read() {
    let log = parse_commit_log("Christmas Cookie,cd23\nElf,ab12\n").unwrap();
    assert_eq!(
        log,
        vec![
            ("Christmas Cookie".to_string(), "cd23".to_string()),
            ("Elf".to_string(), "ab12".to_string())
        ]
    );
    assert_eq!(parse_commit_log("a,b,c").unwrap(), vec![("a".to_string(), "b,c".to_string())]);
    assert!(parse_commit_log("no comma here").is_none());
    assert!(parse_commit_log("").unwrap().is_empty());
}

#[test]
fn cookie_search_steps() {
    assert_eq!(
        cookie_step("Grinch", "71dfab551a1958b35b7436c54b7455dcec99a12c", Some("a COOKIE!")),
        Some("Grinch 71dfab551a1958b35b7436c54b7455dcec99a12c".to_string())
    );
    assert_eq!(cookie_step("a", "b", Some("just a cookie")), None);
    assert_eq!(cookie_step("a", "b", Some("COOKI")), None);
    assert_eq!(cookie_step("a", "b", None), None);
    let (s, m) = no_cookie();
    assert_eq!((s.code, m.as_str()), (400, "Could not find santa's cookie."));
}

#[test]
fn binary_parameter() {
    let b = from_param("0100111110010011000110011001010101011111000010100011110001011011").unwrap();
    assert_eq!(*b.deref(), 5733954879908101211u64);
    assert_eq!(from_param(&"1".repeat(64)).unwrap().0, u64::MAX);
    let msg = "Parameter must be a binary representation of a(n) u64 (8 bits).";
    assert_eq!(from_param("0101").err().unwrap(), msg);
    assert_eq!(from_param(&format!("{}2", "0".repeat(63))).err().unwrap(), msg);
    assert_eq!(from_param(&"0".repeat(65)).err().unwrap(), msg);
}

#[test]
fn binary_parameter_round_trip() {
    for n in [0u64, 1, 2, 12345, 5733954879908101211, u64::MAX - 1, u64::MAX] {
        assert_eq!(from_param(&format!("{:064b}", n)).unwrap().0, n);
    }
}

#[test]
fn presents_for_the_unpaired_number() {
    let gifts = integers("888\n77\n888\n22\n77\n").unwrap();
    assert_eq!(gifts, "\u{1F381}".repeat(22));
    assert_eq!(xor_lines("5\n9\n5\n"), Ok(9));
    assert_eq!(xor_lines("3\n4\n"), Ok(7));
    assert_eq!(xor_lines(""), Ok(0));
    assert_eq!(presents_text(3), "\u{1F381}\u{1F381}\u{1F381}");
    assert_eq!(presents_text(0), "");
}

#[test]
fn presents_refused() {
    assert_eq!(integers("1\nx\n2").err().unwrap(), "invalid digit found in string");
    assert_eq!(integers("1\n\n2").err().unwrap(), "cannot parse integer from empty string");
    assert_eq!(xor_lines("-1").err().unwrap(), "invalid digit found in string");
}

const UNIVERSE: &str = "5\n0 1 0\n-2 2 3\n3 -3 -5\n1 1 5\n4 3 5\n4\n0 1\n2 4\n3 4\n1 2\n";

#[test]
fn universe_read() {
    let (u, coords) = parse_universe(UNIVERSE).unwrap();
    assert_eq!(u.n_stars, 5);
    assert_eq!(u.portals, vec![Portal(0, 1), Portal(2, 4), Portal(3, 4), Portal(1, 2)]);
    assert_eq!(coords.len(), 5);
    assert_eq!(coords[1], vec!["-2", "2", "3"]);
    assert!(parse_universe("").is_none());
    assert!(parse_universe("x\n").is_none());
    assert!(parse_universe("1\n0 0\n\n").is_none());
    assert!(parse_universe("1\n0 0 0\n\n0 x\n").is_none());
}

#[test]
fn shortest_flight() {
    let (u, _) = parse_universe(UNIVERSE).unwrap();
    assert_eq!(flight(&u), Some(vec![Portal(0, 1), Portal(1, 2), Portal(2, 4)]));
    let lone = Universe { n_stars: 1, portals: vec![] };
    assert_eq!(flight(&lone), Some(vec![]));
    let cut = Universe { n_stars: 3, portals: vec![Portal(0, 1)] };
    assert_eq!(flight(&cut), None);
    let reverse = Universe { n_stars: 3, portals: vec![Portal(2, 1), Portal(1, 0), Portal(0, 2)] };
    assert_eq!(flight(&reverse), Some(vec![Portal(0, 2)]));
}

#[test]
fn portals_go_both_ways() {
    let g = Portals::from(&vec![Portal(0, 1), Portal(2, 4), Portal(0, 4)]);
    let n0 = g.get(0).unwrap();
    assert!(n0.contains(&1) && n0.contains(&4) && n0.len() == 2);
    assert!(g.get(1).unwrap().contains(&0));
    assert!(g.get(4).unwrap().contains(&2) && g.get(4).unwrap().contains(&0));
    assert!(g.get(3).is_none());
}
