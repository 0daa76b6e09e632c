use cch23::day_14::{safe_html, unsafe_html};
use cch23::day_fifteen::{add_runs, game, game_verdict, nice, nice_verdict, GameFacts, ReasonableNiceOutput};
use cch23::day_nineteen::{ping_pong_step, room_step, sign_tweet, PingReply, RoomAction, RoomEvent, SignedTweet, SocketMessage};
use cch23::day_thirteen::{orders_popular, orders_popular_checked, Order};
use cch23::Status;

fn order(id: i32, gift: &str, quantity: i32) -> Order {
    Order { id, region_id: 1, gift_name: gift.to_string(), quantity }
}

#[test]
fn most_popular_gift() {
    let orders = vec![order(1, "Toy Train", 5), order(2, "Toy Train", 3), order(3, "Doll", 10)];
    // the first order of a gift enters it at zero: Toy Train 3, Doll 0
    assert_eq!(orders_popular(&orders), Some("Toy Train".to_string()));
    let orders = vec![order(1, "Doll", 1), order(2, "Ball", 1), order(3, "Ball", 4), order(4, "Doll", 2)];
    assert_eq!(orders_popular(&orders), Some("Ball".to_string()));
    assert_eq!(orders_popular(&vec![]), None);
    assert_eq!(orders_popular(&vec![order(1, "Kite", 7)]), Some("Kite".to_string()));
}

#[test]
fn popular_gift_tally_overflow() {
    let orders = vec![order(1, "A", 1), order(2, "A", i32::MAX), order(3, "A", 1)];
    assert_eq!(orders_popular_checked(&orders), None);
    let orders = vec![order(1, "A", 1), order(2, "A", i32::MAX)];
    assert_eq!(orders_popular_checked(&orders), Some(Some("A".to_string())));
    assert_eq!(orders_popular_checked(&vec![]), Some(None));
}

const HEAD: &str = "<html>\n  <head>\n    <title>CCH23 Day 14</title>\n  </head>\n  <body>\n    ";
const TAIL: &str = "\n  </body>\n</html>";

#[test]
fn html_as_given() {
    let content = "<h1>Welcome to the North Pole!</h1>";
    assert_eq!(unsafe_html(content), format!("{HEAD}{content}{TAIL}"));
}

#[test]
fn html_escaped() {
    let page = safe_html("<script>alert(\"XSS Attack!\")</script>").unwrap();
    assert_eq!(
        page,
        format!("{HEAD}&lt;script&gt;alert(&quot;XSS Attack!&quot;)&lt;/script&gt;{TAIL}")
    );
    assert_eq!(safe_html("a & 'b' ü").unwrap(), format!("{HEAD}a &amp; &apos;b&apos; ü{TAIL}"));
    let inner = &page[HEAD.len()..page.len() - TAIL.len()];
    assert!(!inner.contains('<') && !inner.contains('>') && !inner.contains('"') && !inner.contains('\''));
}

#[test]
fn nice_strings() {
    assert_eq!(nice("hello there").unwrap().result, "nice");
    let (s, o) = nice("abcd").err().unwrap();
    assert_eq!((s, o.result.as_str()), (Status { code: 400 }, "naughty"));
    assert!(nice("allo").is_err());
    assert!(nice("aei").is_err());
}

#[test]
fn nice_rules_decided() {
    assert!(nice_verdict(3, true, false));
    assert!(!nice_verdict(2, true, false));
    assert!(!nice_verdict(3, false, false));
    assert!(!nice_verdict(3, true, true));
}

fn refused(input: &str) -> (u16, String) {
    match game(input).unwrap() {
        Ok(o) => panic!("accepted: {}", o.reason),
        Err((s, o)) => {
            assert_eq!(o.result, "naughty");
            (s.code, o.reason)
        }
    }
}

#[test]
fn game_rules_in_order() {
    assert_eq!(refused("Aa1111"), (400, "8 chars".to_string()));
    assert_eq!(refused("2000.23.A"), (400, "more types of chars".to_string()));
    assert_eq!(refused("Aa1111bbb"), (400, "55555".to_string()));
    assert_eq!(refused("Aa12345bb"), (400, "math is hard".to_string()));
    assert_eq!(refused("2000.23.Aa"), (406, "not joyful enough".to_string()));
    assert_eq!(refused("2000.23.A j o y"), (451, "illegal: no sandwich".to_string()));
    assert_eq!(refused("2000.23.A j o y AzA"), (416, "outranged".to_string()));
    assert_eq!(refused("2000.23.A j o y AzA \u{2984}"), (426, "\u{1F633}".to_string()));
    assert_eq!(refused("2000.23.A j o y AzA \u{2984} \u{1F633}b"), (418, "not a coffee brewer".to_string()));
}

#[test]
fn game_nice_password() {
    let o = game("2000.23.A j o y AzA \u{2984} \u{1F633}ee").unwrap().ok().unwrap();
    assert_eq!((o.result.as_str(), o.reason.as_str()), ("nice", "that's a nice password"));
}

#[test]
fn game_digits_that_do_not_add_up() {
    // Arabic-Indic digits are digits to the rules, but no number to add
    assert!(game("Aa\u{661}\u{662}\u{663}\u{664}\u{665}bcdef").is_none());
}

fn facts() -> GameFacts {
    GameFacts {
        length: 8,
        has_lower: true,
        has_upper: true,
        has_digit: true,
        digits: 5,
        number_sum: 2023,
        joyful: true,
        sandwich: true,
        in_range: true,
        emoji: true,
        hash_ends_with_a: true,
    }
}

#[test]
fn game_verdict_on_facts() {
    assert!(game_verdict(&facts()).is_ok());
    let mut f = facts();
    f.hash_ends_with_a = false;
    let (s, o) = game_verdict(&f).err().unwrap();
    assert_eq!((s.code, o.reason.as_str()), (418, "not a coffee brewer"));
    let mut f = facts();
    f.length = 7;
    f.emoji = false;
    let (s, o) = game_verdict(&f).err().unwrap();
    assert_eq!((s.code, o.reason.as_str()), (400, "8 chars"));
    let (s, o) = ReasonableNiceOutput::create_error(Status { code: 451 }, "illegal: no sandwich");
    assert_eq!((s.code, o.result.as_str(), o.reason.as_str()), (451, "naughty", "illegal: no sandwich"));
}

fn text(s: &str) -> SocketMessage {
    SocketMessage::Text(s.to_string())
}

#[test]
fn ping_pong_game() {
    assert_eq!(ping_pong_step(false, &text("ping")), (false, PingReply::Nothing));
    assert_eq!(ping_pong_step(false, &text("serve")), (true, PingReply::Nothing));
    assert_eq!(ping_pong_step(true, &text("ping")), (true, PingReply::Pong));
    assert_eq!(ping_pong_step(true, &text("hello")), (true, PingReply::Nothing));
    assert_eq!(ping_pong_step(true, &SocketMessage::Other), (true, PingReply::Close));
}

#[test]
fn pong_only_after_serve() {
    let msgs = vec![text("ping"), text("x"), text("serve"), text("ping"), text("ping")];
    let mut playing = false;
    let mut replies = Vec::new();
    for m in &msgs {
        let (p, r) = ping_pong_step(playing, m);
        playing = p;
        replies.push(r);
    }
    assert_eq!(
        replies,
        vec![PingReply::Nothing, PingReply::Nothing, PingReply::Nothing, PingReply::Pong, PingReply::Pong]
    );
}

#[test]
fn tweets_signed_and_bounded() {
    let user = "santa".to_string();
    let t = sign_tweet(&user, "ho ho ho".to_string()).unwrap();
    assert_eq!((t.user.as_str(), t.message.as_str()), ("santa", "ho ho ho"));
    assert!(sign_tweet(&user, "x".repeat(128)).is_some());
    assert!(sign_tweet(&user, "x".repeat(129)).is_none());
    // 64 characters of two bytes each: 128 bytes
    assert!(sign_tweet(&user, "ü".repeat(64)).is_some());
    assert!(sign_tweet(&user, "ü".repeat(65)).is_none());
}

#[test]
fn tweet_room_steps() {
    let user = "elf".to_string();
    match room_step(&user, RoomEvent::Text(Some("hi".to_string()))) {
        RoomAction::Publish(t) => assert_eq!((t.user.as_str(), t.message.as_str()), ("elf", "hi")),
        _ => panic!("expected a tweet to publish"),
    }
    assert!(matches!(room_step(&user, RoomEvent::Text(Some("y".repeat(200)))), RoomAction::Wait));
    assert!(matches!(room_step(&user, RoomEvent::Text(None)), RoomAction::Wait));
    match room_step(&user, RoomEvent::Ping(vec![1, 2])) {
        RoomAction::Pong(d) => assert_eq!(d, vec![1, 2]),
        _ => panic!("expected a pong"),
    }
    assert!(matches!(room_step(&user, RoomEvent::Close), RoomAction::Stop));
    assert!(matches!(room_step(&user, RoomEvent::OtherFrame), RoomAction::Wait));
    let t = SignedTweet { user: "other".to_string(), message: "yo".to_string() };
    match room_step(&user, RoomEvent::Broadcast(t)) {
        RoomAction::Deliver(t) => assert_eq!((t.user.as_str(), t.message.as_str()), ("other", "yo")),
        _ => panic!("expected a delivery"),
    }
}

#[test]
fn digit_runs_added() {
    let runs = |v: &[&str]| v.iter().map(|s| s.to_string()).collect::<Vec<String>>();
    assert_eq!(add_runs(&runs(&["2000", "23"])), Some(2023));
    assert_eq!(add_runs(&runs(&[])), Some(0));
    assert_eq!(add_runs(&runs(&["18446744073709551615", "1"])), None);
    assert_eq!(add_runs(&runs(&["\u{661}"])), None);
}
