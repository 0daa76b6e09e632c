//! Web sockets: the ping-pong game, and tweets sent to a room.
use vstd::prelude::*;
use vstd::utf8::encode_utf8;

verus! {

/// What arrives on the ping-pong socket.
pub enum SocketMessage {
    Text(String),
    Other,
}

/// What the ping-pong socket sends back.
#[derive(Clone, Copy, Debug, PartialEq, Eq, Structural)]
pub enum PingReply {
    Nothing,
    Pong,
    Close,
}

/// The message is a text frame holding `t`.
pub open spec fn is_text(m: SocketMessage, t: Seq<char>) -> bool {
    m matches SocketMessage::Text(s) && s@ == t
}

/// One move of the game: text `"serve"` starts it; text `"ping"` is answered `"pong"` once it
/// has started; any other text is ignored; anything but text is answered by closing. Gives
/// whether the game has started after the message, and the reply.
pub open spec fn ping_move(playing: bool, m: SocketMessage) -> (bool, PingReply) {
    if is_text(m, "serve"@) {
        (true, PingReply::Nothing)
    } else if is_text(m, "ping"@) {
        (playing, if playing { PingReply::Pong } else { PingReply::Nothing })
    } else if m is Text {
        (playing, PingReply::Nothing)
    } else {
        (playing, PingReply::Close)
    }
}

/// The game played over the messages of a socket from its start: whether it has started at
/// the end, and the reply to each message.
pub open spec fn ping_game(msgs: Seq<SocketMessage>) -> (bool, Seq<PingReply>)
    decreases msgs.len(),
{
    if msgs.len() == 0 {
        (false, seq![])
    } else {
        let before = ping_game(msgs.drop_last());
        let now = ping_move(before.0, msgs.last());
        (now.0, before.1.push(now.1))
    }
}

/// Some message before position `n` is the text `"serve"`.
pub open spec fn served_before(msgs: Seq<SocketMessage>, n: int) -> bool {
    exists|j: int| 0 <= j < n && #[trigger] is_text(msgs[j], "serve"@)
}

/// Takes whether the game has started and the message; gives whether it has started after
/// it, and the reply.
pub fn ping_pong_step(playing: bool, msg: &SocketMessage) -> (r: (bool, PingReply))
    ensures
        r == ping_move(playing, *msg),
{
    match msg {
        SocketMessage::Text(s) => {
            let t = String::from_str("serve");
            if *s == t {
                (true, PingReply::Nothing)
            } else {
                let p = String::from_str("ping");
                if *s == p {
                    if playing {
                        (true, PingReply::Pong)
                    } else {
                        (false, PingReply::Nothing)
                    }
                } else {
                    (playing, PingReply::Nothing)
                }
            }
        },
        SocketMessage::Other => (playing, PingReply::Close),
    }
}

/// Over any messages, a `"ping"` is answered `"pong"` exactly when a `"serve"` came before
/// it; anything but text is answered by closing; nothing else gets a reply.
pub proof fn law_pong_only_after_serve(msgs: Seq<SocketMessage>)
    ensures
        ping_game(msgs).0 == served_before(msgs, msgs.len() as int),
        ping_game(msgs).1.len() == msgs.len(),
        forall|i: int|
            0 <= i < msgs.len() ==> (#[trigger] ping_game(msgs).1[i] == PingReply::Pong <==> (
            is_text(msgs[i], "ping"@) && served_before(msgs, i))),
        forall|i: int|
            0 <= i < msgs.len() ==> (ping_game(msgs).1[i] == PingReply::Close <==> #[trigger] msgs[i]
                is Other),
    decreases msgs.len(),
{
    reveal_strlit("serve");
    reveal_strlit("ping");
    if msgs.len() > 0 {
        let pre = msgs.drop_last();
        law_pong_only_after_serve(pre);
        let n = msgs.len() - 1;
        assert forall|k: int| 0 <= k <= n implies served_before(msgs, k) == served_before(pre, k) by {
            if served_before(msgs, k) {
                let j = choose|j: int| 0 <= j < k && #[trigger] is_text(msgs[j], "serve"@);
                assert(pre[j] == msgs[j]);
            }
            if served_before(pre, k) {
                let j = choose|j: int| 0 <= j < k && #[trigger] is_text(pre[j], "serve"@);
                assert(pre[j] == msgs[j]);
            }
        }
        if is_text(msgs[n], "serve"@) {
            assert(served_before(msgs, n + 1));
        } else {
            assert(served_before(msgs, n + 1) == served_before(msgs, n)) by {
                if served_before(msgs, n + 1) {
                    let j = choose|j: int| 0 <= j < n + 1 && #[trigger] is_text(msgs[j], "serve"@);
                    assert(j != n);
                }
            }
        }
        assert("serve"@ != "ping"@) by {
            assert("serve"@[0] != "ping"@[0]);
        }
        assert forall|i: int| 0 <= i < msgs.len() implies (#[trigger] ping_game(msgs).1[i]
            == PingReply::Pong <==> (is_text(msgs[i], "ping"@) && served_before(msgs, i))) by {
            if i < n {
                assert(ping_game(msgs).1[i] == ping_game(pre).1[i]);
                assert(msgs[i] == pre[i]);
            }
        }
        assert forall|i: int| 0 <= i < msgs.len() implies (ping_game(msgs).1[i] == PingReply::Close
            <==> #[trigger] msgs[i] is Other) by {
            if i < n {
                assert(ping_game(msgs).1[i] == ping_game(pre).1[i]);
                assert(msgs[i] == pre[i]);
            }
        }
    }
}

/// A tweet as it is sent on to the room: who wrote it, and what.
#[derive(Debug)]
pub struct SignedTweet {
    pub user: String,
    pub message: String,
}

/// The length in bytes of the UTF-8 encoding of the text, as `str::len` reports it.
pub open spec fn byte_len(s: Seq<char>) -> usize {
    encode_utf8(s).len() as usize
}

/// The tweet signed by `user`, unless its message is longer than 128 bytes (then it is
/// dropped).
pub fn sign_tweet(user: &String, message: String) -> (r: Option<SignedTweet>)
    ensures
        byte_len(message@) > 128 ==> r is None,
        byte_len(message@) <= 128 ==> (r matches Some(t) && t.user@ == user@ && t.message@
            == message@),
{
    if message.as_str().len() > 128 {
        None
    } else {
        Some(SignedTweet { user: user.clone(), message })
    }
}

/// What the loop serving a member of a tweet room meets next.
pub enum RoomEvent {
    /// A text frame from the member, with the message of the tweet it holds, if it reads as
    /// one.
    Text(Option<String>),
    /// A ping frame from the member, with its payload.
    Ping(Vec<u8>),
    /// A close frame, or the end of the member's stream.
    Close,
    /// Any other frame from the member.
    OtherFrame,
    /// A tweet that someone sent to the room.
    Broadcast(SignedTweet),
}

/// What the loop does about it.
pub enum RoomAction {
    /// Send the tweet to everyone in the room.
    Publish(SignedTweet),
    /// Answer with a pong frame carrying the payload.
    Pong(Vec<u8>),
    /// Leave the loop.
    Stop,
    /// Wait for the next event.
    Wait,
    /// Send the tweet to the member, and count one view.
    Deliver(SignedTweet),
}

/// One step of the loop that serves `user` in a tweet room: tweets the member writes go to
/// the room signed with their name (when they are short enough), pings are answered, a close
/// ends the loop, and tweets from the room are passed on to the member.
pub fn room_step(user: &String, event: RoomEvent) -> (a: RoomAction)
    ensures
        match event {
            RoomEvent::Text(None) => a is Wait,
            RoomEvent::Text(Some(m)) => if byte_len(m@) <= 128 {
                a matches RoomAction::Publish(t) && t.user@ == user@ && t.message@ == m@
            } else {
                a is Wait
            },
            RoomEvent::Ping(d) => a matches RoomAction::Pong(e) && e@ == d@,
            RoomEvent::Close => a is Stop,
            RoomEvent::OtherFrame => a is Wait,
            RoomEvent::Broadcast(t) => a matches RoomAction::Deliver(u) && u.user@ == t.user@
                && u.message@ == t.message@,
        },
{
    match event {
        RoomEvent::Text(None) => RoomAction::Wait,
        RoomEvent::Text(Some(m)) => match sign_tweet(user, m) {
            Some(t) => RoomAction::Publish(t),
            None => RoomAction::Wait,
        },
        RoomEvent::Ping(d) => RoomAction::Pong(d),
        RoomEvent::Close => RoomAction::Stop,
        RoomEvent::OtherFrame => RoomAction::Wait,
        RoomEvent::Broadcast(t) => RoomAction::Deliver(t),
    }
}

} // verus!
