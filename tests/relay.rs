use termcastd::duration::Timestamp;
use termcastd::relay::{Action, Route, Termcastd, TermcastdMessage, CASTER, WATCHER};
use termcastd::watcher::WatcherState;

fn now() -> Timestamp {
    Timestamp::new(1_000_000)
}

fn sends_to(actions: &[Action], h: usize) -> Vec<u8> {
    let mut out = Vec::new();
    for a in actions {
        if let Action::Send(t, b) = a {
            if *t == h {
                out.extend_from_slice(b);
            }
        }
    }
    out
}

fn closes(actions: &[Action], h: usize) -> bool {
    actions.iter().any(|a| matches!(a, Action::Close(t) if *t == h))
}

fn login(t: &mut Termcastd, name: &str, pw: &str) -> (usize, Vec<Action>) {
    let c = t.new_caster(now()).unwrap();
    let acts = t.read_caster(c, format!("hello {} {}\n", name, pw).as_bytes(), now());
    (c, acts)
}

fn menu_lines(bytes: &[u8]) -> Vec<String> {
    let text = String::from_utf8_lossy(bytes).to_string();
    let body = text.rsplit("\x1b[H").next().unwrap().to_string();
    body.split("\r\n").filter(|l| !l.trim().is_empty()).map(|l| l.to_string()).collect()
}

#[test]
fn register_then_login_then_wrong_password() {
    let mut t = Termcastd::new();
    let (c1, acts) = login(&mut t, "alice", "secret");
    assert!(acts.is_empty());
    assert!(t.caster_authenticated(c1));
    let (c2, acts) = login(&mut t, "alice", "secret");
    assert!(acts.is_empty());
    assert!(t.caster_authenticated(c2));
    let acts = t.read_caster(c2, b"relayed", now());
    assert!(!closes(&acts, c2));
    let (c3, acts) = login(&mut t, "alice", "wrong");
    assert_eq!(acts.len(), 1);
    assert!(closes(&acts, c3));
    assert!(!t.caster_authenticated(c3));
    assert!(t.caster_subscribers(c3).is_none());
}

#[test]
fn one_caster_log_in() {
    let mut t = Termcastd::new();
    let (c, acts) = login(&mut t, "name", "pass");
    assert!(acts.is_empty(), "Logged in successfully.");
    assert!(t.caster_authenticated(c));

    let c = t.new_caster(now()).unwrap();
    assert!(t.read_caster(c, "hello ".as_bytes(), now()).is_empty());
    assert!(t.read_caster(c, "name ".as_bytes(), now()).is_empty());
    assert!(t.read_caster(c, "pass\n".as_bytes(), now()).is_empty(), "Three-part log in successful.");
    assert!(t.caster_authenticated(c));
}

#[test]
fn split_handshake_then_menu_lists_caster() {
    let mut t = Termcastd::new();
    let c = t.new_caster(now()).unwrap();
    for part in [&b"hello "[..], b"bob ", b"pw\n"] {
        let acts = t.read_caster(c, part, now());
        assert!(acts.is_empty());
    }
    assert!(t.caster_authenticated(c));
    let (_, first) = t.new_watcher(now()).unwrap();
    assert!(String::from_utf8_lossy(&first).contains(" a) bob ("));
}

#[test]
fn caster_log_in_fail() {
    let mut t = Termcastd::new();

    let c = t.new_caster(now()).unwrap();
    let acts = t.read_caster(c, "hello\n".as_bytes(), now());
    assert!(closes(&acts, c), "Missing name fails.");

    let c = t.new_caster(now()).unwrap();
    let input = [32u8; 1025];
    let mut acts = t.read_caster(c, &input[..1024], now());
    acts.extend(t.read_caster(c, &input[1024..], now()));
    assert!(closes(&acts, c), "No newline fails.");

    let c = t.new_caster(now()).unwrap();
    let acts = t.read_caster(c, "hello  \n".as_bytes(), now());
    assert!(closes(&acts, c), "Zero-length name fails.");

    let c = t.new_caster(now()).unwrap();
    let acts = t.read_caster(c, "hello \u{19} \n".as_bytes(), now());
    assert!(closes(&acts, c), "Control character in name fails.");
}

#[test]
fn oversize_preauth_in_one_read_closes() {
    let mut t = Termcastd::new();
    let c = t.new_caster(now()).unwrap();
    let acts = t.read_caster(c, &[b'x'; 1025], now());
    assert!(closes(&acts, c));
    let c = t.new_caster(now()).unwrap();
    assert!(t.read_caster(c, &[b'x'; 1024], now()).is_empty());
    assert!(!t.caster_authenticated(c));
}

#[test]
fn bytes_after_the_opening_line_are_stream_output() {
    let mut t = Termcastd::new();
    let c = t.new_caster(now()).unwrap();
    assert!(t.read_caster(c, b"hello eve pw\r\nfirst", now()).is_empty());
    let (w, _) = t.new_watcher(now()).unwrap();
    let acts = t.read_watcher(w, b"a", now());
    assert_eq!(sends_to(&acts, w), b"\x1b[2J\x1b[Hfirst".to_vec());
}

#[test]
fn menu_basic_attach_and_relay() {
    let mut t = Termcastd::new();
    let (c, _) = login(&mut t, "alice", "secret");
    let (w, first) = t.new_watcher(now()).unwrap();
    assert_eq!(&first[..10], &[0xff, 0xfd, 0x22, 0xff, 0xfa, 0x22, 0x01, 0x00, 0xff, 0xf0]);
    assert_eq!(&first[10..13], &[0xff, 0xfb, 0x01]);
    let lines = menu_lines(&first[13..]);
    assert!(lines[2].starts_with(" a) alice ("), "{:?}", lines);

    let acts = t.read_watcher(w, b"a", now());
    assert_eq!(sends_to(&acts, w), b"\x1b[2J\x1b[H".to_vec());
    assert_eq!(t.watcher_state(w), Some(WatcherState::Watching(c)));
    assert_eq!(t.caster_subscribers(c), Some(vec![w]));

    let acts = t.read_caster(c, b"Hello\n", now());
    assert_eq!(sends_to(&acts, w), b"Hello\n".to_vec());
}

#[test]
fn detach_returns_to_menu() {
    let mut t = Termcastd::new();
    let (c, _) = login(&mut t, "alice", "secret");
    let (w, _) = t.new_watcher(now()).unwrap();
    t.read_watcher(w, b"a", now());
    let acts = t.read_watcher(w, b"xyz", now());
    assert!(acts.is_empty());
    let acts = t.read_watcher(w, b"q", now());
    let menu = sends_to(&acts, w);
    assert!(String::from_utf8_lossy(&menu).contains(" a) alice (idle 00:00:00, connected 00:00:00, 0 watching, 0 bytes)"));
    assert_eq!(t.caster_subscribers(c), Some(vec![]));
    assert_eq!(t.watcher_state(w), Some(WatcherState::MainMenu));
}

#[test]
fn caster_disconnect_cascade() {
    let mut t = Termcastd::new();
    let (c, _) = login(&mut t, "alice", "secret");
    let (w1, _) = t.new_watcher(now()).unwrap();
    let (w2, _) = t.new_watcher(now()).unwrap();
    t.read_watcher(w1, b"a", now());
    t.read_watcher(w2, b"a", now());
    assert_eq!(t.caster_subscribers(c), Some(vec![w1, w2]));
    let acts = t.handle_disconnect(c, now());
    assert!(closes(&acts, c));
    for w in [w1, w2] {
        let menu = String::from_utf8_lossy(&sends_to(&acts, w)).to_string();
        assert!(menu.contains(" ## 0 sessions available. 2 watchers connected."));
        assert!(!menu.contains("alice"));
        assert_eq!(t.watcher_state(w), Some(WatcherState::MainMenu));
    }
    assert!(t.caster_subscribers(c).is_none());
}

#[test]
fn failed_caster_drops_like_a_hangup() {
    let mut t = Termcastd::new();
    let c = t.new_caster(now()).unwrap();
    let (w, _) = t.new_watcher(now()).unwrap();
    let acts = t.read_caster(c, b"bye\n", now());
    assert_eq!(acts.len(), 1);
    assert!(closes(&acts, c));
    assert_eq!(t.watcher_state(w), Some(WatcherState::MainMenu));
}

#[test]
fn watcher_hangup_unsubscribes() {
    let mut t = Termcastd::new();
    let (c, _) = login(&mut t, "alice", "secret");
    let (w, _) = t.new_watcher(now()).unwrap();
    t.read_watcher(w, b"a", now());
    let acts = t.handle_disconnect(w, now());
    assert!(closes(&acts, w));
    assert_eq!(t.caster_subscribers(c), Some(vec![]));
    assert_eq!(t.watcher_state(w), None);
    let acts = t.read_caster(c, b"more", now());
    assert!(acts.is_empty());
}

#[test]
fn menu_keys_and_refresh() {
    let mut t = Termcastd::new();
    login(&mut t, "alice", "secret");
    let (w, _) = t.new_watcher(now()).unwrap();
    let acts = t.read_watcher(w, b"zz", now());
    let text = String::from_utf8_lossy(&sends_to(&acts, w)).to_string();
    assert_eq!(text.matches("## Termcast").count(), 2);
    let acts = t.read_watcher(w, b"b", now());
    let text = String::from_utf8_lossy(&sends_to(&acts, w)).to_string();
    assert_eq!(text.matches("## Termcast").count(), 1);
    assert_eq!(t.watcher_state(w), Some(WatcherState::MainMenu));
    let acts = t.read_watcher(w, b"1qa", now());
    assert!(closes(&acts, w));
    assert_eq!(t.watcher_state(w), None);
}

#[test]
fn threaded_termcastd() {
    let mut t = Termcastd::new();
    let acts = t.notify(TermcastdMessage::Quit, now());
    assert!(matches!(acts.as_slice(), [Action::Shutdown]));
}

#[test]
fn notify_caster_disconnected_resets_watcher() {
    let mut t = Termcastd::new();
    let (c, _) = login(&mut t, "alice", "secret");
    let (w, _) = t.new_watcher(now()).unwrap();
    t.read_watcher(w, b"a", now());
    let acts = t.notify(TermcastdMessage::CasterDisconnected(w), now());
    assert!(!sends_to(&acts, w).is_empty());
    assert_eq!(t.watcher_state(w), Some(WatcherState::MainMenu));
    assert_eq!(t.caster_subscribers(c), Some(vec![]));
    assert!(t.notify(TermcastdMessage::CasterDisconnected(999), now()).is_empty());
    let acts = t.notify(TermcastdMessage::WatcherDisconnected(w), now());
    assert!(closes(&acts, w));
}

#[test]
fn can_cast() {
    let mut t = Termcastd::new();
    let (c, _) = login(&mut t, "caster1", "secret");
    assert!(t.read_caster(c, &[32], now()).is_empty());
    let (w, first) = t.new_watcher(now()).unwrap();
    let pos = first.iter().position(|b| *b == 0x23).unwrap();
    assert!(String::from_utf8_lossy(&first[pos..]).contains("caster1"));
    let acts = t.read_watcher(w, &[32], now());
    assert!(String::from_utf8_lossy(&sends_to(&acts, w)).contains("caster1"));
}

#[test]
fn routes() {
    let mut t = Termcastd::new();
    let c = t.new_caster(now()).unwrap();
    let (w, _) = t.new_watcher(now()).unwrap();
    assert_eq!(t.ready(CASTER, true, false, false), Route::AcceptCaster);
    assert_eq!(t.ready(WATCHER, true, false, false), Route::AcceptWatcher);
    assert_eq!(t.ready(c, true, false, false), Route::ReadCaster);
    assert_eq!(t.ready(w, true, false, false), Route::ReadWatcher);
    assert_eq!(t.ready(w, true, true, false), Route::Disconnect);
    assert_eq!(t.ready(c, false, false, true), Route::Ignore);
    assert_eq!(t.ready(12345, true, false, false), Route::Ignore);
    assert_eq!(c, 2);
    assert_eq!(w, 3);
}
