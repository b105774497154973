use termcastd::auth::CasterAuth;
use termcastd::caster::{Caster, CasterMenuEntry};
use termcastd::duration::Timestamp;
use termcastd::handshake::AuthResults;
use termcastd::menu::MenuView;
use termcastd::watcher::{Watcher, WatcherAction, WatcherState};

fn at(s: i64) -> Timestamp {
    Timestamp::new(s)
}

#[test]
fn caster_handshake_and_scrollback() {
    let mut auth = CasterAuth::new();
    let mut c = Caster::new(7, at(100));
    assert!(c.menu_entry().is_none());
    assert_eq!(c.input(&mut auth, b"hello ann", at(101)), Ok(9));
    assert!(!c.is_authenticated());
    assert_eq!(c.input(&mut auth, b" pw\r\nabc", at(102)), Ok(5));
    assert!(c.is_authenticated());
    assert_eq!(c.input(&mut auth, b"def", at(103)), Ok(0));
    let e = c.menu_entry().unwrap();
    assert_eq!(e.name(), "ann");
    assert_eq!(e.token(), 7);
    assert_eq!(e.buffer_size(), 6);
    assert_eq!(e.num_watchers(), 0);
    assert_eq!(e.connected_when().unix_secs(), 100);
    assert_eq!(e.last_byte_received().unix_secs(), 103);
    assert_eq!(c.add_watcher(9), b"\x1b[2J\x1b[Habcdef".to_vec());
    assert_eq!(c.each_watcher(), &vec![9]);
    c.remove_watcher(9);
    assert!(c.each_watcher().is_empty());
    assert_eq!(c.token(), 7);
}

#[test]
fn caster_handshake_errors() {
    let mut auth = CasterAuth::new();
    let mut c = Caster::new(2, at(1));
    assert_eq!(c.input(&mut auth, b"bye there\n", at(2)), Err(AuthResults::MissingHello));
    let mut c = Caster::new(3, at(1));
    assert_eq!(c.input(&mut auth, &[b'a'; 1000], at(2)), Ok(1000));
    assert_eq!(c.input(&mut auth, &[b'a'; 25], at(2)), Err(AuthResults::TooLong));
    assert_eq!(auth.len(), 0);
}

#[test]
fn scrollback_keeps_the_last_bytes() {
    let mut auth = CasterAuth::new();
    let mut c = Caster::new(2, at(1));
    assert_eq!(c.input(&mut auth, b"hello zed\n", at(2)), Ok(10));
    let chunk = vec![b'x'; 50_000];
    c.input(&mut auth, &chunk, at(3)).unwrap();
    let chunk = vec![b'y'; 50_000];
    c.input(&mut auth, &chunk, at(4)).unwrap();
    let replay = c.add_watcher(5);
    assert_eq!(replay.len(), 7 + 90_000);
    assert!(replay[7..40_007].iter().all(|b| *b == b'x'));
    assert!(replay[40_007..].iter().all(|b| *b == b'y'));
}

fn one_caster_view() -> MenuView {
    MenuView {
        caster_entries: vec![CasterMenuEntry {
            token: 4,
            name: "ann".to_string(),
            num_watchers: 0,
            buffer_size: 0,
            connected: at(10),
            last_byte_received: at(10),
        }],
        total_watchers: 1,
    }
}

#[test]
fn watcher_state_machine() {
    let view = one_caster_view();
    let mut w = Watcher::new(3);
    assert_eq!(w.state, WatcherState::Connecting);
    let mut out = Vec::new();
    assert_eq!(w.parse_input(b"abc", &view, at(10), &mut out), WatcherAction::Nothing);
    assert!(out.is_empty());

    w.state = WatcherState::MainMenu;
    let (menu, _) = view.render(0, at(10));
    assert_eq!(w.parse_input(b"12b3", &view, at(10), &mut out), WatcherAction::Watch(1));
    let mut twice = menu.clone();
    twice.extend_from_slice(&menu);
    assert_eq!(out, twice);

    let mut out = Vec::new();
    assert_eq!(w.parse_input(b"q", &view, at(10), &mut out), WatcherAction::Exit);
    assert_eq!(w.state, WatcherState::Disconnecting);
    assert_eq!(w.parse_input(b"a", &view, at(10), &mut out), WatcherAction::Nothing);

    let mut w = Watcher::new(5);
    w.state = WatcherState::Watching(4);
    assert_eq!(w.parse_input(b"xyz", &view, at(10), &mut out), WatcherAction::Nothing);
    assert_eq!(w.parse_input(b"xqz", &view, at(10), &mut out), WatcherAction::StopWatching);
    assert!(out.is_empty());
    assert_eq!(w.token(), 5);
}

#[test]
fn send_menu_pins_the_offset() {
    let view = one_caster_view();
    let mut w = Watcher::new(3);
    w.offset = 40;
    let mut out = Vec::new();
    w.send_menu(&view, at(10), &mut out);
    assert_eq!(w.offset, 0);
    assert_eq!(out, view.render(0, at(10)).0);
}
