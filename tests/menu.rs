use termcastd::caster::CasterMenuEntry;
use termcastd::duration::Timestamp;
use termcastd::menu::MenuView;
use termcastd::term::{clear_screen, disable_linemode, disable_local_echo, reset_cursor};

fn entry(token: usize, name: &str) -> CasterMenuEntry {
    CasterMenuEntry {
        token,
        name: name.to_string(),
        num_watchers: 1,
        buffer_size: 10,
        connected: Timestamp::new(1_000_000 - 60),
        last_byte_received: Timestamp::new(1_000_000 - 5),
    }
}

fn view(n: usize) -> MenuView {
    MenuView { caster_entries: (0..n).map(|i| entry(i + 2, &format!("c{}", i))).collect(), total_watchers: 2 }
}

#[test]
fn menu_text_is_exact() {
    let v = MenuView { caster_entries: vec![entry(2, "alice")], total_watchers: 2 };
    let (menu, offset) = v.render(0, Timestamp::new(1_000_000));
    let expected = "\x1b[2J\x1b[H\r\n ## Termcast\r\n ## 1 sessions available. 2 watchers connected.\r\n\r\n a) alice (idle 00:00:05, connected 00:01:00, 1 watching, 10 bytes)\r\n\r\nWatch which session? ('q' quits) ";
    assert_eq!(String::from_utf8(menu).unwrap(), expected);
    assert_eq!(offset, 0);
}

#[test]
fn empty_menu() {
    let (menu, offset) = view(0).render(0, Timestamp::new(1_000_000));
    let text = String::from_utf8(menu).unwrap();
    assert!(text.contains(" ## 0 sessions available. 2 watchers connected.\r\n\r\n\r\nWatch which session?"));
    assert_eq!(offset, 0);
}

#[test]
fn pinned_offsets() {
    let now = Timestamp::new(1_000_000);
    assert_eq!(view(17).render(20, now).1, 16);
    assert_eq!(view(17).render(3, now).1, 3);
    assert_eq!(view(16).render(16, now).1, 0);
    assert_eq!(view(32).render(40, now).1, 16);
    assert_eq!(view(0).render(5, now).1, 0);
    for l in 1..50usize {
        for o in 0..70usize {
            let e = view(l).render(o, now).1;
            assert!(e < l);
            if e != o {
                assert_eq!(e % 16, 0);
            }
        }
    }
}

#[test]
fn page_lists_at_most_sixteen_keyed_a_to_p() {
    let (menu, _) = view(20).render(0, Timestamp::new(1_000_000));
    let text = String::from_utf8(menu).unwrap();
    assert!(text.contains(" a) c0 ("));
    assert!(text.contains(" p) c15 ("));
    assert!(!text.contains("c16"));
    let (menu, off) = view(20).render(16, Timestamp::new(1_000_000));
    let text = String::from_utf8(menu).unwrap();
    assert_eq!(off, 16);
    assert!(text.contains(" a) c16 ("));
    assert!(text.contains(" d) c19 ("));
    assert!(!text.contains("c15 "));
}

#[test]
fn rerender_is_identical() {
    let v = view(3);
    let now = Timestamp::new(1_000_000);
    let (a, oa) = v.render(7, now);
    let (b, ob) = v.render(7, now);
    let (c, oc) = v.render(oa, now);
    assert_eq!(a, b);
    assert_eq!(oa, ob);
    assert_eq!(a, c);
    assert_eq!(oa, oc);
}

#[test]
fn offset_token_lookup() {
    let v = view(3);
    assert_eq!(v.get_offset_token(0), Some(2));
    assert_eq!(v.get_offset_token(2), Some(4));
    assert_eq!(v.get_offset_token(3), None);
}

#[test]
fn terminal_sequences() {
    assert_eq!(clear_screen(), "\x1b[2J");
    assert_eq!(reset_cursor(), "\x1b[H");
    assert_eq!(disable_local_echo(), [0xff, 0xfb, 0x01]);
    assert_eq!(disable_linemode(), [0xff, 0xfd, 0x22, 0xff, 0xfa, 0x22, 0x01, 0x00, 0xff, 0xf0]);
}
