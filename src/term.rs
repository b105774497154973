//! Terminal and telnet control sequences sent to watchers.

use vstd::prelude::*;
use vstd::string::StringSliceAdditionalSpecFns;

verus! {

/// ESC [ 2 J: erase the whole screen.
pub open spec fn clear_screen_bytes() -> Seq<u8> {
    seq![0x1bu8, 0x5bu8, 0x32u8, 0x4au8]
}

/// ESC [ H: move the cursor to the top left corner.
pub open spec fn reset_cursor_bytes() -> Seq<u8> {
    seq![0x1bu8, 0x5bu8, 0x48u8]
}

/// IAC WILL ECHO: the server echoes, so the client stops echoing locally.
pub open spec fn local_echo_bytes() -> Seq<u8> {
    seq![0xffu8, 0xfbu8, 0x01u8]
}

/// IAC DO LINEMODE, then IAC SB LINEMODE MODE 0 IAC SE: the client sends each key
/// as it is typed.
pub open spec fn linemode_bytes() -> Seq<u8> {
    seq![0xffu8, 0xfdu8, 0x22u8, 0xffu8, 0xfau8, 0x22u8, 0x01u8, 0x00u8, 0xffu8, 0xf0u8]
}

/// The sequence that clears the screen.
pub fn clear_screen() -> (r: &'static str)
    ensures
        r@ == seq!['\x1b', '[', '2', 'J'],
        r.spec_bytes() == clear_screen_bytes(),
{
    let r = "\x1b[2J";
    proof {
        reveal_strlit("\x1b[2J");
        vstd::string::is_ascii_spec_bytes(r);
        assert(r.spec_bytes() =~= clear_screen_bytes());
    }
    r
}

/// The sequence that homes the cursor.
pub fn reset_cursor() -> (r: &'static str)
    ensures
        r@ == seq!['\x1b', '[', 'H'],
        r.spec_bytes() == reset_cursor_bytes(),
{
    let r = "\x1b[H";
    proof {
        reveal_strlit("\x1b[H");
        vstd::string::is_ascii_spec_bytes(r);
        assert(r.spec_bytes() =~= reset_cursor_bytes());
    }
    r
}

/// The telnet negotiation that suppresses the client's local echo.
pub fn disable_local_echo() -> (r: [u8; 3])
    ensures
        r@ == local_echo_bytes(),
{
    let r = [0xffu8, 0xfbu8, 0x01u8];
    assert(r@ =~= local_echo_bytes());
    r
}

/// The telnet negotiation that turns off the client's line mode.
pub fn disable_linemode() -> (r: [u8; 10])
    ensures
        r@ == linemode_bytes(),
{
    let r = [0xffu8, 0xfdu8, 0x22u8, 0xffu8, 0xfau8, 0x22u8, 0x01u8, 0x00u8, 0xffu8, 0xf0u8];
    assert(r@ =~= linemode_bytes());
    r
}

} // verus!
