//! Per-watcher state: the menu offset and the state machine driven by key presses.

use crate::duration::Timestamp;
use crate::handshake::{index_of, lemma_index_of};
use crate::menu::{entry_views, menu_text, pinned_offset, MenuView};
use vstd::prelude::*;

verus! {

/// Where a watcher is in its session.
#[derive(Clone, Copy, Debug, PartialEq, Eq, Structural)]
pub enum WatcherState {
    Connecting,
    Disconnecting,
    MainMenu,
    Watching(usize),
}

/// What the relay is to do after a watcher's input.
#[derive(Clone, Copy, Debug, PartialEq, Eq, Structural)]
pub enum WatcherAction {
    /// The watcher quit.
    Exit,
    /// Nothing beyond what was already sent.
    Nothing,
    /// Leave the watched caster for the menu.
    StopWatching,
    /// Attach to the caster at this index of the menu list.
    Watch(usize),
}

/// One watcher connection.
#[derive(Clone, Copy)]
pub struct Watcher {
    pub state: WatcherState,
    pub offset: usize,
    pub token: usize,
}

/// Keys that end a batch of input in the menu: `a` to `p` pick a caster, `q` quits.
pub open spec fn is_menu_key(b: u8) -> bool {
    97 <= b <= 113
}

/// Index of the first menu key in `s`, or its length.
pub open spec fn first_menu_key(s: Seq<u8>) -> int
    decreases s.len(),
{
    if s.len() == 0 {
        0
    } else if is_menu_key(s[0]) {
        0
    } else {
        1 + first_menu_key(s.drop_first())
    }
}

/// `first_menu_key` is the first place that holds a menu key.
pub proof fn lemma_first_menu_key(s: Seq<u8>)
    ensures
        0 <= first_menu_key(s) <= s.len(),
        forall|j: int| 0 <= j < first_menu_key(s) ==> !is_menu_key(s[j]),
        first_menu_key(s) < s.len() ==> is_menu_key(s[first_menu_key(s)]),
    decreases s.len(),
{
    if s.len() > 0 && !is_menu_key(s[0]) {
        lemma_first_menu_key(s.drop_first());
        assert forall|j: int| 0 <= j < first_menu_key(s) implies !is_menu_key(s[j]) by {
            if j > 0 {
                assert(s[j] == s.drop_first()[j - 1]);
            }
        }
    }
}

proof fn lemma_first_menu_key_unique(s: Seq<u8>, k: int)
    requires
        0 <= k <= s.len(),
        forall|j: int| 0 <= j < k ==> !is_menu_key(s[j]),
        k < s.len() ==> is_menu_key(s[k]),
    ensures
        first_menu_key(s) == k,
{
    lemma_first_menu_key(s);
}

/// `m` written `t` times.
pub open spec fn repeat_bytes(m: Seq<u8>, t: nat) -> Seq<u8>
    decreases t,
{
    if t == 0 {
        Seq::empty()
    } else {
        repeat_bytes(m, (t - 1) as nat) + m
    }
}

/// `o + k`, or the largest `usize` when the sum does not fit.
pub open spec fn saturating_sum(o: usize, k: int) -> usize {
    if o + k <= usize::MAX {
        (o + k) as usize
    } else {
        usize::MAX
    }
}

impl Watcher {
    /// A watcher that has just connected.
    pub fn new(token: usize) -> (r: Self)
        ensures
            r.state == WatcherState::Connecting,
            r.offset == 0,
            r.token == token,
    {
        Watcher { offset: 0, token: token, state: WatcherState::Connecting }
    }

    /// Applies `input` to the state machine, appending any menu redraws to `out`.
    /// In the menu, every byte before the first key from `a` to `q` redraws the menu;
    /// `q` quits, and `a` to `p` ask for the caster at the offset plus the key's place.
    /// While watching, `q` asks to stop watching and other bytes are ignored. The rest
    /// of the input after the byte that decided is dropped.
    pub fn parse_input(
        &mut self,
        input: &[u8],
        menu_view: &MenuView,
        now: Timestamp,
        out: &mut Vec<u8>,
    ) -> (r: WatcherAction)
        ensures
            final(self).token == old(self).token,
            match old(self).state {
                WatcherState::MainMenu => {
                    let t = first_menu_key(input@);
                    let o = if t > 0 {
                        pinned_offset(
                            old(self).offset as int,
                            menu_view.caster_entries@.len() as int,
                        ) as usize
                    } else {
                        old(self).offset
                    };
                    &&& final(out)@ == old(out)@ + repeat_bytes(
                        menu_text(
                            entry_views(menu_view.caster_entries@),
                            menu_view.total_watchers as nat,
                            old(self).offset as int,
                            now,
                        ),
                        t as nat,
                    )
                    &&& final(self).offset == o
                    &&& t == input@.len() ==> r == WatcherAction::Nothing && final(self).state
                        == old(self).state
                    &&& t < input@.len() && input@[t] == 113 ==> r == WatcherAction::Exit && final(self).state == WatcherState::Disconnecting
                    &&& t < input@.len() && input@[t] != 113 ==> r == WatcherAction::Watch(
                        saturating_sum(o, input@[t] - 97),
                    ) && final(self).state == old(self).state
                },
                WatcherState::Watching(_) => {
                    &&& final(out)@ == old(out)@
                    &&& final(self).state == old(self).state
                    &&& final(self).offset == old(self).offset
                    &&& r == if index_of(input@, 113) < input@.len() {
                        WatcherAction::StopWatching
                    } else {
                        WatcherAction::Nothing
                    }
                },
                _ => {
                    &&& final(out)@ == old(out)@
                    &&& final(self).state == old(self).state
                    &&& final(self).offset == old(self).offset
                    &&& r == WatcherAction::Nothing
                },
            },
    {
        match self.state {
            WatcherState::Watching(_) => {
                let i = crate::handshake::find_byte(input, 113u8);
                if i < input.len() {
                    WatcherAction::StopWatching
                } else {
                    WatcherAction::Nothing
                }
            },
            WatcherState::MainMenu => self.parse_menu_input(input, menu_view, now, out),
            _ => WatcherAction::Nothing,
        }
    }

    /// The menu part of `parse_input`.
    fn parse_menu_input(
        &mut self,
        input: &[u8],
        menu_view: &MenuView,
        now: Timestamp,
        out: &mut Vec<u8>,
    ) -> (r: WatcherAction)
        requires
            old(self).state == WatcherState::MainMenu,
        ensures
            final(self).token == old(self).token,
            ({
                let t = first_menu_key(input@);
                let o = if t > 0 {
                    pinned_offset(
                        old(self).offset as int,
                        menu_view.caster_entries@.len() as int,
                    ) as usize
                } else {
                    old(self).offset
                };
                &&& final(out)@ == old(out)@ + repeat_bytes(
                    menu_text(
                        entry_views(menu_view.caster_entries@),
                        menu_view.total_watchers as nat,
                        old(self).offset as int,
                        now,
                    ),
                    t as nat,
                )
                &&& final(self).offset == o
                &&& t == input@.len() ==> r == WatcherAction::Nothing && final(self).state == old(self).state
                &&& t < input@.len() && input@[t] == 113 ==> r == WatcherAction::Exit && final(self).state == WatcherState::Disconnecting
                &&& t < input@.len() && input@[t] != 113 ==> r == WatcherAction::Watch(
                    saturating_sum(o, input@[t] - 97),
                ) && final(self).state == old(self).state
            }),
    {
        let ghost m = menu_text(
            entry_views(menu_view.caster_entries@),
            menu_view.total_watchers as nat,
            self.offset as int,
            now,
        );
        let ghost l = menu_view.caster_entries@.len() as int;
        let ghost o0 = self.offset;
        let mut i: usize = 0;
        while i < input.len()
            invariant
                i <= input@.len(),
                forall|j: int| 0 <= j < i ==> !is_menu_key(input@[j]),
                out@ == old(out)@ + repeat_bytes(m, i as nat),
                self.state == WatcherState::MainMenu,
                self.token == old(self).token,
                self.offset == if i > 0 {
                    pinned_offset(o0 as int, l) as usize
                } else {
                    o0
                },
                m == menu_text(
                    entry_views(menu_view.caster_entries@),
                    menu_view.total_watchers as nat,
                    o0 as int,
                    now,
                ),
                l == menu_view.caster_entries@.len(),
                o0 == old(self).offset,
                old(self).state == WatcherState::MainMenu,
            decreases input@.len() - i,
        {
            let byte = input[i];
            if 97u8 <= byte && byte <= 112u8 {
                proof {
                    lemma_first_menu_key_unique(input@, i as int);
                }
                let page_offset = (byte - 97u8) as usize;
                let caster_offset = self.offset.saturating_add(page_offset);
                return WatcherAction::Watch(caster_offset);
            } else if byte == 113u8 {
                proof {
                    lemma_first_menu_key_unique(input@, i as int);
                }
                self.state = WatcherState::Disconnecting;
                return WatcherAction::Exit;
            } else {
                let ghost cur = self.offset;
                let ghost before = out@;
                proof {
                    crate::menu::lemma_rerender_stable(
                        entry_views(menu_view.caster_entries@),
                        menu_view.total_watchers as nat,
                        o0 as int,
                        now,
                    );
                    assert(menu_text(
                        entry_views(menu_view.caster_entries@),
                        menu_view.total_watchers as nat,
                        cur as int,
                        now,
                    ) == m);
                }
                self.send_menu(menu_view, now, out);
                proof {
                    assert(out@ == before + m);
                    assert(repeat_bytes(m, (i + 1) as nat) == repeat_bytes(m, i as nat) + m);
                    assert(out@ =~= old(out)@ + repeat_bytes(m, (i + 1) as nat));
                }
            }
            i += 1;
        }
        proof {
            lemma_first_menu_key_unique(input@, i as int);
        }
        WatcherAction::Nothing
    }

    /// Draws the menu at the watcher's offset into `out` and keeps the offset it was
    /// drawn at.
    pub fn send_menu(&mut self, menu_view: &MenuView, now: Timestamp, out: &mut Vec<u8>)
        ensures
            final(self).state == old(self).state,
            final(self).token == old(self).token,
            final(self).offset == pinned_offset(
                old(self).offset as int,
                menu_view.caster_entries@.len() as int,
            ),
            final(out)@ == old(out)@ + menu_text(
                entry_views(menu_view.caster_entries@),
                menu_view.total_watchers as nat,
                old(self).offset as int,
                now,
            ),
    {
        let (menu, fixed_offset) = menu_view.render(self.offset, now);
        self.offset = fixed_offset;
        out.extend_from_slice(menu.as_slice());
    }

    /// The watcher's handle.
    pub fn token(&self) -> (r: usize)
        ensures
            r == self.token,
    {
        self.token
    }
}

} // verus!
