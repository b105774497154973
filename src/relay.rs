//! The relay core: tables of casters and watchers keyed by handle, the edges between
//! them, and the handling of every event the poll loop reports.

use crate::auth::CasterAuth;
use crate::caster::{entry_of, input_outcome, without, Caster, MenuEntryView};
use crate::handshake::AuthResults;
use crate::duration::Timestamp;
use crate::menu::{entry_views, menu_text, pinned_offset, MenuView};
use crate::term::{disable_linemode, disable_local_echo, linemode_bytes, local_echo_bytes};
use crate::handshake::index_of;
use crate::watcher::{first_menu_key, repeat_bytes, saturating_sum, Watcher, WatcherAction, WatcherState};
use crate::term::{clear_screen_bytes, reset_cursor_bytes};
use vstd::prelude::*;

verus! {

/// Handle of the caster listener.
pub const CASTER: usize = 0;

/// Handle of the watcher listener.
pub const WATCHER: usize = 1;

/// Which kind of client a handle belongs to.
#[derive(Clone, Copy, Debug, PartialEq, Eq, Structural)]
pub enum Client {
    Caster,
    Watcher,
}

/// Messages on the control channel.
#[derive(Clone, Copy, Debug, PartialEq, Eq, Structural)]
pub enum TermcastdMessage {
    /// The caster this watcher watched has gone: back to the menu.
    CasterDisconnected(usize),
    /// This watcher's socket failed: drop it.
    WatcherDisconnected(usize),
    /// Stop the loop.
    Quit,
}

/// What the poll loop is to do for the relay.
#[derive(Debug)]
pub enum Action {
    /// Write these bytes to the socket of this handle.
    Send(usize, Vec<u8>),
    /// Deregister and drop the socket of this handle.
    Close(usize),
    /// Leave the loop.
    Shutdown,
}

/// An `Action` as plain values.
pub enum ActionView {
    Send(usize, Seq<u8>),
    Close(usize),
    Shutdown,
}

impl View for Action {
    type V = ActionView;

    open spec fn view(&self) -> ActionView {
        match self {
            Action::Send(h, b) => ActionView::Send(*h, b@),
            Action::Close(h) => ActionView::Close(*h),
            Action::Shutdown => ActionView::Shutdown,
        }
    }
}

/// A list of actions as plain values.
pub open spec fn actions_view(a: Seq<Action>) -> Seq<ActionView> {
    a.map_values(|x: Action| x@)
}

/// How the poll loop is to handle a readiness event.
#[derive(Clone, Copy, Debug, PartialEq, Eq, Structural)]
pub enum Route {
    AcceptCaster,
    AcceptWatcher,
    ReadCaster,
    ReadWatcher,
    Disconnect,
    Ignore,
}

/// The authenticated casters, as the menu lists them, in table order.
pub open spec fn menu_entries(cs: Seq<Caster>) -> Seq<MenuEntryView> {
    cs.filter(|c: Caster| c.name_spec() is Some).map_values(|c: Caster| entry_of(c))
}

/// Index of the first caster with handle `h`, or the length when there is none.
pub open spec fn caster_pos(cs: Seq<Caster>, h: usize) -> int
    decreases cs.len(),
{
    if cs.len() == 0 {
        0
    } else if cs[0].token_spec() == h {
        0
    } else {
        1 + caster_pos(cs.drop_first(), h)
    }
}

/// Index of the first watcher with handle `h`, or the length when there is none.
pub open spec fn watcher_pos(ws: Seq<Watcher>, h: usize) -> int
    decreases ws.len(),
{
    if ws.len() == 0 {
        0
    } else if ws[0].token == h {
        0
    } else {
        1 + watcher_pos(ws.drop_first(), h)
    }
}

proof fn lemma_caster_pos(cs: Seq<Caster>, h: usize)
    ensures
        0 <= caster_pos(cs, h) <= cs.len(),
        forall|j: int| 0 <= j < caster_pos(cs, h) ==> cs[j].token_spec() != h,
        caster_pos(cs, h) < cs.len() ==> cs[caster_pos(cs, h)].token_spec() == h,
    decreases cs.len(),
{
    if cs.len() > 0 && cs[0].token_spec() != h {
        lemma_caster_pos(cs.drop_first(), h);
        assert forall|j: int| 0 <= j < caster_pos(cs, h) implies cs[j].token_spec() != h by {
            if j > 0 {
                assert(cs[j] == cs.drop_first()[j - 1]);
            }
        }
    }
}

proof fn lemma_watcher_pos(ws: Seq<Watcher>, h: usize)
    ensures
        0 <= watcher_pos(ws, h) <= ws.len(),
        forall|j: int| 0 <= j < watcher_pos(ws, h) ==> ws[j].token != h,
        watcher_pos(ws, h) < ws.len() ==> ws[watcher_pos(ws, h)].token == h,
    decreases ws.len(),
{
    if ws.len() > 0 && ws[0].token != h {
        lemma_watcher_pos(ws.drop_first(), h);
        assert forall|j: int| 0 <= j < watcher_pos(ws, h) implies ws[j].token != h by {
            if j > 0 {
                assert(ws[j] == ws.drop_first()[j - 1]);
            }
        }
    }
}

/// Some watcher has handle `w` and is in state `st`.
pub open spec fn has_watcher(ws: Seq<Watcher>, w: usize, st: WatcherState) -> bool {
    exists|j: int| 0 <= j < ws.len() && ws[j].token == w && ws[j].state == st
}

/// Some caster has handle `h` and lists `w` among its subscribers.
pub open spec fn has_subscriber(cs: Seq<Caster>, h: usize, w: usize) -> bool {
    exists|i: int| 0 <= i < cs.len() && cs[i].token_spec() == h && cs[i].subscribers().contains(w)
}

/// Every watcher a caster lists as subscribed is watching that caster.
pub open spec fn subscribers_watch(cs: Seq<Caster>, ws: Seq<Watcher>) -> bool {
    forall|i: int, k: int|
        0 <= i < cs.len() && 0 <= k < cs[i].subscribers().len() ==> has_watcher(
            ws,
            #[trigger] cs[i].subscribers()[k],
            WatcherState::Watching(cs[i].token_spec()),
        )
}

/// Every watching watcher is listed by the caster it watches, which exists.
pub open spec fn watchers_subscribed(cs: Seq<Caster>, ws: Seq<Watcher>) -> bool {
    forall|j: int|
        0 <= j < ws.len() && (#[trigger] ws[j].state) is Watching ==> has_subscriber(
            cs,
            ws[j].state->Watching_0,
            ws[j].token,
        )
}

/// Handles are unique within and across the two tables, and lie between the listener
/// handles and the next handle to hand out.
pub open spec fn handles_ok(cs: Seq<Caster>, ws: Seq<Watcher>, next: usize) -> bool {
    &&& forall|i: int, j: int|
        0 <= i < j < cs.len() ==> cs[i].token_spec() != cs[j].token_spec()
    &&& forall|i: int, j: int| 0 <= i < j < ws.len() ==> ws[i].token != ws[j].token
    &&& forall|i: int, j: int|
        0 <= i < cs.len() && 0 <= j < ws.len() ==> cs[i].token_spec() != ws[j].token
    &&& forall|i: int| 0 <= i < cs.len() ==> 2 <= #[trigger] cs[i].token_spec() < next
    &&& forall|j: int| 0 <= j < ws.len() ==> 2 <= #[trigger] ws[j].token < next
}

/// `a` and `b` agree on everything but the subscribers.
pub open spec fn same_but_subscribers(a: Caster, b: Caster) -> bool {
    &&& a.token_spec() == b.token_spec()
    &&& a.name_spec() == b.name_spec()
    &&& a.history() == b.history()
    &&& a.connected_spec() == b.connected_spec()
    &&& a.last_byte_spec() == b.last_byte_spec()
}

/// No caster lists a watcher twice.
pub open spec fn subscribers_unique(cs: Seq<Caster>) -> bool {
    forall|i: int| 0 <= i < cs.len() ==> (#[trigger] cs[i].subscribers()).no_duplicates()
}

/// The edges and handles of the two tables are consistent.
pub open spec fn tables_ok(cs: Seq<Caster>, ws: Seq<Watcher>, next: usize) -> bool {
    &&& handles_ok(cs, ws, next)
    &&& subscribers_unique(cs)
    &&& subscribers_watch(cs, ws)
    &&& watchers_subscribed(cs, ws)
}

/// Moving watcher `j` from watching to the menu while its caster drops it from its
/// subscribers keeps the tables consistent.
proof fn lemma_detach(
    cs: Seq<Caster>,
    ws: Seq<Watcher>,
    next: usize,
    j: int,
    ci: int,
    c2: Caster,
    w2: Watcher,
)
    requires
        tables_ok(cs, ws, next),
        0 <= j < ws.len(),
        0 <= ci < cs.len(),
        ws[j].state == WatcherState::Watching(cs[ci].token_spec()),
        same_but_subscribers(c2, cs[ci]),
        c2.subscribers() == without(cs[ci].subscribers(), ws[j].token),
        w2.token == ws[j].token,
        w2.state == WatcherState::MainMenu,
    ensures
        tables_ok(cs.update(ci, c2), ws.update(j, w2), next),
{
    let cs2 = cs.update(ci, c2);
    let ws2 = ws.update(j, w2);
    let tj = ws[j].token;
    assert(cs[ci].subscribers().no_duplicates());
    crate::caster::lemma_without(cs[ci].subscribers(), tj);
    assert forall|i: int| 0 <= i < cs2.len() implies (#[trigger] cs2[i].subscribers()).no_duplicates() by {
        if i != ci {
            assert(cs2[i] == cs[i]);
        }
    }
    assert forall|i: int, k: int|
        0 <= i < cs2.len() && 0 <= k < cs2[i].subscribers().len() implies has_watcher(
        ws2,
        #[trigger] cs2[i].subscribers()[k],
        WatcherState::Watching(cs2[i].token_spec()),
    ) by {
        let w = cs2[i].subscribers()[k];
        if i == ci {
            assert(cs2[ci].subscribers()[k] == without(cs[ci].subscribers(), tj)[k]);
            let k2 = choose|k2: int| 0 <= k2 < cs[ci].subscribers().len() && cs[ci].subscribers()[k2] == w;
            assert(has_watcher(ws, cs[ci].subscribers()[k2], WatcherState::Watching(cs[ci].token_spec())));
            let j2 = choose|j2: int| 0 <= j2 < ws.len() && ws[j2].token == w && ws[j2].state == WatcherState::Watching(cs[ci].token_spec());
            assert(ws2[j2] == ws[j2]);
        } else {
            assert(cs2[i] == cs[i]);
            assert(has_watcher(ws, cs[i].subscribers()[k], WatcherState::Watching(cs[i].token_spec())));
            let j2 = choose|j2: int| 0 <= j2 < ws.len() && ws[j2].token == w && ws[j2].state == WatcherState::Watching(cs[i].token_spec());
            assert(j2 != j);
            assert(ws2[j2] == ws[j2]);
        }
    }
    assert forall|j2: int|
        0 <= j2 < ws2.len() && (#[trigger] ws2[j2].state) is Watching implies has_subscriber(
        cs2,
        ws2[j2].state->Watching_0,
        ws2[j2].token,
    ) by {
        assert(j2 != j);
        assert(ws2[j2] == ws[j2]);
        assert(ws[j2].state is Watching);
        let i = choose|i: int| 0 <= i < cs.len() && cs[i].token_spec() == ws[j2].state->Watching_0 && cs[i].subscribers().contains(ws[j2].token);
        if i == ci {
            let k = choose|k: int| 0 <= k < cs[ci].subscribers().len() && cs[ci].subscribers()[k] == ws[j2].token;
            assert(ws[j2].token != tj);
            assert(cs[ci].subscribers()[k] != tj);
            assert(cs2[ci].subscribers().contains(ws2[j2].token));
            assert(cs2[ci].token_spec() == ws2[j2].state->Watching_0);
        } else {
            assert(cs2[i] == cs[i]);
        }
    }
}

/// Dropping a watcher that watches nothing keeps the tables consistent.
proof fn lemma_remove_idle_watcher(cs: Seq<Caster>, ws: Seq<Watcher>, next: usize, j: int)
    requires
        tables_ok(cs, ws, next),
        0 <= j < ws.len(),
        !(ws[j].state is Watching),
    ensures
        tables_ok(cs, ws.remove(j), next),
{
    let ws2 = ws.remove(j);
    assert forall|i: int, k: int|
        0 <= i < cs.len() && 0 <= k < cs[i].subscribers().len() implies has_watcher(
        ws2,
        #[trigger] cs[i].subscribers()[k],
        WatcherState::Watching(cs[i].token_spec()),
    ) by {
        let w = cs[i].subscribers()[k];
        let j2 = choose|j2: int| 0 <= j2 < ws.len() && ws[j2].token == w && ws[j2].state == WatcherState::Watching(cs[i].token_spec());
        assert(j2 != j);
        if j2 < j {
            assert(ws2[j2] == ws[j2]);
        } else {
            assert(ws2[j2 - 1] == ws[j2]);
        }
    }
    assert forall|j2: int|
        0 <= j2 < ws2.len() && (#[trigger] ws2[j2].state) is Watching implies has_subscriber(
        cs,
        ws2[j2].state->Watching_0,
        ws2[j2].token,
    ) by {
        if j2 < j {
            assert(ws2[j2] == ws[j2]);
        } else {
            assert(ws2[j2] == ws[j2 + 1]);
            assert(ws[j2 + 1].state is Watching);
        }
    }
    assert forall|a: int, b: int| 0 <= a < b < ws2.len() implies ws2[a].token != ws2[b].token by {
        let a2 = if a < j { a } else { a + 1 };
        let b2 = if b < j { b } else { b + 1 };
        assert(ws2[a] == ws[a2] && ws2[b] == ws[b2]);
    }
    assert forall|i: int, b: int| 0 <= i < cs.len() && 0 <= b < ws2.len() implies cs[i].token_spec() != ws2[b].token by {
        let b2 = if b < j { b } else { b + 1 };
        assert(ws2[b] == ws[b2]);
    }
    assert forall|b: int| 0 <= b < ws2.len() implies 2 <= #[trigger] ws2[b].token < next by {
        let b2 = if b < j { b } else { b + 1 };
        assert(ws2[b] == ws[b2]);
    }
}

/// Subscribing watcher `j`, which watched nothing, to caster `ci` keeps the tables
/// consistent.
proof fn lemma_attach(
    cs: Seq<Caster>,
    ws: Seq<Watcher>,
    next: usize,
    j: int,
    ci: int,
    c2: Caster,
    w2: Watcher,
)
    requires
        tables_ok(cs, ws, next),
        0 <= j < ws.len(),
        0 <= ci < cs.len(),
        !(ws[j].state is Watching),
        same_but_subscribers(c2, cs[ci]),
        c2.subscribers() == cs[ci].subscribers().push(ws[j].token),
        w2.token == ws[j].token,
        w2.state == WatcherState::Watching(cs[ci].token_spec()),
    ensures
        tables_ok(cs.update(ci, c2), ws.update(j, w2), next),
{
    let cs2 = cs.update(ci, c2);
    let ws2 = ws.update(j, w2);
    if cs[ci].subscribers().contains(ws[j].token) {
        let k = choose|k: int| 0 <= k < cs[ci].subscribers().len() && cs[ci].subscribers()[k] == ws[j].token;
        assert(has_watcher(ws, cs[ci].subscribers()[k], WatcherState::Watching(cs[ci].token_spec())));
        let j2 = choose|j2: int| 0 <= j2 < ws.len() && ws[j2].token == ws[j].token && ws[j2].state == WatcherState::Watching(cs[ci].token_spec());
        assert(j2 == j);
    }
    assert forall|i: int| 0 <= i < cs2.len() implies (#[trigger] cs2[i].subscribers()).no_duplicates() by {
        if i != ci {
            assert(cs2[i] == cs[i]);
        } else {
            assert(cs[ci].subscribers().no_duplicates());
            assert forall|a: int, b: int| 0 <= a < b < cs2[ci].subscribers().len() implies cs2[ci].subscribers()[a] != cs2[ci].subscribers()[b] by {
                if b == cs[ci].subscribers().len() {
                    assert(cs[ci].subscribers()[a] == cs2[ci].subscribers()[a]);
                }
            }
        }
    }
    assert forall|i: int, k: int|
        0 <= i < cs2.len() && 0 <= k < cs2[i].subscribers().len() implies has_watcher(
        ws2,
        #[trigger] cs2[i].subscribers()[k],
        WatcherState::Watching(cs2[i].token_spec()),
    ) by {
        let w = cs2[i].subscribers()[k];
        if i == ci && k == cs[ci].subscribers().len() {
            assert(ws2[j] == w2);
        } else {
            assert(cs2[i].subscribers()[k] == cs[i].subscribers()[k]);
            assert(has_watcher(ws, cs[i].subscribers()[k], WatcherState::Watching(cs[i].token_spec())));
            let j2 = choose|j2: int| 0 <= j2 < ws.len() && ws[j2].token == w && ws[j2].state == WatcherState::Watching(cs[i].token_spec());
            assert(j2 != j);
            assert(ws2[j2] == ws[j2]);
        }
    }
    assert forall|j2: int|
        0 <= j2 < ws2.len() && (#[trigger] ws2[j2].state) is Watching implies has_subscriber(
        cs2,
        ws2[j2].state->Watching_0,
        ws2[j2].token,
    ) by {
        if j2 == j {
            assert(cs2[ci].subscribers()[cs[ci].subscribers().len() as int] == ws[j].token);
        } else {
            assert(ws2[j2] == ws[j2]);
            assert(ws[j2].state is Watching);
            let i = choose|i: int| 0 <= i < cs.len() && cs[i].token_spec() == ws[j2].state->Watching_0 && cs[i].subscribers().contains(ws[j2].token);
            let k = choose|k: int| 0 <= k < cs[i].subscribers().len() && cs[i].subscribers()[k] == ws[j2].token;
            assert(cs2[i].subscribers()[k] == ws[j2].token);
        }
    }
}

/// Replacing a caster by one with the same handle and subscribers keeps the tables
/// consistent.
proof fn lemma_same_links_caster(cs: Seq<Caster>, ws: Seq<Watcher>, next: usize, i: int, c2: Caster)
    requires
        tables_ok(cs, ws, next),
        0 <= i < cs.len(),
        c2.token_spec() == cs[i].token_spec(),
        c2.subscribers() == cs[i].subscribers(),
    ensures
        tables_ok(cs.update(i, c2), ws, next),
{
    let cs2 = cs.update(i, c2);
    assert forall|a: int| 0 <= a < cs2.len() implies (#[trigger] cs2[a].subscribers()).no_duplicates() by {
        assert(cs2[a].subscribers() == cs[a].subscribers());
    }
    assert forall|a: int, k: int|
        0 <= a < cs2.len() && 0 <= k < cs2[a].subscribers().len() implies has_watcher(
        ws,
        #[trigger] cs2[a].subscribers()[k],
        WatcherState::Watching(cs2[a].token_spec()),
    ) by {
        assert(cs2[a].subscribers()[k] == cs[a].subscribers()[k]);
    }
    assert forall|j2: int|
        0 <= j2 < ws.len() && (#[trigger] ws[j2].state) is Watching implies has_subscriber(
        cs2,
        ws[j2].state->Watching_0,
        ws[j2].token,
    ) by {
        let a = choose|a: int| 0 <= a < cs.len() && cs[a].token_spec() == ws[j2].state->Watching_0 && cs[a].subscribers().contains(ws[j2].token);
        assert(cs2[a].token_spec() == cs[a].token_spec() && cs2[a].subscribers() == cs[a].subscribers());
    }
}

/// Replacing a watcher by one with the same handle and the same state, or moving it
/// between states that watch nothing, keeps the tables consistent.
proof fn lemma_same_links_watcher(cs: Seq<Caster>, ws: Seq<Watcher>, next: usize, j: int, w2: Watcher)
    requires
        tables_ok(cs, ws, next),
        0 <= j < ws.len(),
        w2.token == ws[j].token,
        w2.state == ws[j].state || (!(w2.state is Watching) && !(ws[j].state is Watching)),
    ensures
        tables_ok(cs, ws.update(j, w2), next),
{
    let ws2 = ws.update(j, w2);
    assert forall|a: int, k: int|
        0 <= a < cs.len() && 0 <= k < cs[a].subscribers().len() implies has_watcher(
        ws2,
        #[trigger] cs[a].subscribers()[k],
        WatcherState::Watching(cs[a].token_spec()),
    ) by {
        let w = cs[a].subscribers()[k];
        let j2 = choose|j2: int| 0 <= j2 < ws.len() && ws[j2].token == w && ws[j2].state == WatcherState::Watching(cs[a].token_spec());
        assert(ws2[j2].token == w && ws2[j2].state == ws[j2].state);
    }
    assert forall|a: int, b: int| 0 <= a < b < ws2.len() implies ws2[a].token != ws2[b].token by {
        assert(ws2[a].token == ws[a].token && ws2[b].token == ws[b].token);
    }
    assert forall|a: int, b: int| 0 <= a < cs.len() && 0 <= b < ws2.len() implies cs[a].token_spec() != ws2[b].token by {
        assert(ws2[b].token == ws[b].token);
    }
    assert forall|b: int| 0 <= b < ws2.len() implies 2 <= #[trigger] ws2[b].token < next by {
        assert(ws2[b].token == ws[b].token);
    }
    assert forall|j2: int|
        0 <= j2 < ws2.len() && (#[trigger] ws2[j2].state) is Watching implies has_subscriber(
        cs,
        ws2[j2].state->Watching_0,
        ws2[j2].token,
    ) by {
        assert(ws2[j2].token == ws[j2].token && ws2[j2].state == ws[j2].state);
        assert(ws[j2].state is Watching);
    }
}

/// A new caster with a fresh handle and no subscribers keeps the tables consistent.
proof fn lemma_push_caster(cs: Seq<Caster>, ws: Seq<Watcher>, next: usize, c: Caster)
    requires
        tables_ok(cs, ws, next),
        c.token_spec() == next,
        2 <= next < usize::MAX,
        c.subscribers().len() == 0,
    ensures
        tables_ok(cs.push(c), ws, (next + 1) as usize),
{
    let cs2 = cs.push(c);
    assert forall|a: int| 0 <= a < cs2.len() implies (#[trigger] cs2[a].subscribers()).no_duplicates() by {
        if a < cs.len() {
            assert(cs2[a] == cs[a]);
        }
    }
    assert forall|a: int, k: int|
        0 <= a < cs2.len() && 0 <= k < cs2[a].subscribers().len() implies has_watcher(
        ws,
        #[trigger] cs2[a].subscribers()[k],
        WatcherState::Watching(cs2[a].token_spec()),
    ) by {
        assert(cs2[a] == cs[a]);
    }
    assert forall|j2: int|
        0 <= j2 < ws.len() && (#[trigger] ws[j2].state) is Watching implies has_subscriber(
        cs2,
        ws[j2].state->Watching_0,
        ws[j2].token,
    ) by {
        let a = choose|a: int| 0 <= a < cs.len() && cs[a].token_spec() == ws[j2].state->Watching_0 && cs[a].subscribers().contains(ws[j2].token);
        assert(cs2[a] == cs[a]);
    }
    assert forall|a: int, b: int| 0 <= a < b < cs2.len() implies cs2[a].token_spec() != cs2[b].token_spec() by {
        assert(cs2[a] == cs[a]);
        if b < cs.len() {
            assert(cs2[b] == cs[b]);
        }
    }
    assert forall|a: int, b: int| 0 <= a < cs2.len() && 0 <= b < ws.len() implies cs2[a].token_spec() != ws[b].token by {
        if a < cs.len() {
            assert(cs2[a] == cs[a]);
        }
    }
    assert forall|a: int| 0 <= a < cs2.len() implies 2 <= #[trigger] cs2[a].token_spec() < next + 1 by {
        if a < cs.len() {
            assert(cs2[a] == cs[a]);
        }
    }
}

/// A new watcher with a fresh handle that watches nothing keeps the tables consistent.
proof fn lemma_push_watcher(cs: Seq<Caster>, ws: Seq<Watcher>, next: usize, w: Watcher)
    requires
        tables_ok(cs, ws, next),
        w.token == next,
        2 <= next < usize::MAX,
        !(w.state is Watching),
    ensures
        tables_ok(cs, ws.push(w), (next + 1) as usize),
{
    let ws2 = ws.push(w);
    assert forall|a: int, k: int|
        0 <= a < cs.len() && 0 <= k < cs[a].subscribers().len() implies has_watcher(
        ws2,
        #[trigger] cs[a].subscribers()[k],
        WatcherState::Watching(cs[a].token_spec()),
    ) by {
        let x = cs[a].subscribers()[k];
        let j2 = choose|j2: int| 0 <= j2 < ws.len() && ws[j2].token == x && ws[j2].state == WatcherState::Watching(cs[a].token_spec());
        assert(ws2[j2] == ws[j2]);
    }
    assert forall|j2: int|
        0 <= j2 < ws2.len() && (#[trigger] ws2[j2].state) is Watching implies has_subscriber(
        cs,
        ws2[j2].state->Watching_0,
        ws2[j2].token,
    ) by {
        assert(j2 < ws.len());
        assert(ws2[j2] == ws[j2]);
        assert(ws[j2].state is Watching);
    }
    assert forall|a: int, b: int| 0 <= a < b < ws2.len() implies ws2[a].token != ws2[b].token by {
        assert(ws2[a] == ws[a]);
        if b < ws.len() {
            assert(ws2[b] == ws[b]);
        }
    }
    assert forall|a: int, b: int| 0 <= a < cs.len() && 0 <= b < ws2.len() implies cs[a].token_spec() != ws2[b].token by {
        if b < ws.len() {
            assert(ws2[b] == ws[b]);
        }
    }
    assert forall|b: int| 0 <= b < ws2.len() implies 2 <= #[trigger] ws2[b].token < next + 1 by {
        if b < ws.len() {
            assert(ws2[b] == ws[b]);
        }
    }
}

/// Dropping caster `i0` while every watcher it lists goes back to the menu keeps the
/// tables consistent.
proof fn lemma_remove_caster(
    cs: Seq<Caster>,
    ws: Seq<Watcher>,
    next: usize,
    i0: int,
    ws2: Seq<Watcher>,
)
    requires
        tables_ok(cs, ws, next),
        0 <= i0 < cs.len(),
        ws2.len() == ws.len(),
        forall|j: int| 0 <= j < ws.len() ==> (#[trigger] ws2[j]).token == ws[j].token,
        forall|j: int|
            0 <= j < ws.len() ==> if cs[i0].subscribers().contains(ws[j].token) {
                (#[trigger] ws2[j]).state == WatcherState::MainMenu
            } else {
                ws2[j].state == ws[j].state
            },
    ensures
        tables_ok(cs.remove(i0), ws2, next),
{
    let cs2 = cs.remove(i0);
    let subs = cs[i0].subscribers();
    assert forall|a: int| 0 <= a < cs2.len() implies (#[trigger] cs2[a].subscribers()).no_duplicates() by {
        let a2 = if a < i0 { a } else { a + 1 };
        assert(cs2[a] == cs[a2]);
    }
    assert forall|a: int, k: int|
        0 <= a < cs2.len() && 0 <= k < cs2[a].subscribers().len() implies has_watcher(
        ws2,
        #[trigger] cs2[a].subscribers()[k],
        WatcherState::Watching(cs2[a].token_spec()),
    ) by {
        let a2 = if a < i0 { a } else { a + 1 };
        assert(cs2[a] == cs[a2]);
        let x = cs[a2].subscribers()[k];
        assert(has_watcher(ws, cs[a2].subscribers()[k], WatcherState::Watching(cs[a2].token_spec())));
        let j2 = choose|j2: int| 0 <= j2 < ws.len() && ws[j2].token == x && ws[j2].state == WatcherState::Watching(cs[a2].token_spec());
        if subs.contains(x) {
            let k2 = choose|k2: int| 0 <= k2 < subs.len() && subs[k2] == x;
            assert(has_watcher(ws, cs[i0].subscribers()[k2], WatcherState::Watching(cs[i0].token_spec())));
            let j3 = choose|j3: int| 0 <= j3 < ws.len() && ws[j3].token == x && ws[j3].state == WatcherState::Watching(cs[i0].token_spec());
            assert(j3 == j2);
            assert(false);
        }
        assert(ws2[j2].token == ws[j2].token);
        assert(ws2[j2].state == ws[j2].state);
    }
    assert forall|j2: int|
        0 <= j2 < ws2.len() && (#[trigger] ws2[j2].state) is Watching implies has_subscriber(
        cs2,
        ws2[j2].state->Watching_0,
        ws2[j2].token,
    ) by {
        assert(ws2[j2].token == ws[j2].token);
        if subs.contains(ws[j2].token) {
            assert(ws2[j2].state == WatcherState::MainMenu);
        }
        assert(ws2[j2].state == ws[j2].state);
        assert(ws[j2].state is Watching);
        let a = choose|a: int| 0 <= a < cs.len() && cs[a].token_spec() == ws[j2].state->Watching_0 && cs[a].subscribers().contains(ws[j2].token);
        assert(a != i0);
        let a2 = if a < i0 { a } else { a - 1 };
        assert(cs2[a2] == cs[a]);
    }
    assert forall|a: int, b: int| 0 <= a < b < cs2.len() implies cs2[a].token_spec() != cs2[b].token_spec() by {
        let a2 = if a < i0 { a } else { a + 1 };
        let b2 = if b < i0 { b } else { b + 1 };
        assert(cs2[a] == cs[a2] && cs2[b] == cs[b2]);
    }
    assert forall|a: int, b: int| 0 <= a < b < ws2.len() implies ws2[a].token != ws2[b].token by {
        assert(ws2[a].token == ws[a].token && ws2[b].token == ws[b].token);
    }
    assert forall|a: int, b: int| 0 <= a < cs2.len() && 0 <= b < ws2.len() implies cs2[a].token_spec() != ws2[b].token by {
        let a2 = if a < i0 { a } else { a + 1 };
        assert(cs2[a] == cs[a2]);
        assert(ws2[b].token == ws[b].token);
    }
    assert forall|a: int| 0 <= a < cs2.len() implies 2 <= #[trigger] cs2[a].token_spec() < next by {
        let a2 = if a < i0 { a } else { a + 1 };
        assert(cs2[a] == cs[a2]);
    }
    assert forall|b: int| 0 <= b < ws2.len() implies 2 <= #[trigger] ws2[b].token < next by {
        assert(ws2[b].token == ws[b].token);
    }
}

/// Watchers after the caster that listed `subs` is gone: those it listed are back at
/// the menu, at their offsets pinned to a list of `l` casters.
pub open spec fn reset_watchers(ws: Seq<Watcher>, subs: Seq<usize>, l: int) -> Seq<Watcher> {
    ws.map_values(
        |w: Watcher|
            if subs.contains(w.token) {
                Watcher {
                    state: WatcherState::MainMenu,
                    offset: pinned_offset(w.offset as int, l) as usize,
                    token: w.token,
                }
            } else {
                w
            },
    )
}

/// The menus sent to the watchers `subs` of a caster that is gone, in order: each is
/// drawn from the entries `es` with `ws.len()` watchers at the watcher's offset.
pub open spec fn reset_sends(
    ws: Seq<Watcher>,
    subs: Seq<usize>,
    es: Seq<MenuEntryView>,
    now: Timestamp,
) -> Seq<ActionView> {
    Seq::new(
        subs.len(),
        |k: int|
            ActionView::Send(
                subs[k],
                menu_text(es, ws.len(), ws[watcher_pos(ws, subs[k])].offset as int, now),
            ),
    )
}

/// Output of a caster sent on to each of its subscribers, unless there is none.
pub open spec fn relay_sends(subs: Seq<usize>, payload: Seq<u8>) -> Seq<ActionView> {
    if payload.len() == 0 {
        Seq::empty()
    } else {
        subs.map_values(|w: usize| ActionView::Send(w, payload))
    }
}

/// The route of a readiness event on `token`, which belongs to `kind`: the listeners
/// accept; a readable event reads; a hangup without error disconnects; the rest is
/// ignored, as is a handle that belongs to no client.
pub open spec fn route_spec(
    kind: Option<Client>,
    token: usize,
    readable: bool,
    hup: bool,
    error: bool,
) -> Route {
    if token == CASTER {
        Route::AcceptCaster
    } else if token == WATCHER {
        Route::AcceptWatcher
    } else if kind is None {
        Route::Ignore
    } else if readable && !hup && !error {
        if kind == Some(Client::Caster) {
            Route::ReadCaster
        } else {
            Route::ReadWatcher
        }
    } else if hup && !error {
        Route::Disconnect
    } else {
        Route::Ignore
    }
}

/// Two watcher tables with the same handles in the same places find a handle at the
/// same place.
proof fn lemma_watcher_pos_same_tokens(ws1: Seq<Watcher>, ws2: Seq<Watcher>, h: usize)
    requires
        ws1.len() == ws2.len(),
        forall|j: int| 0 <= j < ws1.len() ==> (#[trigger] ws1[j]).token == ws2[j].token,
    ensures
        watcher_pos(ws1, h) == watcher_pos(ws2, h),
{
    lemma_watcher_pos(ws1, h);
    lemma_watcher_pos(ws2, h);
    let pos1 = watcher_pos(ws1, h);
    let pos2 = watcher_pos(ws2, h);
    if pos1 < pos2 {
        assert(ws2[pos1].token == ws1[pos1].token);
    } else if pos2 < pos1 {
        assert(ws2[pos2].token == ws1[pos2].token);
    }
}

/// How caster `i` of `cs` taking `input` at `now` moved the tables to `cs2` and `ws2`
/// and the store from `a` to `a2`, with actions `acts`, when the caster became `c2`
/// and answered `res`: on `Ok(k)` the input from `k` on goes to every subscriber; on
/// `Err` the caster is dropped and its watchers go back to the menu.
pub open spec fn read_outcome(
    cs: Seq<Caster>,
    ws: Seq<Watcher>,
    i: int,
    c2: Caster,
    res: Result<usize, AuthResults>,
    a: Map<Seq<char>, (Seq<u8>, Seq<u8>)>,
    a2: Map<Seq<char>, (Seq<u8>, Seq<u8>)>,
    cs2: Seq<Caster>,
    ws2: Seq<Watcher>,
    acts: Seq<ActionView>,
    input: Seq<u8>,
    now: Timestamp,
) -> bool {
    &&& input_outcome(cs[i], c2, a, a2, input, now, res)
    &&& res matches Ok(k) ==> {
        &&& cs2 == cs.update(i, c2)
        &&& ws2 == ws
        &&& acts == relay_sends(cs[i].subscribers(), input.subrange(k as int, input.len() as int))
    }
    &&& res is Err ==> {
        &&& cs2 == cs.remove(i)
        &&& ws2 == reset_watchers(ws, cs[i].subscribers(), menu_entries(cs2).len() as int)
        &&& acts == seq![ActionView::Close(cs[i].token_spec())] + reset_sends(
            ws,
            cs[i].subscribers(),
            menu_entries(cs2),
            now,
        )
    }
}

/// Sends `payload` to each of `subs`, unless it is empty.
fn relay_to(subs: &Vec<usize>, payload: &[u8]) -> (r: Vec<Action>)
    ensures
        actions_view(r@) == relay_sends(subs@, payload@),
{
    let mut actions: Vec<Action> = Vec::new();
    if payload.len() == 0 {
        assert(actions_view(actions@) =~= Seq::<ActionView>::empty());
        return actions;
    }
    let mut m: usize = 0;
    while m < subs.len()
        invariant
            m <= subs@.len(),
            actions_view(actions@) == subs@.subrange(0, m as int).map_values(
                |w: usize| ActionView::Send(w, payload@),
            ),
        decreases subs@.len() - m,
    {
        let mut copy: Vec<u8> = Vec::new();
        copy.extend_from_slice(payload);
        assert(copy@ =~= payload@);
        let ghost before = actions@;
        actions.push(Action::Send(subs[m], copy));
        assert(actions_view(actions@) =~= actions_view(before).push(
            ActionView::Send(subs@[m as int], payload@),
        ));
        assert(subs@.subrange(0, m + 1) =~= subs@.subrange(0, m as int).push(subs@[m as int]));
        assert(actions_view(actions@) =~= subs@.subrange(0, m + 1).map_values(
            |w: usize| ActionView::Send(w, payload@),
        ));
        m += 1;
    }
    assert(subs@.subrange(0, subs@.len() as int) =~= subs@);
    actions
}

/// How `read_caster` took `t` to `t2` with actions `acts`: nothing happens for a handle
/// that is no caster; else the caster takes the input as `read_outcome` says.
pub open spec fn read_caster_outcome(
    t: Termcastd,
    t2: Termcastd,
    token: usize,
    input: Seq<u8>,
    now: Timestamp,
    acts: Seq<ActionView>,
) -> bool {
    let cs = t.casters_spec();
    let ws = t.watchers_spec();
    let i = caster_pos(cs, token);
    if i == cs.len() {
        &&& t2.casters_spec() == cs
        &&& t2.watchers_spec() == ws
        &&& t2.auth_spec() == t.auth_spec()
        &&& acts.len() == 0
    } else {
        exists|c2: Caster, res: Result<usize, AuthResults>|
            read_outcome(
                cs,
                ws,
                i,
                c2,
                res,
                t.auth_spec(),
                t2.auth_spec(),
                t2.casters_spec(),
                t2.watchers_spec(),
                acts,
                input,
                now,
            )
    }
}

/// Every listed menu entry stands for a caster of the table with its handle.
proof fn lemma_entry_in_table(cs: Seq<Caster>, idx: int)
    requires
        0 <= idx < menu_entries(cs).len(),
    ensures
        caster_pos(cs, menu_entries(cs)[idx].token) < cs.len(),
        cs[caster_pos(cs, menu_entries(cs)[idx].token)].token_spec() == menu_entries(cs)[idx].token,
{
    let p = |c: Caster| c.name_spec() is Some;
    let f = cs.filter(p);
    let h = menu_entries(cs)[idx].token;
    assert(menu_entries(cs)[idx] == entry_of(f[idx]));
    assert(f.contains(f[idx]));
    f.lemma_filter_contains_rev(p, f[idx]);
    cs.lemma_filter_contains_rev(p, f[idx]);
    let i = choose|i: int| 0 <= i < cs.len() && cs[i] == f[idx];
    lemma_caster_pos(cs, h);
    assert(cs[i].token_spec() == h);
}

/// How a watcher in the menu, at `ws[j]`, takes `input` at `now`: each byte before the
/// first key from `a` to `q` redraws the menu; `q` drops the watcher; a key from `a` to
/// `p` attaches it to the caster listed at its offset plus the key's place, sending
/// clear-screen, cursor-home and that caster's scrollback, or redraws the menu when no
/// caster is listed there. The rest of the input is dropped.
pub open spec fn menu_outcome(
    cs: Seq<Caster>,
    ws: Seq<Watcher>,
    j: int,
    cs2: Seq<Caster>,
    ws2: Seq<Watcher>,
    input: Seq<u8>,
    now: Timestamp,
    acts: Seq<ActionView>,
) -> bool {
    let w = ws[j];
    let token = w.token;
    let es = menu_entries(cs);
    let n = ws.len();
    let t = first_menu_key(input);
    let pre = if t > 0 {
        seq![ActionView::Send(token, repeat_bytes(menu_text(es, n, w.offset as int, now), t as nat))]
    } else {
        Seq::empty()
    };
    let o1 = if t > 0 {
        pinned_offset(w.offset as int, es.len() as int) as usize
    } else {
        w.offset
    };
    if t == input.len() {
        &&& cs2 == cs
        &&& ws2 == ws.update(j, (Watcher { offset: o1, ..w }))
        &&& acts == pre
    } else if input[t] == 113 {
        &&& cs2 == cs
        &&& ws2 == ws.remove(j)
        &&& acts == pre.push(ActionView::Close(token))
    } else {
        let idx = saturating_sum(o1, input[t] - 97);
        if idx >= es.len() {
            &&& cs2 == cs
            &&& ws2 == ws.update(
                j,
                (Watcher { offset: pinned_offset(o1 as int, es.len() as int) as usize, ..w }),
            )
            &&& acts == pre.push(ActionView::Send(token, menu_text(es, n, o1 as int, now)))
        } else {
            let h = es[idx as int].token;
            let ci = caster_pos(cs, h);
            &&& ci < cs.len()
            &&& cs2 == cs.update(ci, cs2[ci])
            &&& same_but_subscribers(cs2[ci], cs[ci])
            &&& cs2[ci].subscribers() == cs[ci].subscribers().push(token)
            &&& ws2 == ws.update(
                j,
                (Watcher { state: WatcherState::Watching(h), offset: o1, token: token }),
            )
            &&& acts == pre.push(
                ActionView::Send(token, clear_screen_bytes() + reset_cursor_bytes() + cs[ci].history()),
            )
        }
    }
}

/// How watcher `ws[j]`, watching caster `h`, becomes `cs2`/`ws2` with actions `acts`:
/// it leaves the caster for the menu, drawn after leaving, when it presses `q`; else
/// nothing happens.
pub open spec fn back_to_menu_outcome(
    cs: Seq<Caster>,
    ws: Seq<Watcher>,
    j: int,
    cs2: Seq<Caster>,
    ws2: Seq<Watcher>,
    now: Timestamp,
    acts: Seq<ActionView>,
) -> bool {
    let w = ws[j];
    let es2 = menu_entries(cs2);
    &&& match w.state {
        WatcherState::Watching(h) => {
            let ci = caster_pos(cs, h);
            &&& ci < cs.len()
            &&& cs2 == cs.update(ci, cs2[ci])
            &&& same_but_subscribers(cs2[ci], cs[ci])
            &&& cs2[ci].subscribers() == without(cs[ci].subscribers(), w.token)
        },
        _ => cs2 == cs,
    }
    &&& ws2 == ws.update(
        j,
        (Watcher {
            state: WatcherState::MainMenu,
            offset: pinned_offset(w.offset as int, es2.len() as int) as usize,
            token: w.token,
        }),
    )
    &&& acts == seq![ActionView::Send(w.token, menu_text(es2, ws.len(), w.offset as int, now))]
}

/// How `read_watcher` took `t` to `t2` with actions `acts`.
pub open spec fn read_watcher_outcome(
    t: Termcastd,
    t2: Termcastd,
    token: usize,
    input: Seq<u8>,
    now: Timestamp,
    acts: Seq<ActionView>,
) -> bool {
    let cs = t.casters_spec();
    let ws = t.watchers_spec();
    let j = watcher_pos(ws, token);
    let unchanged = t2.casters_spec() == cs && t2.watchers_spec() == ws && acts.len() == 0;
    if j == ws.len() {
        unchanged
    } else {
        match ws[j].state {
            WatcherState::MainMenu => menu_outcome(
                cs,
                ws,
                j,
                t2.casters_spec(),
                t2.watchers_spec(),
                input,
                now,
                acts,
            ),
            WatcherState::Watching(_) => if index_of(input, 113) < input.len() {
                back_to_menu_outcome(cs, ws, j, t2.casters_spec(), t2.watchers_spec(), now, acts)
            } else {
                unchanged
            },
            _ => unchanged,
        }
    }
}

/// The bytes that `acts` send to handle `w`, in order.
pub open spec fn sent_to(acts: Seq<ActionView>, w: usize) -> Seq<u8>
    decreases acts.len(),
{
    if acts.len() == 0 {
        Seq::empty()
    } else {
        sent_to(acts.drop_last(), w) + match acts.last() {
            ActionView::Send(h, b) => if h == w {
                b
            } else {
                Seq::empty()
            },
            _ => Seq::empty(),
        }
    }
}

/// The bytes a run of action lists sends to handle `w`, in order.
pub open spec fn sent_over(acts: Seq<Seq<ActionView>>, w: usize) -> Seq<u8>
    decreases acts.len(),
{
    if acts.len() == 0 {
        Seq::empty()
    } else {
        sent_over(acts.drop_last(), w) + sent_to(acts.last(), w)
    }
}

proof fn lemma_sent_to_each(subs: Seq<usize>, b: Seq<u8>, w: usize)
    requires
        subs.no_duplicates(),
    ensures
        sent_to(subs.map_values(|x: usize| ActionView::Send(x, b)), w) == if subs.contains(w) {
            b
        } else {
            Seq::empty()
        },
    decreases subs.len(),
{
    let m = subs.map_values(|x: usize| ActionView::Send(x, b));
    if subs.len() > 0 {
        let t = subs.drop_last();
        assert(t.no_duplicates());
        assert(m.drop_last() =~= t.map_values(|x: usize| ActionView::Send(x, b)));
        lemma_sent_to_each(t, b, w);
        if subs.last() == w {
            if t.contains(w) {
                let k = choose|k: int| 0 <= k < t.len() && t[k] == w;
                assert(subs[k] == subs[subs.len() - 1]);
            }
            assert(subs[subs.len() - 1] == w);
        } else {
            if subs.contains(w) {
                let k = choose|k: int| 0 <= k < subs.len() && subs[k] == w;
                assert(t[k] == w);
            }
            if t.contains(w) {
                let k = choose|k: int| 0 <= k < t.len() && t[k] == w;
                assert(subs[k] == w);
            }
            assert(sent_to(m, w) =~= sent_to(m.drop_last(), w));
        }
    } else {
        assert(sent_to(m, w) =~= Seq::<u8>::empty());
    }
}

/// How `handle_disconnect` took `t` to `t2` with actions `acts`: a caster is dropped
/// and every watcher it listed goes back to the menu, drawn without it; a watcher is
/// detached from the caster it watches and dropped; an unknown handle changes nothing.
pub open spec fn disconnect_outcome(
    t: Termcastd,
    t2: Termcastd,
    token: usize,
    now: Timestamp,
    acts: Seq<ActionView>,
) -> bool {
    let cs = t.casters_spec();
    let ws = t.watchers_spec();
    let i = caster_pos(cs, token);
    let j = watcher_pos(ws, token);
    &&& i < cs.len() ==> {
        &&& t2.casters_spec() == cs.remove(i)
        &&& t2.watchers_spec() == reset_watchers(
            ws,
            cs[i].subscribers(),
            menu_entries(t2.casters_spec()).len() as int,
        )
        &&& acts == seq![ActionView::Close(token)] + reset_sends(
            ws,
            cs[i].subscribers(),
            menu_entries(t2.casters_spec()),
            now,
        )
    }
    &&& i == cs.len() && j < ws.len() ==> {
        &&& t2.watchers_spec() == ws.remove(j)
        &&& acts == seq![ActionView::Close(token)]
        &&& match ws[j].state {
            WatcherState::Watching(h) => {
                let ci = caster_pos(cs, h);
                let c2 = t2.casters_spec()[ci];
                &&& ci < cs.len()
                &&& t2.casters_spec() == cs.update(ci, c2)
                &&& same_but_subscribers(c2, cs[ci])
                &&& c2.subscribers() == without(cs[ci].subscribers(), token)
            },
            _ => t2.casters_spec() == cs,
        }
    }
    &&& i == cs.len() && j == ws.len() ==> {
        &&& t2.casters_spec() == cs
        &&& t2.watchers_spec() == ws
        &&& acts.len() == 0
    }
}

/// The relay's state: every connected caster and watcher, and the credential store.
pub struct Termcastd {
    casters: Vec<Caster>,
    watchers: Vec<Watcher>,
    caster_auth: CasterAuth,
    next_token_id: usize,
}

impl Termcastd {
    /// The caster table.
    pub closed spec fn casters_spec(&self) -> Seq<Caster> {
        self.casters@
    }

    /// The watcher table.
    pub closed spec fn watchers_spec(&self) -> Seq<Watcher> {
        self.watchers@
    }

    /// The credential store.
    pub closed spec fn auth_spec(&self) -> Map<Seq<char>, (Seq<u8>, Seq<u8>)> {
        self.caster_auth@
    }

    /// The next handle to hand out.
    pub closed spec fn next_token_spec(&self) -> usize {
        self.next_token_id
    }

    /// The tables are consistent: unique handles, well-formed sessions, and the edges
    /// between casters and watchers agree on both sides.
    pub closed spec fn wf(&self) -> bool {
        &&& self.caster_auth.wf()
        &&& self.casters_wf()
        &&& tables_ok(self.casters@, self.watchers@, self.next_token_id)
        &&& self.next_token_id >= 2
    }

    /// Every caster session is well-formed.
    pub closed spec fn casters_wf(&self) -> bool {
        forall|i: int| 0 <= i < self.casters@.len() ==> (#[trigger] self.casters@[i]).wf()
    }

    /// The menu a watcher at `offset` is shown at `now`.
    pub open spec fn menu_at(&self, offset: int, now: Timestamp) -> Seq<u8> {
        menu_text(
            menu_entries(self.casters_spec()),
            self.watchers_spec().len(),
            offset,
            now,
        )
    }

    /// A relay with no clients.
    pub fn new() -> (r: Self)
        ensures
            r.wf(),
            r.casters_spec() == Seq::<Caster>::empty(),
            r.watchers_spec() == Seq::<Watcher>::empty(),
            r.auth_spec() == Map::<Seq<char>, (Seq<u8>, Seq<u8>)>::empty(),
            r.next_token_spec() == 2,
    {
        Termcastd {
            casters: Vec::new(),
            watchers: Vec::new(),
            caster_auth: CasterAuth::new(),
            next_token_id: 2,
        }
    }

    /// Hands out a fresh handle, or `None` once they are used up.
    fn next_token(&mut self) -> (r: Option<usize>)
        ensures
            final(self).casters == old(self).casters,
            final(self).watchers == old(self).watchers,
            final(self).caster_auth == old(self).caster_auth,
            old(self).next_token_id == usize::MAX ==> r is None && final(self).next_token_id
                == old(self).next_token_id,
            old(self).next_token_id < usize::MAX ==> r == Some(old(self).next_token_id) && final(self).next_token_id == old(self).next_token_id + 1,
    {
        if self.next_token_id == usize::MAX {
            return None;
        }
        let token = self.next_token_id;
        self.next_token_id = self.next_token_id + 1;
        Some(token)
    }

    /// A snapshot of the authenticated casters, in table order, and the number of
    /// connected watchers.
    pub fn menu_view(&self) -> (r: MenuView)
        requires
            self.casters_wf(),
        ensures
            entry_views(r.caster_entries@) == menu_entries(self.casters_spec()),
            r.total_watchers == self.watchers_spec().len(),
    {
        let mut entries: Vec<crate::caster::CasterMenuEntry> = Vec::new();
        let mut i: usize = 0;
        while i < self.casters.len()
            invariant
                self.casters_wf(),
                i <= self.casters@.len(),
                entry_views(entries@) == menu_entries(self.casters@.subrange(0, i as int)),
            decreases self.casters@.len() - i,
        {
            let ghost before = entries@;
            let ghost s = self.casters@.subrange(0, i + 1);
            assert(self.casters@[i as int].wf());
            let e = self.casters[i].menu_entry();
            proof {
                reveal(Seq::filter);
                assert(s.drop_last() =~= self.casters@.subrange(0, i as int));
                assert(s.last() == self.casters@[i as int]);
            }
            match e {
                Some(e) => {
                    entries.push(e);
                    assert(entry_views(entries@) =~= entry_views(before).push(e@));
                    assert(entry_views(entries@) =~= menu_entries(s));
                },
                None => {
                    assert(menu_entries(s) =~= menu_entries(self.casters@.subrange(0, i as int)));
                },
            }
            i += 1;
        }
        assert(self.casters@.subrange(0, self.casters@.len() as int) =~= self.casters@);
        MenuView { caster_entries: entries, total_watchers: self.watchers.len() }
    }

    /// Where the caster with handle `h` sits.
    fn find_caster(&self, h: usize) -> (r: usize)
        ensures
            r == caster_pos(self.casters@, h),
    {
        proof {
            lemma_caster_pos(self.casters@, h);
        }
        let mut i: usize = 0;
        while i < self.casters.len()
            invariant
                i <= self.casters@.len(),
                forall|j: int| 0 <= j < i ==> self.casters@[j].token_spec() != h,
                caster_pos(self.casters@, h) >= i,
                caster_pos(self.casters@, h) <= self.casters@.len(),
                forall|j: int| 0 <= j < caster_pos(self.casters@, h) ==> self.casters@[j].token_spec() != h,
                caster_pos(self.casters@, h) < self.casters@.len() ==> self.casters@[caster_pos(
                    self.casters@,
                    h,
                )].token_spec() == h,
            decreases self.casters@.len() - i,
        {
            if self.casters[i].token() == h {
                return i;
            }
            i += 1;
        }
        i
    }

    /// Where the watcher with handle `h` sits.
    fn find_watcher(&self, h: usize) -> (r: usize)
        ensures
            r == watcher_pos(self.watchers@, h),
    {
        proof {
            lemma_watcher_pos(self.watchers@, h);
        }
        let mut i: usize = 0;
        while i < self.watchers.len()
            invariant
                i <= self.watchers@.len(),
                forall|j: int| 0 <= j < i ==> self.watchers@[j].token != h,
                watcher_pos(self.watchers@, h) >= i,
                watcher_pos(self.watchers@, h) <= self.watchers@.len(),
                forall|j: int| 0 <= j < watcher_pos(self.watchers@, h) ==> self.watchers@[j].token != h,
                watcher_pos(self.watchers@, h) < self.watchers@.len() ==> self.watchers@[watcher_pos(
                    self.watchers@,
                    h,
                )].token == h,
            decreases self.watchers@.len() - i,
        {
            if self.watchers[i].token == h {
                return i;
            }
            i += 1;
        }
        i
    }

    /// Which kind of client `token` belongs to, if any.
    pub fn client_kind(&self, token: usize) -> (r: Option<Client>)
        ensures
            r == if caster_pos(self.casters_spec(), token) < self.casters_spec().len() {
                Some(Client::Caster)
            } else if watcher_pos(self.watchers_spec(), token) < self.watchers_spec().len() {
                Some(Client::Watcher)
            } else {
                None::<Client>
            },
    {
        if self.find_caster(token) < self.casters.len() {
            Some(Client::Caster)
        } else if self.find_watcher(token) < self.watchers.len() {
            Some(Client::Watcher)
        } else {
            None
        }
    }

    /// How to handle a readiness event on `token`.
    pub fn ready(&self, token: usize, readable: bool, hup: bool, error: bool) -> (r: Route)
        ensures
            r == route_spec(
                if caster_pos(self.casters_spec(), token) < self.casters_spec().len() {
                    Some(Client::Caster)
                } else if watcher_pos(self.watchers_spec(), token) < self.watchers_spec().len() {
                    Some(Client::Watcher)
                } else {
                    None::<Client>
                },
                token,
                readable,
                hup,
                error,
            ),
    {
        if token == CASTER {
            return Route::AcceptCaster;
        }
        if token == WATCHER {
            return Route::AcceptWatcher;
        }
        match self.client_kind(token) {
            None => Route::Ignore,
            Some(client) => {
                if readable && !hup && !error {
                    match client {
                        Client::Caster => Route::ReadCaster,
                        Client::Watcher => Route::ReadWatcher,
                    }
                } else if hup && !error {
                    Route::Disconnect
                } else {
                    Route::Ignore
                }
            },
        }
    }

    /// Registers a caster that connected at `now` under a fresh handle; `None` once
    /// handles are used up.
    pub fn new_caster(&mut self, now: Timestamp) -> (r: Option<usize>)
        requires
            old(self).wf(),
        ensures
            final(self).wf(),
            final(self).watchers_spec() == old(self).watchers_spec(),
            final(self).auth_spec() == old(self).auth_spec(),
            r is None <==> old(self).next_token_spec() == usize::MAX,
            r is None ==> final(self).casters_spec() == old(self).casters_spec()
                && final(self).next_token_spec() == old(self).next_token_spec(),
            r matches Some(h) ==> {
                let c = final(self).casters_spec().last();
                &&& h == old(self).next_token_spec()
                &&& final(self).next_token_spec() == h + 1
                &&& final(self).casters_spec() == old(self).casters_spec().push(c)
                &&& c.token_spec() == h
                &&& c.name_spec() is None
                &&& c.history() == Seq::<u8>::empty()
                &&& c.subscribers() == Seq::<usize>::empty()
                &&& c.connected_spec() == now
                &&& c.last_byte_spec() == now
            },
    {
        match self.next_token() {
            None => None,
            Some(token) => {
                let caster = Caster::new(token, now);
                proof {
                    lemma_push_caster(self.casters@, self.watchers@, token, caster);
                }
                self.casters.push(caster);
                assert(self.casters_wf()) by {
                    assert forall|i: int| 0 <= i < self.casters@.len() implies (
                    #[trigger] self.casters@[i]).wf() by {
                        if i < old(self).casters@.len() {
                            assert(self.casters@[i] == old(self).casters@[i]);
                            assert(old(self).casters_wf());
                        }
                    }
                }
                Some(token)
            },
        }
    }

    /// Registers a watcher under a fresh handle and returns it with what the watcher is
    /// sent first: the telnet negotiation for character mode and for server echo, then
    /// the menu. `None` once handles are used up.
    pub fn new_watcher(&mut self, now: Timestamp) -> (r: Option<(usize, Vec<u8>)>)
        requires
            old(self).wf(),
        ensures
            final(self).wf(),
            final(self).casters_spec() == old(self).casters_spec(),
            final(self).auth_spec() == old(self).auth_spec(),
            r is None <==> old(self).next_token_spec() == usize::MAX,
            r is None ==> final(self).watchers_spec() == old(self).watchers_spec()
                && final(self).next_token_spec() == old(self).next_token_spec(),
            r matches Some((h, bytes)) ==> {
                &&& h == old(self).next_token_spec()
                &&& final(self).next_token_spec() == h + 1
                &&& final(self).watchers_spec() == old(self).watchers_spec().push(
                    (Watcher { state: WatcherState::MainMenu, offset: 0, token: h }),
                )
                &&& bytes@ == linemode_bytes() + local_echo_bytes() + final(self).menu_at(0, now)
            },
    {
        match self.next_token() {
            None => None,
            Some(token) => {
                let watcher = Watcher { state: WatcherState::MainMenu, offset: 0, token: token };
                proof {
                    lemma_push_watcher(self.casters@, self.watchers@, token, watcher);
                }
                self.watchers.push(watcher);
                let view = self.menu_view();
                let (menu, _) = view.render(0, now);
                let mut out: Vec<u8> = Vec::new();
                out.extend_from_slice(&disable_linemode());
                out.extend_from_slice(&disable_local_echo());
                out.extend_from_slice(menu.as_slice());
                assert(out@ =~= linemode_bytes() + local_echo_bytes() + self.menu_at(0, now));
                Some((token, out))
            },
        }
    }

    /// Sends `payload` to every subscriber of caster `i`.
    fn relay_output(&self, i: usize, payload: &[u8]) -> (r: Vec<Action>)
        requires
            i < self.casters@.len(),
        ensures
            actions_view(r@) == relay_sends(self.casters@[i as int].subscribers(), payload@),
    {
        relay_to(self.casters[i].each_watcher(), payload)
    }

    /// Drops caster `i` and sends every watcher it listed back to the menu, drawn from
    /// the table without it.
    fn drop_caster(&mut self, i: usize, now: Timestamp) -> (r: Vec<Action>)
        requires
            old(self).wf(),
            i < old(self).casters@.len(),
        ensures
            final(self).wf(),
            final(self).caster_auth@ == old(self).caster_auth@,
            final(self).next_token_id == old(self).next_token_id,
            final(self).casters@ == old(self).casters@.remove(i as int),
            final(self).watchers@ == reset_watchers(
                old(self).watchers@,
                old(self).casters@[i as int].subscribers(),
                menu_entries(final(self).casters@).len() as int,
            ),
            actions_view(r@) == seq![ActionView::Close(old(self).casters@[i as int].token_spec())]
                + reset_sends(
                old(self).watchers@,
                old(self).casters@[i as int].subscribers(),
                menu_entries(final(self).casters@),
                now,
            ),
    {
        let ghost cs = self.casters@;
        let ghost ws = self.watchers@;
        let ghost next = self.next_token_id;
        let token = self.casters[i].token();
        let caster = self.casters.remove(i);
        assert(self.casters_wf()) by {
            assert forall|a: int| 0 <= a < self.casters@.len() implies (
            #[trigger] self.casters@[a]).wf() by {
                let a2 = if a < i { a } else { a + 1 };
                assert(self.casters@[a] == cs[a2]);
                assert(cs[a2].wf());
            }
        }
        let subs = caster.each_watcher();
        let view = self.menu_view();
        let ghost es = menu_entries(self.casters@);
        let ghost l = es.len() as int;
        let mut actions: Vec<Action> = Vec::new();
        actions.push(Action::Close(token));
        assert(subs@ == cs[i as int].subscribers());
        let mut k: usize = 0;
        while k < subs.len()
            invariant
                self.casters@ == cs.remove(i as int),
                self.casters_wf(),
                self.caster_auth@ == old(self).caster_auth@,
                self.caster_auth.wf(),
                self.next_token_id == next,
                self.watchers@.len() == ws.len(),
                k <= subs@.len(),
                subs@ == cs[i as int].subscribers(),
                token == cs[i as int].token_spec(),
                es == menu_entries(self.casters@),
                l == es.len(),
                entry_views(view.caster_entries@) == es,
                view.total_watchers == ws.len(),
                forall|m: int|
                    0 <= m < subs@.len() ==> has_watcher(
                        ws,
                        #[trigger] subs@[m],
                        WatcherState::Watching(token),
                    ),
                forall|a: int, b: int| 0 <= a < b < ws.len() ==> ws[a].token != ws[b].token,
                forall|j: int|
                    0 <= j < ws.len() ==> (#[trigger] self.watchers@[j]) == if subs@.subrange(
                        0,
                        k as int,
                    ).contains(ws[j].token) {
                        (Watcher {
                            state: WatcherState::MainMenu,
                            offset: pinned_offset(ws[j].offset as int, l) as usize,
                            token: ws[j].token,
                        })
                    } else {
                        ws[j]
                    },
                actions_view(actions@) == seq![ActionView::Close(token)] + reset_sends(
                    ws,
                    subs@.subrange(0, k as int),
                    es,
                    now,
                ),
            decreases subs@.len() - k,
        {
            let w = subs[k];
            let j = self.find_watcher(w);
            proof {
                assert(forall|jj: int| 0 <= jj < ws.len() ==> (#[trigger] self.watchers@[jj]).token == ws[jj].token);
                lemma_watcher_pos_same_tokens(self.watchers@, ws, w);
                lemma_watcher_pos(ws, w);
                assert(has_watcher(ws, subs@[k as int], WatcherState::Watching(token)));
                let j2 = choose|j2: int| 0 <= j2 < ws.len() && ws[j2].token == w && ws[j2].state == WatcherState::Watching(token);
                assert(j <= j2);
                crate::menu::lemma_rerender_stable(es, ws.len(), ws[j as int].offset as int, now);
            }
            let mut watcher = self.watchers[j];
            watcher.state = WatcherState::MainMenu;
            let mut out: Vec<u8> = Vec::new();
            watcher.send_menu(&view, now, &mut out);
            self.watchers.set(j, watcher);
            let ghost before = actions@;
            actions.push(Action::Send(w, out));
            proof {
                let s1 = subs@.subrange(0, k as int);
                let s2 = subs@.subrange(0, k + 1);
                assert(s2 =~= s1.push(w));
                assert forall|jj: int| 0 <= jj < ws.len() implies (#[trigger] self.watchers@[jj]) == if s2.contains(ws[jj].token) {
                        (Watcher {
                            state: WatcherState::MainMenu,
                            offset: pinned_offset(ws[jj].offset as int, l) as usize,
                            token: ws[jj].token,
                        })
                    } else {
                        ws[jj]
                    } by {
                    if jj == j {
                        assert(s2[k as int] == ws[jj].token);
                    } else {
                        assert(ws[jj].token != w);
                        if s2.contains(ws[jj].token) {
                            let m = choose|m: int| 0 <= m < s2.len() && s2[m] == ws[jj].token;
                            assert(s1[m] == ws[jj].token);
                        }
                        if s1.contains(ws[jj].token) {
                            let m = choose|m: int| 0 <= m < s1.len() && s1[m] == ws[jj].token;
                            assert(s2[m] == ws[jj].token);
                        }
                    }
                }
                assert(actions_view(actions@) =~= actions_view(before).push(ActionView::Send(w, out@)));
                assert(reset_sends(ws, s2, es, now) =~= reset_sends(ws, s1, es, now).push(ActionView::Send(w, out@)));
            }
            k += 1;
        }
        proof {
            assert(subs@.subrange(0, subs@.len() as int) =~= subs@);
            assert(self.watchers@ =~= reset_watchers(ws, subs@, l));
            lemma_remove_caster(cs, ws, next, i as int, self.watchers@);
        }
        actions
    }

    /// Detaches watcher `j` from the caster it watches, if any, leaving it at the menu.
    fn detach(&mut self, j: usize)
        requires
            old(self).wf(),
            j < old(self).watchers@.len(),
        ensures
            final(self).wf(),
            final(self).caster_auth@ == old(self).caster_auth@,
            final(self).next_token_id == old(self).next_token_id,
            final(self).watchers@.len() == old(self).watchers@.len(),
            match old(self).watchers@[j as int].state {
                WatcherState::Watching(h) => {
                    let ci = caster_pos(old(self).casters@, h);
                    let c2 = final(self).casters@[ci];
                    &&& ci < old(self).casters@.len()
                    &&& final(self).casters@ == old(self).casters@.update(ci, c2)
                    &&& same_but_subscribers(c2, old(self).casters@[ci])
                    &&& c2.subscribers() == without(old(self).casters@[ci].subscribers(), old(self).watchers@[j as int].token)
                    &&& final(self).watchers@ == old(self).watchers@.update(
                        j as int,
                        (Watcher { state: WatcherState::MainMenu, ..old(self).watchers@[j as int] }),
                    )
                },
                _ => final(self).casters@ == old(self).casters@ && final(self).watchers@ == old(self).watchers@,
            },
    {
        let mut watcher = self.watchers[j];
        if let WatcherState::Watching(h) = watcher.state {
            let ghost cs = self.casters@;
            let ghost ws = self.watchers@;
            let ci = self.find_caster(h);
            proof {
                lemma_caster_pos(cs, h);
                let i = choose|i: int| 0 <= i < cs.len() && cs[i].token_spec() == h && cs[i].subscribers().contains(ws[j as int].token);
                assert(ci <= i);
                assert(cs[ci as int].wf());
            }
            self.casters[ci].remove_watcher(watcher.token);
            watcher.state = WatcherState::MainMenu;
            self.watchers.set(j, watcher);
            proof {
                assert(self.casters@ == cs.update(ci as int, self.casters@[ci as int]));
                lemma_detach(cs, ws, self.next_token_id, j as int, ci as int, self.casters@[ci as int], watcher);
                assert(self.casters_wf()) by {
                    assert forall|a: int| 0 <= a < self.casters@.len() implies (
                    #[trigger] self.casters@[a]).wf() by {
                        if a != ci {
                            assert(self.casters@[a] == cs[a]);
                            assert(cs[a].wf());
                        }
                    }
                }
            }
        }
    }

    /// Drops watcher `j`, first detaching it from the caster it watches.
    fn drop_watcher(&mut self, j: usize)
        requires
            old(self).wf(),
            j < old(self).watchers@.len(),
        ensures
            final(self).wf(),
            final(self).caster_auth@ == old(self).caster_auth@,
            final(self).next_token_id == old(self).next_token_id,
            final(self).watchers@ == old(self).watchers@.remove(j as int),
            match old(self).watchers@[j as int].state {
                WatcherState::Watching(h) => {
                    let ci = caster_pos(old(self).casters@, h);
                    let c2 = final(self).casters@[ci];
                    &&& ci < old(self).casters@.len()
                    &&& final(self).casters@ == old(self).casters@.update(ci, c2)
                    &&& same_but_subscribers(c2, old(self).casters@[ci])
                    &&& c2.subscribers() == without(old(self).casters@[ci].subscribers(), old(self).watchers@[j as int].token)
                },
                _ => final(self).casters@ == old(self).casters@,
            },
    {
        self.detach(j);
        proof {
            lemma_remove_idle_watcher(self.casters@, self.watchers@, self.next_token_id, j as int);
        }
        let ghost ws = self.watchers@;
        self.watchers.remove(j);
        assert(self.watchers@ =~= old(self).watchers@.remove(j as int)) by {
            assert forall|a: int| 0 <= a < self.watchers@.len() implies self.watchers@[a] == old(self).watchers@.remove(j as int)[a] by {
                let a2 = if a < j { a } else { a + 1 };
                assert(self.watchers@[a] == ws[a2]);
                if a2 != j {
                    assert(ws[a2] == old(self).watchers@[a2]);
                }
            }
        }
    }

    /// Tears down the session of `token` after its socket hung up. A caster is dropped
    /// and every watcher it listed goes back to the menu; a watcher is detached from
    /// the caster it watches and dropped. An unknown handle changes nothing.
    pub fn handle_disconnect(&mut self, token: usize, now: Timestamp) -> (r: Vec<Action>)
        requires
            old(self).wf(),
        ensures
            final(self).wf(),
            final(self).auth_spec() == old(self).auth_spec(),
            final(self).next_token_spec() == old(self).next_token_spec(),
            disconnect_outcome(*old(self), *final(self), token, now, actions_view(r@)),
    {
        proof {
            lemma_caster_pos(self.casters@, token);
            lemma_watcher_pos(self.watchers@, token);
        }
        let i = self.find_caster(token);
        if i < self.casters.len() {
            return self.drop_caster(i, now);
        }
        let j = self.find_watcher(token);
        let mut actions: Vec<Action> = Vec::new();
        if j < self.watchers.len() {
            self.drop_watcher(j);
            actions.push(Action::Close(token));
            assert(actions_view(actions@) =~= seq![ActionView::Close(token)]);
        }
        actions
    }

    /// Takes bytes a caster sent at `now`. Before its handshake completes they go to
    /// the handshake; once it is authenticated, or what follows its opening line, they
    /// are stream output that is kept in its scrollback and sent to every subscriber. A
    /// failed handshake drops the caster as a hangup does.
    pub fn read_caster(&mut self, token: usize, input: &[u8], now: Timestamp) -> (r: Vec<Action>)
        requires
            old(self).wf(),
        ensures
            final(self).wf(),
            final(self).next_token_spec() == old(self).next_token_spec(),
            read_caster_outcome(*old(self), *final(self), token, input@, now, actions_view(r@)),
    {
        proof {
            lemma_caster_pos(self.casters@, token);
        }
        let i = self.find_caster(token);
        if i == self.casters.len() {
            let none: Vec<Action> = Vec::new();
            assert(actions_view(none@) =~= Seq::<ActionView>::empty());
            return none;
        }
        let ghost cs = self.casters@;
        let ghost ws = self.watchers@;
        let ghost a0 = self.caster_auth@;
        assert(self.casters@[i as int].wf());
        let res = self.casters[i].input(&mut self.caster_auth, input, now);
        let ghost c2 = self.casters@[i as int];
        proof {
            assert(self.casters@ == cs.update(i as int, c2));
            lemma_same_links_caster(cs, ws, self.next_token_id, i as int, c2);
            assert(self.casters_wf()) by {
                assert forall|a: int| 0 <= a < self.casters@.len() implies (
                #[trigger] self.casters@[a]).wf() by {
                    if a != i {
                        assert(self.casters@[a] == cs[a]);
                        assert(cs[a].wf());
                    }
                }
            }
        }
        let ghost cs1 = self.casters@;
        let actions = match res {
            Ok(k) => self.relay_output(i, &input[k..input.len()]),
            Err(_) => self.drop_caster(i, now),
        };
        proof {
            assert(cs1.remove(i as int) =~= cs.remove(i as int));
            assert(read_outcome(cs, ws, i as int, c2, res, old(self).auth_spec(), self.auth_spec(), self.casters_spec(), self.watchers_spec(), actions_view(actions@), input@, now));
            assert(read_outcome(
                old(self).casters_spec(),
                old(self).watchers_spec(),
                caster_pos(old(self).casters_spec(), token),
                c2,
                res,
                old(self).auth_spec(),
                self.auth_spec(),
                self.casters_spec(),
                self.watchers_spec(),
                actions_view(actions@),
                input@,
                now,
            ));
        }
        actions
    }

    /// Takes bytes a watcher sent at `now` and applies them to its state machine.
    pub fn read_watcher(&mut self, token: usize, input: &[u8], now: Timestamp) -> (r: Vec<Action>)
        requires
            old(self).wf(),
        ensures
            final(self).wf(),
            final(self).next_token_spec() == old(self).next_token_spec(),
            final(self).auth_spec() == old(self).auth_spec(),
            read_watcher_outcome(*old(self), *final(self), token, input@, now, actions_view(r@)),
    {
        let ghost cs = self.casters@;
        let ghost ws = self.watchers@;
        proof {
            lemma_watcher_pos(ws, token);
        }
        let j = self.find_watcher(token);
        let mut actions: Vec<Action> = Vec::new();
        if j == self.watchers.len() {
            assert(actions_view(actions@) =~= Seq::<ActionView>::empty());
            return actions;
        }
        let ghost w0 = ws[j as int];
        match self.watchers[j].state {
            WatcherState::MainMenu => {
                self.menu_input(j, input, now)
            },
            WatcherState::Watching(_) => {
                let q = crate::handshake::find_byte(input, 113u8);
                if q < input.len() {
                    self.back_to_menu(j, now)
                } else {
                    assert(actions_view(actions@) =~= Seq::<ActionView>::empty());
                    actions
                }
            },
            _ => {
                assert(actions_view(actions@) =~= Seq::<ActionView>::empty());
                actions
            },
        }
    }

    /// Detaches watcher `j` from the caster it watches, if any, and sends it the menu.
    fn back_to_menu(&mut self, j: usize, now: Timestamp) -> (r: Vec<Action>)
        requires
            old(self).wf(),
            j < old(self).watchers@.len(),
        ensures
            final(self).wf(),
            final(self).next_token_id == old(self).next_token_id,
            final(self).caster_auth@ == old(self).caster_auth@,
            back_to_menu_outcome(
                old(self).casters@,
                old(self).watchers@,
                j as int,
                final(self).casters@,
                final(self).watchers@,
                now,
                actions_view(r@),
            ),
    {
        let ghost ws = self.watchers@;
        self.detach(j);
        let view = self.menu_view();
        let mut watcher = self.watchers[j];
        let token = watcher.token;
        watcher.state = WatcherState::MainMenu;
        let mut out: Vec<u8> = Vec::new();
        watcher.send_menu(&view, now, &mut out);
        proof {
            lemma_same_links_watcher(self.casters@, self.watchers@, self.next_token_id, j as int, watcher);
        }
        self.watchers.set(j, watcher);
        let mut actions: Vec<Action> = Vec::new();
        actions.push(Action::Send(token, out));
        assert(actions_view(actions@) =~= seq![ActionView::Send(token, out@)]);
        assert(self.watchers@ =~= ws.update(
            j as int,
            (Watcher {
                state: WatcherState::MainMenu,
                offset: pinned_offset(ws[j as int].offset as int, menu_entries(self.casters@).len() as int) as usize,
                token: token,
            }),
        ));
        actions
    }

    /// The menu part of `read_watcher`, for watcher `j`.
    fn menu_input(&mut self, j: usize, input: &[u8], now: Timestamp) -> (r: Vec<Action>)
        requires
            old(self).wf(),
            j < old(self).watchers@.len(),
            old(self).watchers@[j as int].state == WatcherState::MainMenu,
        ensures
            final(self).wf(),
            final(self).next_token_id == old(self).next_token_id,
            final(self).caster_auth@ == old(self).caster_auth@,
            menu_outcome(
                old(self).casters@,
                old(self).watchers@,
                j as int,
                final(self).casters@,
                final(self).watchers@,
                input@,
                now,
                actions_view(r@),
            ),
    {
        let ghost cs = self.casters@;
        let ghost ws = self.watchers@;
        let ghost es = menu_entries(cs);
        let view = self.menu_view();
        let mut watcher = self.watchers[j];
        let token = watcher.token;
        let mut out: Vec<u8> = Vec::new();
        let action = watcher.parse_input(input, &view, now, &mut out);
        let ghost t = first_menu_key(input@);
        let ghost m = menu_text(es, ws.len(), ws[j as int].offset as int, now);
        let mut actions: Vec<Action> = Vec::new();
        proof {
            crate::watcher::lemma_first_menu_key(input@);
            crate::menu::lemma_menu_text_nonempty(es, ws.len(), ws[j as int].offset as int, now);
            assert(out@ =~= repeat_bytes(m, t as nat));
            if t > 0 {
                assert(repeat_bytes(m, t as nat) == repeat_bytes(m, (t - 1) as nat) + m);
            }
        }
        if out.len() > 0 {
            actions.push(Action::Send(token, out));
        }
        let ghost pre = actions_view(actions@);
        assert(pre =~= if t > 0 {
            seq![ActionView::Send(token, repeat_bytes(m, t as nat))]
        } else {
            Seq::<ActionView>::empty()
        });
        match action {
            WatcherAction::Watch(idx) => {
                match view.get_offset_token(idx) {
                    None => {
                        let mut menu: Vec<u8> = Vec::new();
                        let ghost o1 = watcher.offset;
                        watcher.send_menu(&view, now, &mut menu);
                        proof {
                            lemma_same_links_watcher(cs, ws, self.next_token_id, j as int, watcher);
                        }
                        self.watchers.set(j, watcher);
                        actions.push(Action::Send(token, menu));
                        assert(actions_view(actions@) =~= pre.push(ActionView::Send(token, menu_text(es, ws.len(), o1 as int, now))));
                    },
                    Some(h) => {
                        proof {
                            lemma_entry_in_table(cs, idx as int);
                            lemma_caster_pos(cs, h);
                        }
                        let ci = self.find_caster(h);
                        assert(self.casters@[ci as int].wf());
                        let bytes = self.casters[ci].add_watcher(token);
                        watcher.state = WatcherState::Watching(h);
                        proof {
                            assert(self.casters@ == cs.update(ci as int, self.casters@[ci as int]));
                            lemma_attach(cs, ws, self.next_token_id, j as int, ci as int, self.casters@[ci as int], watcher);
                            assert(self.casters_wf()) by {
                                assert forall|a: int| 0 <= a < self.casters@.len() implies (
                                #[trigger] self.casters@[a]).wf() by {
                                    if a != ci {
                                        assert(self.casters@[a] == cs[a]);
                                        assert(cs[a].wf());
                                    }
                                }
                            }
                        }
                        self.watchers.set(j, watcher);
                        actions.push(Action::Send(token, bytes));
                        assert(actions_view(actions@) =~= pre.push(ActionView::Send(token, clear_screen_bytes() + reset_cursor_bytes() + cs[ci as int].history())));
                    },
                }
            },
            WatcherAction::Exit => {
                proof {
                    lemma_same_links_watcher(cs, ws, self.next_token_id, j as int, watcher);
                }
                self.watchers.set(j, watcher);
                self.drop_watcher(j);
                actions.push(Action::Close(token));
                assert(self.watchers@ =~= ws.remove(j as int));
                assert(actions_view(actions@) =~= pre.push(ActionView::Close(token)));
            },
            _ => {
                proof {
                    lemma_same_links_watcher(cs, ws, self.next_token_id, j as int, watcher);
                }
                self.watchers.set(j, watcher);
            },
        }
        actions
    }

    /// Handles a message of the control channel. `CasterDisconnected` sends the watcher
    /// back to the menu, detaching it from any caster it still watches; a watcher that
    /// is gone is skipped. `WatcherDisconnected` tears the watcher down as a hangup
    /// does. `Quit` asks the loop to stop.
    pub fn notify(&mut self, message: TermcastdMessage, now: Timestamp) -> (r: Vec<Action>)
        requires
            old(self).wf(),
        ensures
            final(self).wf(),
            final(self).next_token_spec() == old(self).next_token_spec(),
            final(self).auth_spec() == old(self).auth_spec(),
            match message {
                TermcastdMessage::CasterDisconnected(w) => {
                    let ws = old(self).watchers_spec();
                    let j = watcher_pos(ws, w);
                    if j < ws.len() {
                        back_to_menu_outcome(
                            old(self).casters_spec(),
                            ws,
                            j,
                            final(self).casters_spec(),
                            final(self).watchers_spec(),
                            now,
                            actions_view(r@),
                        )
                    } else {
                        &&& final(self).casters_spec() == old(self).casters_spec()
                        &&& final(self).watchers_spec() == ws
                        &&& r@.len() == 0
                    }
                },
                TermcastdMessage::WatcherDisconnected(w) => disconnect_outcome(
                    *old(self),
                    *final(self),
                    w,
                    now,
                    actions_view(r@),
                ),
                TermcastdMessage::Quit => {
                    &&& final(self).casters_spec() == old(self).casters_spec()
                    &&& final(self).watchers_spec() == old(self).watchers_spec()
                    &&& actions_view(r@) == seq![ActionView::Shutdown]
                },
            },
    {
        match message {
            TermcastdMessage::CasterDisconnected(w) => {
                proof {
                    lemma_watcher_pos(self.watchers@, w);
                }
                let j = self.find_watcher(w);
                if j < self.watchers.len() {
                    self.back_to_menu(j, now)
                } else {
                    let none: Vec<Action> = Vec::new();
                    assert(actions_view(none@) =~= Seq::<ActionView>::empty());
                    none
                }
            },
            TermcastdMessage::WatcherDisconnected(w) => self.handle_disconnect(w, now),
            TermcastdMessage::Quit => {
                let mut actions: Vec<Action> = Vec::new();
                actions.push(Action::Shutdown);
                assert(actions_view(actions@) =~= seq![ActionView::Shutdown]);
                actions
            },
        }
    }

    /// In a consistent state every watcher that a caster lists is watching that
    /// caster, every watching watcher is listed by the caster it watches, which exists,
    /// and a caster still in its handshake holds at most `AUTH_LIMIT` bytes. Every
    /// event handler leaves the state consistent, so after any disconnect cascade these
    /// hold again before the next event is handled.
    pub proof fn lemma_links_consistent(&self)
        requires
            self.wf(),
        ensures
            subscribers_watch(self.casters_spec(), self.watchers_spec()),
            watchers_subscribed(self.casters_spec(), self.watchers_spec()),
            handles_ok(self.casters_spec(), self.watchers_spec(), self.next_token_spec()),
            subscribers_unique(self.casters_spec()),
            forall|i: int|
                0 <= i < self.casters_spec().len() && (#[trigger] self.casters_spec()[i]).name_spec() is None
                    ==> self.casters_spec()[i].history().len() <= crate::caster::AUTH_LIMIT,
    {
        assert forall|i: int|
            0 <= i < self.casters_spec().len() && (#[trigger] self.casters_spec()[i]).name_spec() is None
                implies self.casters_spec()[i].history().len() <= crate::caster::AUTH_LIMIT by {
            self.casters@[i].lemma_pending_bounded();
        }
    }

    /// A watcher subscribed to an authenticated caster is sent exactly the bytes that
    /// caster sends, and stays subscribed: over a run of reads it receives the whole
    /// stream in the order it was sent.
    pub proof fn lemma_stream_delivered(
        &self,
        t2: Termcastd,
        token: usize,
        input: Seq<u8>,
        now: Timestamp,
        acts: Seq<ActionView>,
        w: usize,
    )
        requires
            self.wf(),
            read_caster_outcome(*self, t2, token, input, now, acts),
            caster_pos(self.casters_spec(), token) < self.casters_spec().len(),
            self.casters_spec()[caster_pos(self.casters_spec(), token)].name_spec() is Some,
            self.casters_spec()[caster_pos(self.casters_spec(), token)].subscribers().contains(w),
        ensures
            sent_to(acts, w) == input,
            t2.casters_spec().len() == self.casters_spec().len(),
            t2.casters_spec()[caster_pos(self.casters_spec(), token)].subscribers() == self.casters_spec()[caster_pos(self.casters_spec(), token)].subscribers(),
            t2.casters_spec()[caster_pos(self.casters_spec(), token)].name_spec() == self.casters_spec()[caster_pos(self.casters_spec(), token)].name_spec(),
            caster_pos(t2.casters_spec(), token) == caster_pos(self.casters_spec(), token),
    {
        let cs = self.casters_spec();
        let i = caster_pos(cs, token);
        lemma_caster_pos(cs, token);
        let (c2, res) = choose|c2: Caster, res: Result<usize, AuthResults>|
            read_outcome(
                cs,
                self.watchers_spec(),
                i,
                c2,
                res,
                self.auth_spec(),
                t2.auth_spec(),
                t2.casters_spec(),
                t2.watchers_spec(),
                acts,
                input,
                now,
            );
        assert(res == Ok::<usize, AuthResults>(0));
        assert(input.subrange(0, input.len() as int) =~= input);
        assert(subscribers_unique(self.casters@));
        assert(self.casters@[i].subscribers().no_duplicates());
        lemma_sent_to_each(cs[i].subscribers(), input, w);
        assert(t2.casters_spec() == cs.update(i, c2));
        if input.len() == 0 {
            assert(sent_to(acts, w) =~= input);
        }
        lemma_caster_pos(t2.casters_spec(), token);
        let i2 = caster_pos(t2.casters_spec(), token);
        if i2 < i {
            assert(t2.casters_spec()[i2] == cs[i2]);
        }
        if i < i2 {
            assert(t2.casters_spec()[i].token_spec() == token);
        }
    }

    /// After a disconnect the handle belongs to no client any more.
    pub proof fn lemma_disconnect_removes(
        &self,
        t2: Termcastd,
        token: usize,
        now: Timestamp,
        acts: Seq<ActionView>,
    )
        requires
            self.wf(),
            disconnect_outcome(*self, t2, token, now, acts),
        ensures
            caster_pos(t2.casters_spec(), token) == t2.casters_spec().len(),
            watcher_pos(t2.watchers_spec(), token) == t2.watchers_spec().len(),
    {
        let cs = self.casters_spec();
        let ws = self.watchers_spec();
        let cs2 = t2.casters_spec();
        let ws2 = t2.watchers_spec();
        let i = caster_pos(cs, token);
        let j = watcher_pos(ws, token);
        lemma_caster_pos(cs, token);
        lemma_watcher_pos(ws, token);
        lemma_caster_pos(cs2, token);
        lemma_watcher_pos(ws2, token);
        let i2 = caster_pos(cs2, token);
        let j2 = watcher_pos(ws2, token);
        assert(handles_ok(self.casters@, self.watchers@, self.next_token_id));
        if i < cs.len() {
            if i2 < cs2.len() {
                let a = if i2 < i { i2 } else { i2 + 1 };
                assert(cs2[i2] == cs[a]);
            }
            if j2 < ws2.len() {
                assert(ws2[j2].token == ws[j2].token);
                assert(cs[i].token_spec() != ws[j2].token);
            }
        } else if j < ws.len() {
            if j2 < ws2.len() {
                let b = if j2 < j { j2 } else { j2 + 1 };
                assert(ws2[j2] == ws[b]);
            }
            if i2 < cs2.len() {
                match ws[j].state {
                    WatcherState::Watching(h) => {
                        let ci = caster_pos(cs, h);
                        lemma_caster_pos(cs, h);
                        assert(cs2 == cs.update(ci, cs2[ci]));
                        assert(cs2.len() == cs.len());
                        if i2 == ci {
                            assert(same_but_subscribers(cs2[ci], cs[ci]));
                        } else {
                            assert(cs.update(ci, cs2[ci])[i2] == cs[i2]);
                        }
                    },
                    _ => {
                        assert(cs2 == cs);
                    },
                }
                assert(i2 < cs.len());
                assert(handles_ok(self.casters@, self.watchers@, self.next_token_id));
                assert(cs[i2].token_spec() != ws[j].token);
            }
        }
    }

    /// Over a run of reads from an authenticated caster, a subscribed watcher is sent
    /// exactly the concatenation of what the caster sent, in order, and stays
    /// subscribed throughout.
    pub proof fn lemma_stream_delivered_run(
        states: Seq<Termcastd>,
        token: usize,
        inputs: Seq<Seq<u8>>,
        times: Seq<Timestamp>,
        acts: Seq<Seq<ActionView>>,
        w: usize,
    )
        requires
            states.len() == inputs.len() + 1,
            times.len() == inputs.len(),
            acts.len() == inputs.len(),
            forall|k: int| 0 <= k < states.len() ==> (#[trigger] states[k]).wf(),
            forall|k: int|
                0 <= k < inputs.len() ==> read_caster_outcome(
                    states[k],
                    states[k + 1],
                    token,
                    #[trigger] inputs[k],
                    times[k],
                    acts[k],
                ),
            caster_pos(states[0].casters_spec(), token) < states[0].casters_spec().len(),
            states[0].casters_spec()[caster_pos(states[0].casters_spec(), token)].name_spec() is Some,
            states[0].casters_spec()[caster_pos(states[0].casters_spec(), token)].subscribers().contains(w),
        ensures
            sent_over(acts, w) == crate::ring::concat_chunks(inputs),
            caster_pos(states.last().casters_spec(), token) == caster_pos(states[0].casters_spec(), token),
            states.last().casters_spec().len() == states[0].casters_spec().len(),
            states.last().casters_spec()[caster_pos(states[0].casters_spec(), token)].subscribers()
                == states[0].casters_spec()[caster_pos(states[0].casters_spec(), token)].subscribers(),
            states.last().casters_spec()[caster_pos(states[0].casters_spec(), token)].name_spec()
                == states[0].casters_spec()[caster_pos(states[0].casters_spec(), token)].name_spec(),
        decreases inputs.len(),
    {
        let n = inputs.len() as int;
        if n == 0 {
            assert(crate::ring::concat_chunks(inputs) =~= Seq::<u8>::empty());
        } else {
            let s2 = states.drop_last();
            let i2 = inputs.drop_last();
            let t2 = times.drop_last();
            let a2 = acts.drop_last();
            assert forall|k: int| 0 <= k < s2.len() implies (#[trigger] s2[k]).wf() by {
                assert(s2[k] == states[k]);
            }
            assert forall|k: int| 0 <= k < i2.len() implies read_caster_outcome(
                s2[k],
                s2[k + 1],
                token,
                #[trigger] i2[k],
                t2[k],
                a2[k],
            ) by {
                assert(inputs[k] == i2[k]);
            }
            Self::lemma_stream_delivered_run(s2, token, i2, t2, a2, w);
            let prev = states[n - 1];
            assert(prev == s2.last());
            assert(inputs[n - 1] == inputs.last());
            assert(states[n - 1].wf());
            assert(read_caster_outcome(states[n - 1], states[n], token, inputs[n - 1], times[n - 1], acts[n - 1]));
            prev.lemma_stream_delivered(states[n], token, inputs[n - 1], times[n - 1], acts[n - 1], w);
            assert(a2 =~= acts.drop_last());
        }
    }

    /// The state of the watcher with handle `token`, if it is connected.
    pub fn watcher_state(&self, token: usize) -> (r: Option<WatcherState>)
        ensures
            watcher_pos(self.watchers_spec(), token) < self.watchers_spec().len() ==> r == Some(
                self.watchers_spec()[watcher_pos(self.watchers_spec(), token)].state,
            ),
            watcher_pos(self.watchers_spec(), token) >= self.watchers_spec().len() ==> r is None,
    {
        let j = self.find_watcher(token);
        if j < self.watchers.len() {
            Some(self.watchers[j].state)
        } else {
            None
        }
    }

    /// The subscribers of the caster with handle `token`, if it is connected.
    pub fn caster_subscribers(&self, token: usize) -> (r: Option<Vec<usize>>)
        ensures
            caster_pos(self.casters_spec(), token) < self.casters_spec().len() ==> (r matches Some(v)
                && v@ == self.casters_spec()[caster_pos(self.casters_spec(), token)].subscribers()),
            caster_pos(self.casters_spec(), token) >= self.casters_spec().len() ==> r is None,
    {
        let i = self.find_caster(token);
        if i < self.casters.len() {
            let subs = self.casters[i].each_watcher();
            let mut v: Vec<usize> = Vec::new();
            v.extend_from_slice(subs.as_slice());
            assert(v@ =~= subs@);
            Some(v)
        } else {
            None
        }
    }

    /// Whether the caster with handle `token` has completed its handshake.
    pub fn caster_authenticated(&self, token: usize) -> (r: bool)
        ensures
            r == (caster_pos(self.casters_spec(), token) < self.casters_spec().len()
                && self.casters_spec()[caster_pos(self.casters_spec(), token)].name_spec() is Some),
    {
        let i = self.find_caster(token);
        i < self.casters.len() && self.casters[i].is_authenticated()
    }
}

} // verus!
