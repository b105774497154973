//! The paginated text menu of authenticated casters shown to watchers.

use crate::caster::{CasterMenuEntry, MenuEntryView};
use crate::duration::{decimal, duration_text, push_decimal, relative_duration_format, Timestamp};
use crate::term::{clear_screen, clear_screen_bytes, reset_cursor, reset_cursor_bytes};
use vstd::prelude::*;
use vstd::string::StringSliceAdditionalSpecFns;
use vstd::utf8::*;

verus! {

/// Casters listed on one page of the menu, one for each key `a` to `p`.
pub const CASTERS_PER_SCREEN: usize = 16;

/// The offset a menu is drawn at when `offset` was asked for and `l` casters are
/// listed: `offset` itself when it is within the list; else the start of the last
/// page, except that when `l` is a non-zero multiple of the page size the page before
/// it is taken.
pub open spec fn pinned_offset(offset: int, l: int) -> int {
    let p = CASTERS_PER_SCREEN as int;
    if offset < l {
        offset
    } else if l == 0 || l % p != 0 {
        (l / p) * p
    } else {
        (l / p - 1) * p
    }
}

/// One line of the menu: the caster's key, name, idle time, connection time, watcher
/// count and scrollback size.
pub open spec fn entry_line(e: MenuEntryView, choice: u8, now: Timestamp) -> Seq<u8> {
    " ".spec_bytes() + seq![choice] + ") ".spec_bytes() + encode_utf8(e.name) + " (idle ".spec_bytes()
        + duration_text(now.unix(), e.last_byte_received.unix()) + ", connected ".spec_bytes()
        + duration_text(now.unix(), e.connected.unix()) + ", ".spec_bytes() + decimal(
        e.num_watchers as nat,
    ) + " watching, ".spec_bytes() + decimal(e.buffer_size as nat) + " bytes)\r\n".spec_bytes()
}

/// The lines of one page, keyed `a`, `b`, ... in order.
pub open spec fn entry_lines(es: Seq<MenuEntryView>, now: Timestamp) -> Seq<u8>
    decreases es.len(),
{
    if es.len() == 0 {
        Seq::empty()
    } else {
        entry_lines(es.drop_last(), now) + entry_line(es.last(), (97 + es.len() - 1) as u8, now)
    }
}

/// The casters on the page that starts at `offset`.
pub open spec fn page(es: Seq<MenuEntryView>, offset: int) -> Seq<MenuEntryView> {
    let end = if offset + CASTERS_PER_SCREEN < es.len() {
        offset + CASTERS_PER_SCREEN
    } else {
        es.len() as int
    };
    es.subrange(offset, end)
}

/// The whole menu: clear-screen and cursor-home, a banner, a status line, the page at
/// the pinned offset and the prompt, with CRLF line ends.
pub closed spec fn menu_text(
    es: Seq<MenuEntryView>,
    total_watchers: nat,
    offset: int,
    now: Timestamp,
) -> Seq<u8> {
    clear_screen_bytes() + reset_cursor_bytes() + "\r\n ## Termcast\r\n ## ".spec_bytes()
        + decimal(es.len()) + " sessions available. ".spec_bytes() + decimal(total_watchers)
        + " watchers connected.\r\n\r\n".spec_bytes() + entry_lines(
        page(es, pinned_offset(offset, es.len() as int)),
        now,
    ) + "\r\nWatch which session? ('q' quits) ".spec_bytes()
}

/// An offset the menu moved is the start of a page, and the pinned offset always
/// falls within a non-empty list.
pub proof fn lemma_pinned_offset(offset: int, l: int)
    requires
        0 <= offset,
        0 <= l,
    ensures
        pinned_offset(offset, l) != offset ==> pinned_offset(offset, l) % (
        CASTERS_PER_SCREEN as int) == 0,
        l > 0 ==> pinned_offset(offset, l) < l,
        0 <= pinned_offset(offset, l) <= l,
{
    let p = CASTERS_PER_SCREEN as int;
    if offset >= l {
        if l == 0 || l % p != 0 {
            assert((l / p) * p % p == 0) by (nonlinear_arith)
                requires
                    p == 16,
            ;
            assert((l / p) * p <= l) by (nonlinear_arith)
                requires
                    p == 16,
                    l >= 0,
            ;
            assert(l % p != 0 ==> (l / p) * p < l) by (nonlinear_arith)
                requires
                    p == 16,
                    l >= 0,
            ;
        } else {
            assert((l / p - 1) * p % p == 0 && (l / p - 1) * p < l && (l / p - 1) * p >= 0)
                by (nonlinear_arith)
                requires
                    p == 16,
                    l > 0,
                    l % p == 0,
            ;
        }
    }
}

/// Drawing the menu again at the offset it was drawn at gives the same text and the
/// same offset, so redrawing with unchanged inputs changes nothing.
pub proof fn lemma_rerender_stable(
    es: Seq<MenuEntryView>,
    total_watchers: nat,
    offset: int,
    now: Timestamp,
)
    requires
        0 <= offset,
    ensures
        pinned_offset(pinned_offset(offset, es.len() as int), es.len() as int) == pinned_offset(
            offset,
            es.len() as int,
        ),
        menu_text(es, total_watchers, pinned_offset(offset, es.len() as int), now) == menu_text(
            es,
            total_watchers,
            offset,
            now,
        ),
{
    lemma_pinned_offset(offset, es.len() as int);
}

/// The plain values of a list of menu entries.
pub open spec fn entry_views(es: Seq<CasterMenuEntry>) -> Seq<MenuEntryView> {
    es.map_values(|e: CasterMenuEntry| e@)
}

/// What the menu is made of, piece by piece: clear-screen and cursor-home, a blank
/// line, the banner ` ## Termcast`, the status line, a blank line, one line per caster
/// of the page at the pinned offset, a blank line and the prompt.
pub proof fn lemma_menu_text_unfold(
    es: Seq<MenuEntryView>,
    total_watchers: nat,
    offset: int,
    now: Timestamp,
)
    ensures
        menu_text(es, total_watchers, offset, now) == clear_screen_bytes() + reset_cursor_bytes()
            + "\r\n ## Termcast\r\n ## ".spec_bytes() + decimal(es.len()) + " sessions available. ".spec_bytes()
            + decimal(total_watchers) + " watchers connected.\r\n\r\n".spec_bytes() + entry_lines(
            page(es, pinned_offset(offset, es.len() as int)),
            now,
        ) + "\r\nWatch which session? ('q' quits) ".spec_bytes(),
{
}

/// The menu is never empty: it starts with the clear-screen sequence.
pub proof fn lemma_menu_text_nonempty(
    es: Seq<MenuEntryView>,
    total_watchers: nat,
    offset: int,
    now: Timestamp,
)
    ensures
        menu_text(es, total_watchers, offset, now).len() > 0,
{
}

/// A snapshot of the caster table for drawing one menu.
pub struct MenuView {
    pub caster_entries: Vec<CasterMenuEntry>,
    pub total_watchers: usize,
}

impl MenuView {
    /// The menu at `offset`, drawn at `now`, and the offset it was drawn at.
    pub fn render(&self, offset: usize, now: Timestamp) -> (r: (Vec<u8>, usize))
        ensures
            r.0@ == menu_text(
                entry_views(self.caster_entries@),
                self.total_watchers as nat,
                offset as int,
                now,
            ),
            r.1 == pinned_offset(offset as int, self.caster_entries@.len() as int),
    {
        let num_casters = self.caster_entries.len();
        proof {
            lemma_pinned_offset(offset as int, num_casters as int);
        }
        let actual_offset = if offset < num_casters {
            offset
        } else {
            let page_length = CASTERS_PER_SCREEN;
            let pages = num_casters / page_length;
            if num_casters == 0 || num_casters % page_length != 0 {
                pages * page_length
            } else {
                (pages - 1) * page_length
            }
        };
        let mut menu: Vec<u8> = Vec::new();
        push_header(&mut menu, num_casters, self.total_watchers);
        let ghost header = menu@;
        self.push_page(&mut menu, actual_offset, now);
        menu.extend_from_slice("\r\nWatch which session? ('q' quits) ".as_bytes());
        assert(menu@ =~= menu_text(
            entry_views(self.caster_entries@),
            self.total_watchers as nat,
            offset as int,
            now,
        ));
        (menu, actual_offset)
    }

    /// Appends the lines of the page that starts at `start`.
    fn push_page(&self, menu: &mut Vec<u8>, start: usize, now: Timestamp)
        requires
            start <= self.caster_entries@.len(),
        ensures
            final(menu)@ == old(menu)@ + entry_lines(
                page(entry_views(self.caster_entries@), start as int),
                now,
            ),
    {
        let num_casters = self.caster_entries.len();
        let end = if num_casters - start > CASTERS_PER_SCREEN {
            start + CASTERS_PER_SCREEN
        } else {
            num_casters
        };
        let ghost header = menu@;
        let mut i: usize = start;
        while i < end
            invariant
                start <= i <= end,
                end <= num_casters,
                num_casters == self.caster_entries@.len(),
                end - start <= CASTERS_PER_SCREEN,
                menu@ == header + entry_lines(
                    entry_views(self.caster_entries@).subrange(start as int, i as int),
                    now,
                ),
            decreases end - i,
        {
            let choice = 97u8 + (i - start) as u8;
            caster_menu_entry(menu, &now, choice, &self.caster_entries[i]);
            proof {
                let s = entry_views(self.caster_entries@).subrange(start as int, i + 1);
                assert(s.drop_last() =~= entry_views(self.caster_entries@).subrange(
                    start as int,
                    i as int,
                ));
                assert(s.last() == self.caster_entries@[i as int]@);
                assert(menu@ =~= header + entry_lines(s, now));
            }
            i += 1;
        }
        assert(entry_views(self.caster_entries@).subrange(start as int, end as int) == page(
            entry_views(self.caster_entries@),
            start as int,
        ));
    }

    /// The handle of the caster listed at `offset`, if any.
    pub fn get_offset_token(&self, offset: usize) -> (r: Option<usize>)
        ensures
            offset < self.caster_entries@.len() ==> r == Some(
                self.caster_entries@[offset as int].token,
            ),
            offset >= self.caster_entries@.len() ==> r is None,
    {
        if offset < self.caster_entries.len() {
            Some(self.caster_entries[offset].token)
        } else {
            None
        }
    }
}

/// Appends the banner and the status line.
fn push_header(menu: &mut Vec<u8>, num_casters: usize, total_watchers: usize)
    ensures
        final(menu)@ == old(menu)@ + clear_screen_bytes() + reset_cursor_bytes()
            + "\r\n ## Termcast\r\n ## ".spec_bytes() + decimal(num_casters as nat)
            + " sessions available. ".spec_bytes() + decimal(total_watchers as nat)
            + " watchers connected.\r\n\r\n".spec_bytes(),
{
    menu.extend_from_slice(clear_screen().as_bytes());
    menu.extend_from_slice(reset_cursor().as_bytes());
    menu.extend_from_slice("\r\n ## Termcast\r\n ## ".as_bytes());
    push_decimal(menu, num_casters as u64);
    menu.extend_from_slice(" sessions available. ".as_bytes());
    push_decimal(menu, total_watchers as u64);
    menu.extend_from_slice(" watchers connected.\r\n\r\n".as_bytes());
    assert(final(menu)@ =~= old(menu)@ + clear_screen_bytes() + reset_cursor_bytes()
        + "\r\n ## Termcast\r\n ## ".spec_bytes() + decimal(num_casters as nat)
        + " sessions available. ".spec_bytes() + decimal(total_watchers as nat)
        + " watchers connected.\r\n\r\n".spec_bytes());
}

/// Appends the menu line of `caster` under key `choice`.
fn caster_menu_entry(out: &mut Vec<u8>, now: &Timestamp, choice: u8, caster: &CasterMenuEntry)
    ensures
        final(out)@ == old(out)@ + entry_line(caster@, choice, *now),
{
    out.extend_from_slice(" ".as_bytes());
    out.push(choice);
    out.extend_from_slice(") ".as_bytes());
    out.extend_from_slice(caster.name.as_str().as_bytes());
    out.extend_from_slice(" (idle ".as_bytes());
    let idle = relative_duration_format(now, &caster.last_byte_received);
    out.extend_from_slice(idle.as_slice());
    out.extend_from_slice(", connected ".as_bytes());
    let connected = relative_duration_format(now, &caster.connected);
    out.extend_from_slice(connected.as_slice());
    out.extend_from_slice(", ".as_bytes());
    push_decimal(out, caster.num_watchers as u64);
    out.extend_from_slice(" watching, ".as_bytes());
    push_decimal(out, caster.buffer_size as u64);
    out.extend_from_slice(" bytes)\r\n".as_bytes());
    assert(final(out)@ =~= old(out)@ + entry_line(caster@, choice, *now));
}

} // verus!
