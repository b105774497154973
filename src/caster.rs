//! Per-caster state: the opening handshake, the scrollback history and the watchers
//! subscribed to the stream.

use crate::auth::{login_outcome, CasterAuth};
use crate::duration::Timestamp;
use crate::handshake::{
    find_byte, index_of, lemma_index_of, parse_hello, parse_hello_spec, AuthResults,
};
use crate::ring::{keep_last, RingBuffer};
use crate::term::{clear_screen, clear_screen_bytes, reset_cursor, reset_cursor_bytes};
use vstd::prelude::*;
use vstd::string::StringSliceAdditionalSpecFns;
use vstd::utf8::*;

verus! {

/// Bytes of scrollback kept per caster.
pub const CAST_BUFFER_SIZE: usize = 90000;

/// Most bytes a caster may send before its opening line is complete.
pub const AUTH_LIMIT: usize = 1024;

/// Whether `s` holds no byte `b`.
pub open spec fn lacks(s: Seq<u8>, b: u8) -> bool {
    forall|i: int| 0 <= i < s.len() ==> s[i] != b
}

/// The opening line within `bytes`: up to the first `\n`, without it and without a `\r`
/// just before it.
pub open spec fn opening_line(bytes: Seq<u8>) -> Seq<u8> {
    let nl = index_of(bytes, 10);
    let eol = if nl > 0 && bytes[nl - 1] == 13 {
        nl - 1
    } else {
        nl
    };
    bytes.subrange(0, eol)
}

/// What a not yet authenticated caster makes of new input, given the bytes it holds.
pub enum AuthStep {
    /// No terminator yet: keep the bytes and wait.
    Wait,
    /// The handshake failed.
    Fail(AuthResults),
    /// A well-formed line with this name and password; the stream starts at this
    /// index of the input.
    Line(Seq<u8>, Seq<u8>, int),
}

/// The step that `input` makes after `pending`: too long once the two exceed
/// `AUTH_LIMIT`; wait while `input` has no `\n`; else the parse of the opening line.
pub open spec fn auth_step(pending: Seq<u8>, input: Seq<u8>) -> AuthStep {
    let all = pending + input;
    if all.len() > AUTH_LIMIT {
        AuthStep::Fail(AuthResults::TooLong)
    } else if lacks(input, 10) {
        AuthStep::Wait
    } else {
        match parse_hello_spec(opening_line(all)) {
            Err(e) => AuthStep::Fail(e),
            Ok((n, p)) => AuthStep::Line(n, p, index_of(all, 10) + 1 - pending.len()),
        }
    }
}

/// How a caster `c` that received `input` at `now` became `c2`, and the credential store
/// `a` became `a2`, when `Caster::input` answered `r`. Once authenticated, the input
/// goes to the scrollback and is all stream output. Before, it is held while no line
/// is complete; a complete line logs in, and what follows it starts the scrollback.
pub open spec fn input_outcome(
    c: Caster,
    c2: Caster,
    a: Map<Seq<char>, (Seq<u8>, Seq<u8>)>,
    a2: Map<Seq<char>, (Seq<u8>, Seq<u8>)>,
    input: Seq<u8>,
    now: Timestamp,
    r: Result<usize, AuthResults>,
) -> bool {
    &&& c2.token_spec() == c.token_spec()
    &&& c2.subscribers() == c.subscribers()
    &&& c2.connected_spec() == c.connected_spec()
    &&& c2.last_byte_spec() == now
    &&& r matches Ok(k) ==> k <= input.len()
    &&& r matches Err(e) ==> e != AuthResults::TryAgain
    &&& c.name_spec() is Some ==> {
        &&& r == Ok::<usize, AuthResults>(0)
        &&& c2.name_spec() == c.name_spec()
        &&& c2.history() == keep_last(c.history() + input, CAST_BUFFER_SIZE as nat)
        &&& a2 == a
    }
    &&& c.name_spec() is None ==> match auth_step(c.history(), input) {
        AuthStep::Wait => {
            &&& r == Ok::<usize, AuthResults>(input.len() as usize)
            &&& c2.name_spec() is None
            &&& c2.history() == c.history() + input
            &&& a2 == a
        },
        AuthStep::Fail(e) => {
            &&& r == Err::<usize, AuthResults>(e)
            &&& c2.name_spec() is None
            &&& c2.history() == c.history()
            &&& a2 == a
        },
        AuthStep::Line(n, p, k) => {
            &&& login_outcome(a, a2, decode_utf8(n), p, r is Ok)
            &&& r is Ok ==> {
                &&& r == Ok::<usize, AuthResults>(k as usize)
                &&& c2.name_spec() == Some(decode_utf8(n))
                &&& c2.history() == input.subrange(k, input.len() as int)
            }
            &&& r is Err ==> {
                &&& r == Err::<usize, AuthResults>(AuthResults::InvalidLogin)
                &&& c2.name_spec() is None
                &&& c2.history() == c.history()
            }
        },
    }
}

/// After an authenticated caster took each of `chunks` in turn, its scrollback is the
/// last `CAST_BUFFER_SIZE` bytes of what it held before followed by all the chunks, in
/// the order they were sent; so a watcher that attaches then is replayed exactly the
/// most recent output, or all of it when there is no more than fits.
pub proof fn lemma_scrollback_keeps_last(
    states: Seq<Caster>,
    chunks: Seq<Seq<u8>>,
    auths: Seq<Map<Seq<char>, (Seq<u8>, Seq<u8>)>>,
    times: Seq<Timestamp>,
    results: Seq<Result<usize, AuthResults>>,
)
    requires
        states.len() == chunks.len() + 1,
        auths.len() == chunks.len() + 1,
        times.len() == chunks.len(),
        results.len() == chunks.len(),
        states[0].name_spec() is Some,
        states[0].wf(),
        forall|k: int|
            0 <= k < chunks.len() ==> input_outcome(
                states[k],
                states[k + 1],
                auths[k],
                auths[k + 1],
                #[trigger] chunks[k],
                times[k],
                results[k],
            ),
    ensures
        states.last().name_spec() == states[0].name_spec(),
        states.last().history() == keep_last(
            states[0].history() + crate::ring::concat_chunks(chunks),
            CAST_BUFFER_SIZE as nat,
        ),
    decreases chunks.len(),
{
    let n = chunks.len() as int;
    if n == 0 {
        assert(crate::ring::concat_chunks(chunks) =~= Seq::<u8>::empty());
        assert(states[0].history() + Seq::<u8>::empty() =~= states[0].history());
        states[0].lemma_history_len();
    } else {
        let s2 = states.drop_last();
        let c2 = chunks.drop_last();
        let a2 = auths.drop_last();
        let t2 = times.drop_last();
        let r2 = results.drop_last();
        assert forall|k: int| 0 <= k < c2.len() implies input_outcome(
            s2[k],
            s2[k + 1],
            a2[k],
            a2[k + 1],
            #[trigger] c2[k],
            t2[k],
            r2[k],
        ) by {
            assert(chunks[k] == c2[k]);
            assert(input_outcome(
                states[k],
                states[k + 1],
                auths[k],
                auths[k + 1],
                chunks[k],
                times[k],
                results[k],
            ));
        }
        lemma_scrollback_keeps_last(s2, c2, a2, t2, r2);
        assert(chunks[n - 1] == chunks.last());
        assert(input_outcome(
            states[n - 1],
            states[n],
            auths[n - 1],
            auths[n],
            chunks[n - 1],
            times[n - 1],
            results[n - 1],
        ));
        let h0 = states[0].history();
        crate::ring::lemma_keep_last_append(
            h0 + crate::ring::concat_chunks(c2),
            chunks[n - 1],
            CAST_BUFFER_SIZE as nat,
        );
        assert(h0 + crate::ring::concat_chunks(chunks) =~= h0 + crate::ring::concat_chunks(c2)
            + chunks[n - 1]);
    }
}

/// `s` with every `x` taken out, order kept.
pub open spec fn without(s: Seq<usize>, x: usize) -> Seq<usize>
    decreases s.len(),
{
    if s.len() == 0 {
        s
    } else if s.last() == x {
        without(s.drop_last(), x)
    } else {
        without(s.drop_last(), x).push(s.last())
    }
}

/// What `without` keeps: every item other than `x`, and nothing else; no repeats
/// appear where there were none.
pub proof fn lemma_without(s: Seq<usize>, x: usize)
    ensures
        forall|k: int|
            0 <= k < without(s, x).len() ==> #[trigger] without(s, x)[k] != x && s.contains(
                without(s, x)[k],
            ),
        forall|k: int| 0 <= k < s.len() && s[k] != x ==> without(s, x).contains(#[trigger] s[k]),
        s.no_duplicates() ==> without(s, x).no_duplicates(),
    decreases s.len(),
{
    if s.len() > 0 {
        let t = s.drop_last();
        lemma_without(t, x);
        let r = without(s, x);
        let rt = without(t, x);
        assert forall|k: int| 0 <= k < r.len() implies #[trigger] r[k] != x && s.contains(r[k]) by {
            if k < rt.len() {
                assert(r[k] == rt[k]);
                let m = choose|m: int| 0 <= m < t.len() && t[m] == rt[k];
                assert(s[m] == t[m]);
            } else {
                assert(r[k] == s[s.len() - 1]);
            }
        }
        assert forall|k: int| 0 <= k < s.len() && s[k] != x implies r.contains(#[trigger] s[k]) by {
            if k < t.len() {
                assert(t[k] == s[k]);
                let m = choose|m: int| 0 <= m < rt.len() && rt[m] == t[k];
                assert(r[m] == rt[m]);
            } else {
                assert(r[r.len() - 1] == s[k]);
            }
        }
        if s.no_duplicates() && s.last() != x {
            assert(t.no_duplicates());
            assert forall|a: int, b: int| 0 <= a < b < r.len() implies r[a] != r[b] by {
                if b == rt.len() {
                    assert(r[a] == rt[a]);
                    let m = choose|m: int| 0 <= m < t.len() && t[m] == rt[a];
                    assert(s[m] == t[m]);
                } else {
                    assert(r[a] == rt[a] && r[b] == rt[b]);
                }
            }
        } else if s.no_duplicates() {
            assert(t.no_duplicates());
        }
    }
}

/// One caster connection.
pub struct Caster {
    token: usize,
    name: Option<String>,
    cast_buffer: RingBuffer,
    watchers: Vec<usize>,
    connected: Timestamp,
    last_byte_received: Timestamp,
}

/// What the menu shows of an authenticated caster.
pub struct CasterMenuEntry {
    pub token: usize,
    pub name: String,
    pub num_watchers: usize,
    pub buffer_size: usize,
    pub connected: Timestamp,
    pub last_byte_received: Timestamp,
}

impl Caster {
    /// The caster's handle.
    pub closed spec fn token_spec(&self) -> usize {
        self.token
    }

    /// The authenticated name, if the handshake is done.
    pub closed spec fn name_spec(&self) -> Option<Seq<char>> {
        match self.name {
            Some(n) => Some(n@),
            None => None,
        }
    }

    /// Before the handshake, the bytes received so far; after it, the scrollback.
    pub closed spec fn history(&self) -> Seq<u8> {
        self.cast_buffer@
    }

    /// Handles of the subscribed watchers.
    pub closed spec fn subscribers(&self) -> Seq<usize> {
        self.watchers@
    }

    /// When the caster connected.
    pub closed spec fn connected_spec(&self) -> Timestamp {
        self.connected
    }

    /// When the caster last sent bytes.
    pub closed spec fn last_byte_spec(&self) -> Timestamp {
        self.last_byte_received
    }

    /// The scrollback is a ring of `CAST_BUFFER_SIZE`; before the handshake it holds at
    /// most `AUTH_LIMIT` bytes and no `\n`.
    pub closed spec fn wf(&self) -> bool {
        &&& self.cast_buffer.wf()
        &&& self.cast_buffer.capacity() == CAST_BUFFER_SIZE
        &&& self.name is None ==> self.cast_buffer@.len() <= AUTH_LIMIT && lacks(
            self.cast_buffer@,
            10,
        )
    }

    proof fn lemma_history_len(&self)
        requires
            self.wf(),
        ensures
            self.history().len() <= CAST_BUFFER_SIZE,
    {
        self.cast_buffer.lemma_len();
    }

    /// Before the handshake completes, a caster holds at most `AUTH_LIMIT` bytes.
    pub proof fn lemma_pending_bounded(&self)
        requires
            self.wf(),
        ensures
            self.name_spec() is None ==> self.history().len() <= AUTH_LIMIT,
            self.history().len() <= CAST_BUFFER_SIZE,
    {
        self.lemma_history_len();
    }

    /// A caster that connected at `now` and has not sent anything.
    pub fn new(token: usize, now: Timestamp) -> (r: Self)
        ensures
            r.wf(),
            r.token_spec() == token,
            r.name_spec() is None,
            r.history() == Seq::<u8>::empty(),
            r.subscribers() == Seq::<usize>::empty(),
            r.connected_spec() == now,
            r.last_byte_spec() == now,
    {
        Caster {
            token: token,
            name: None,
            cast_buffer: RingBuffer::new(CAST_BUFFER_SIZE),
            watchers: Vec::new(),
            connected: now,
            last_byte_received: now,
        }
    }

    /// Takes bytes the caster sent at `now`. `Ok(k)`: the bytes of `input` from `k` on
    /// are stream output, already in the scrollback, to go to every subscriber. `Err`:
    /// the handshake failed and the caster is to be closed.
    pub fn input(&mut self, caster_auth: &mut CasterAuth, input: &[u8], now: Timestamp) -> (r:
        Result<usize, AuthResults>)
        requires
            old(self).wf(),
            old(caster_auth).wf(),
        ensures
            final(self).wf(),
            final(caster_auth).wf(),
            input_outcome(*old(self), *final(self), old(caster_auth)@, final(caster_auth)@, input@, now, r),
    {
        self.last_byte_received = now;
        if self.name.is_some() {
            self.cast_buffer.add(input);
            return Ok(0);
        }
        proof {
            lemma_index_of(self.cast_buffer@ + input@, 10);
        }
        match self.handle_auth(input, caster_auth) {
            Ok((offset, name)) => {
                self.name = Some(name);
                let rest = &input[offset..input.len()];
                self.cast_buffer.add(rest);
                assert(keep_last(Seq::<u8>::empty() + rest@, CAST_BUFFER_SIZE as nat) =~= rest@);
                Ok(offset)
            },
            Err(AuthResults::TryAgain) => Ok(input.len()),
            Err(e) => Err(e),
        }
    }

    /// The handshake on the bytes held so far and `raw_input`.
    fn handle_auth(&mut self, raw_input: &[u8], caster_auth: &mut CasterAuth) -> (r: Result<
        (usize, String),
        AuthResults,
    >)
        requires
            old(self).wf(),
            old(self).name is None,
            old(caster_auth).wf(),
        ensures
            final(caster_auth).wf(),
            final(self).token == old(self).token,
            final(self).watchers == old(self).watchers,
            final(self).connected == old(self).connected,
            final(self).last_byte_received == old(self).last_byte_received,
            final(self).name is None,
            final(self).cast_buffer.wf(),
            final(self).cast_buffer.capacity() == CAST_BUFFER_SIZE,
            r matches Err(e) ==> e != AuthResults::TryAgain ==> final(self).cast_buffer@ == old(
                self,
            ).cast_buffer@,
            match auth_step(old(self).cast_buffer@, raw_input@) {
                AuthStep::Wait => {
                    &&& r == Err::<(usize, String), AuthResults>(AuthResults::TryAgain)
                    &&& final(self).cast_buffer@ == old(self).cast_buffer@ + raw_input@
                    &&& final(caster_auth)@ == old(caster_auth)@
                },
                AuthStep::Fail(e) => {
                    &&& r == Err::<(usize, String), AuthResults>(e)
                    &&& final(caster_auth)@ == old(caster_auth)@
                    &&& e != AuthResults::TryAgain
                },
                AuthStep::Line(n, p, k) => {
                    &&& login_outcome(
                        old(caster_auth)@,
                        final(caster_auth)@,
                        decode_utf8(n),
                        p,
                        r is Ok,
                    )
                    &&& r matches Ok((off, name)) ==> {
                        &&& off == k
                        &&& name@ == decode_utf8(n)
                        &&& off <= raw_input@.len()
                        &&& final(self).cast_buffer@ == Seq::<u8>::empty()
                    }
                    &&& r is Err ==> r == Err::<(usize, String), AuthResults>(
                        AuthResults::InvalidLogin,
                    )
                },
            },
    {
        let cb_len = self.cast_buffer.len();
        if raw_input.len() > AUTH_LIMIT - cb_len {
            return Err(AuthResults::TooLong);
        }
        let ghost pending = self.cast_buffer@;
        let mut auth_buffer = self.cast_buffer.clone();
        auth_buffer.extend_from_slice(raw_input);
        let ghost all = pending + raw_input@;
        assert(auth_buffer@ =~= all);
        let auth_len = auth_buffer.len();
        let newline_idx = find_byte(auth_buffer.as_slice(), 10u8);
        proof {
            lemma_index_of(all, 10);
            lemma_index_of(raw_input@, 10);
            if newline_idx < auth_len {
                assert(newline_idx >= cb_len);
                assert(raw_input@[newline_idx - cb_len] == 10);
            } else {
                assert forall|i: int| 0 <= i < raw_input@.len() implies raw_input@[i] != 10 by {
                    assert(all[cb_len + i] == raw_input@[i]);
                }
            }
        }
        if newline_idx < auth_len {
            let eol_idx = if newline_idx > 0 && auth_buffer[newline_idx - 1] == 13u8 {
                newline_idx - 1
            } else {
                newline_idx
            };
            let line = &auth_buffer.as_slice()[0..eol_idx];
            assert(line@ == crate::caster::opening_line(all));
            match parse_hello(line) {
                Ok((name, password)) => {
                    proof {
                        encode_utf8_decode_utf8(name@);
                    }
                    if caster_auth.login(name.as_str(), password.as_str()).is_ok() {
                        self.cast_buffer.clear();
                        Ok((newline_idx + 1 - cb_len, name))
                    } else {
                        Err(AuthResults::InvalidLogin)
                    }
                },
                Err(e) => Err(e),
            }
        } else {
            let res = self.cast_buffer.add_no_wraparound(raw_input);
            if res.is_err() {
                return Err(AuthResults::TooLong);
            }
            assert forall|i: int| 0 <= i < self.cast_buffer@.len() implies self.cast_buffer@[i]
                != 10 by {
                assert(self.cast_buffer@[i] == all[i]);
            }
            Err(AuthResults::TryAgain)
        }
    }

    /// The menu's view of this caster, once it is authenticated.
    pub fn menu_entry(&self) -> (r: Option<CasterMenuEntry>)
        requires
            self.wf(),
        ensures
            r is Some <==> self.name_spec() is Some,
            r matches Some(e) ==> e@ == entry_of(*self),
    {
        proof {
            self.lemma_history_len();
        }
        match &self.name {
            Some(name) => Some(
                CasterMenuEntry {
                    token: self.token,
                    name: name.clone(),
                    num_watchers: self.watchers.len(),
                    buffer_size: self.cast_buffer.len(),
                    connected: self.connected,
                    last_byte_received: self.last_byte_received,
                },
            ),
            None => None,
        }
    }

    /// Subscribes `watcher` and returns what it is sent first: clear-screen,
    /// cursor-home, then a copy of the scrollback.
    pub fn add_watcher(&mut self, watcher: usize) -> (r: Vec<u8>)
        requires
            old(self).wf(),
        ensures
            final(self).wf(),
            final(self).token_spec() == old(self).token_spec(),
            final(self).name_spec() == old(self).name_spec(),
            final(self).history() == old(self).history(),
            final(self).connected_spec() == old(self).connected_spec(),
            final(self).last_byte_spec() == old(self).last_byte_spec(),
            final(self).subscribers() == old(self).subscribers().push(watcher),
            r@ == clear_screen_bytes() + reset_cursor_bytes() + old(self).history(),
    {
        let mut out: Vec<u8> = Vec::new();
        out.extend_from_slice(clear_screen().as_bytes());
        out.extend_from_slice(reset_cursor().as_bytes());
        let snapshot = self.cast_buffer.clone();
        out.extend_from_slice(snapshot.as_slice());
        assert(out@ =~= clear_screen_bytes() + reset_cursor_bytes() + self.history());
        self.watchers.push(watcher);
        out
    }

    /// Unsubscribes every entry of `token`.
    pub fn remove_watcher(&mut self, token: usize)
        requires
            old(self).wf(),
        ensures
            final(self).wf(),
            final(self).token_spec() == old(self).token_spec(),
            final(self).name_spec() == old(self).name_spec(),
            final(self).history() == old(self).history(),
            final(self).connected_spec() == old(self).connected_spec(),
            final(self).last_byte_spec() == old(self).last_byte_spec(),
            final(self).subscribers() == without(old(self).subscribers(), token),
    {
        let mut kept: Vec<usize> = Vec::new();
        let mut i: usize = 0;
        while i < self.watchers.len()
            invariant
                i <= self.watchers@.len(),
                kept@ == without(self.watchers@.subrange(0, i as int), token),
            decreases self.watchers@.len() - i,
        {
            let w = self.watchers[i];
            proof {
                let s = self.watchers@.subrange(0, i + 1);
                assert(s.drop_last() =~= self.watchers@.subrange(0, i as int));
                assert(s.last() == w);
            }
            if w != token {
                kept.push(w);
            }
            i += 1;
        }
        assert(self.watchers@.subrange(0, self.watchers@.len() as int) =~= self.watchers@);
        self.watchers = kept;
    }

    /// Handles of the subscribed watchers.
    pub fn each_watcher(&self) -> (r: &Vec<usize>)
        ensures
            r@ == self.subscribers(),
    {
        &self.watchers
    }

    /// The caster's handle.
    pub fn token(&self) -> (r: usize)
        ensures
            r == self.token_spec(),
    {
        self.token
    }

    /// Whether the handshake is done.
    pub fn is_authenticated(&self) -> (r: bool)
        ensures
            r == self.name_spec() is Some,
    {
        self.name.is_some()
    }
}

/// The menu's view of a caster, as plain values.
pub struct MenuEntryView {
    pub token: usize,
    pub name: Seq<char>,
    pub num_watchers: usize,
    pub buffer_size: usize,
    pub connected: Timestamp,
    pub last_byte_received: Timestamp,
}

impl View for CasterMenuEntry {
    type V = MenuEntryView;

    open spec fn view(&self) -> MenuEntryView {
        MenuEntryView {
            token: self.token,
            name: self.name@,
            num_watchers: self.num_watchers,
            buffer_size: self.buffer_size,
            connected: self.connected,
            last_byte_received: self.last_byte_received,
        }
    }
}

/// What the menu shows of `c`, once it is authenticated.
pub open spec fn entry_of(c: Caster) -> MenuEntryView {
    MenuEntryView {
        token: c.token_spec(),
        name: c.name_spec()->0,
        num_watchers: c.subscribers().len() as usize,
        buffer_size: c.history().len() as usize,
        connected: c.connected_spec(),
        last_byte_received: c.last_byte_spec(),
    }
}

impl CasterMenuEntry {
    /// The caster's name.
    pub fn name(&self) -> (r: &String)
        ensures
            r == &self.name,
    {
        &self.name
    }

    /// How many watchers are subscribed.
    pub fn num_watchers(&self) -> (r: usize)
        ensures
            r == self.num_watchers,
    {
        self.num_watchers
    }

    /// Bytes of scrollback held.
    pub fn buffer_size(&self) -> (r: usize)
        ensures
            r == self.buffer_size,
    {
        self.buffer_size
    }

    /// When the caster connected.
    pub fn connected_when(&self) -> (r: &Timestamp)
        ensures
            *r == self.connected,
    {
        &self.connected
    }

    /// When the caster last sent bytes.
    pub fn last_byte_received(&self) -> (r: &Timestamp)
        ensures
            *r == self.last_byte_received,
    {
        &self.last_byte_received
    }

    /// The caster's handle.
    pub fn token(&self) -> (r: usize)
        ensures
            r == self.token,
    {
        self.token
    }
}

} // verus!
