//! Credential store: trust-on-first-use registration of caster names, checked with a
//! salted, memory-hard password hash and a constant-time comparison.

use sodiumoxide::crypto::pwhash;
use vstd::prelude::*;
use vstd::string::StringSliceAdditionalSpecFns;

verus! {

/// Length in bytes of a password salt.
pub const SALT_LEN: usize = 32;

/// Length in bytes of a key derived from a password.
pub const KEY_LEN: usize = 32;

/// The key that the password hash derives from `password` under `salt`.
pub uninterp spec fn derived_key(password: Seq<u8>, salt: Seq<u8>) -> Seq<u8>;

/// Relies on sodiumoxide's `pwhash::gen_salt`: a fresh random `Salt`, which is an
/// array of `pwhash::SALTBYTES` (32) bytes.
#[verifier::external_body]
fn gen_salt() -> (r: Vec<u8>)
    ensures
        r@.len() == SALT_LEN,
{
    pwhash::gen_salt().0.to_vec()
}

/// Relies on sodiumoxide's `pwhash::derive_key` with the interactive limits: on success
/// the key buffer holds the hash of the password under the salt, which depends on those
/// two alone; `Err` when the computation does not complete.
#[verifier::external_body]
fn derive_key(password: &[u8], salt: &[u8]) -> (r: Option<Vec<u8>>)
    requires
        salt@.len() == SALT_LEN,
    ensures
        r matches Some(k) ==> k@ == derived_key(password@, salt@),
{
    let salt = pwhash::Salt::from_slice(salt)?;
    let mut key = [0u8; KEY_LEN];
    match pwhash::derive_key(
        &mut key,
        password,
        &salt,
        pwhash::OPSLIMIT_INTERACTIVE,
        pwhash::MEMLIMIT_INTERACTIVE,
    ) {
        Ok(k) => Some(k.to_vec()),
        Err(()) => None,
    }
}

/// The first `n` byte pairs of `a` and `b`, each combined with XOR, folded with OR.
pub open spec fn or_of_xors(a: Seq<u8>, b: Seq<u8>, n: nat) -> u8
    decreases n,
{
    if n == 0 {
        0
    } else {
        or_of_xors(a, b, (n - 1) as nat) | (a[n - 1] ^ b[n - 1])
    }
}

/// Byte-wise equality in time that depends on the lengths alone: when the lengths agree,
/// every pair of bytes is combined with XOR and folded with OR, with no early exit.
pub fn constant_time_eq(a: &[u8], b: &[u8]) -> (r: bool)
    ensures
        r == (a@ == b@),
        a@.len() == b@.len() ==> r == (or_of_xors(a@, b@, a@.len()) == 0),
{
    if a.len() != b.len() {
        return false;
    }
    let mut diff: u8 = 0;
    let mut i: usize = 0;
    while i < a.len()
        invariant
            a.len() == b.len(),
            i <= a.len(),
            (diff == 0) <==> (a@.subrange(0, i as int) =~= b@.subrange(0, i as int)),
            diff == or_of_xors(a@, b@, i as nat),
        decreases a.len() - i,
    {
        let x = a[i];
        let y = b[i];
        let d = diff;
        assert(((d | (x ^ y)) == 0) <==> (d == 0 && x == y)) by (bit_vector);
        proof {
            assert(a@.subrange(0, i + 1) =~= a@.subrange(0, i as int).push(x));
            assert(b@.subrange(0, i + 1) =~= b@.subrange(0, i as int).push(y));
            if a@.subrange(0, i as int).push(x) =~= b@.subrange(0, i as int).push(y) {
                assert(a@.subrange(0, i as int).push(x)[i as int] == x);
                assert(b@.subrange(0, i as int).push(y)[i as int] == y);
                assert(a@.subrange(0, i as int) =~= a@.subrange(0, i as int).push(x).drop_last());
                assert(b@.subrange(0, i as int) =~= b@.subrange(0, i as int).push(y).drop_last());
            }
        }
        diff = d | (x ^ y);
        i += 1;
    }
    assert(a@.subrange(0, a.len() as int) =~= a@);
    assert(b@.subrange(0, b.len() as int) =~= b@);
    diff == 0
}

/// A registered caster name with the salt and the key derived from its password.
struct Credential {
    name: String,
    salt: Vec<u8>,
    key: Vec<u8>,
}

/// The names registered so far, each with its salt and derived key.
pub struct CasterAuth {
    logins: Vec<Credential>,
}

/// The map that a list of credentials stands for.
spec fn logins_map(s: Seq<Credential>) -> Map<Seq<char>, (Seq<u8>, Seq<u8>)>
    decreases s.len(),
{
    if s.len() == 0 {
        Map::empty()
    } else {
        logins_map(s.drop_last()).insert(s.last().name@, (s.last().salt@, s.last().key@))
    }
}

/// Whether a login as `name` with password bytes `pw` that answered `ok` took the
/// store from `before` to `after`: a known name is checked against its key and the
/// store is left as it was; an unknown one is registered with a fresh salt on success.
pub open spec fn login_outcome(
    before: Map<Seq<char>, (Seq<u8>, Seq<u8>)>,
    after: Map<Seq<char>, (Seq<u8>, Seq<u8>)>,
    name: Seq<char>,
    pw: Seq<u8>,
    ok: bool,
) -> bool {
    if before.contains_key(name) {
        after == before && (ok ==> derived_key(pw, before[name].0) == before[name].1)
    } else if ok {
        exists|salt: Seq<u8>|
            salt.len() == SALT_LEN && after == before.insert(name, (salt, derived_key(pw, salt)))
    } else {
        after == before
    }
}

proof fn lemma_logins_map(s: Seq<Credential>)
    requires
        forall|i: int, j: int| 0 <= i < j < s.len() ==> s[i].name@ != s[j].name@,
    ensures
        logins_map(s).dom().finite(),
        logins_map(s).dom().len() == s.len(),
        forall|i: int|
            0 <= i < s.len() ==> #[trigger] logins_map(s).contains_key(s[i].name@) && logins_map(
                s,
            )[s[i].name@] == (s[i].salt@, s[i].key@),
        forall|n: Seq<char>|
            #[trigger] logins_map(s).contains_key(n) ==> exists|i: int|
                0 <= i < s.len() && s[i].name@ == n,
    decreases s.len(),
{
    if s.len() > 0 {
        let t = s.drop_last();
        lemma_logins_map(t);
        assert forall|i: int| 0 <= i < s.len() implies #[trigger] logins_map(s).contains_key(
            s[i].name@,
        ) && logins_map(s)[s[i].name@] == (s[i].salt@, s[i].key@) by {
            if i < s.len() - 1 {
                assert(t[i] == s[i]);
            }
        }
        assert forall|n: Seq<char>| #[trigger] logins_map(s).contains_key(n) implies exists|i: int|
            0 <= i < s.len() && s[i].name@ == n by {
            if n != s.last().name@ {
                let i = choose|i: int| 0 <= i < t.len() && t[i].name@ == n;
                assert(s[i] == t[i]);
            }
        }
        if logins_map(t).contains_key(s.last().name@) {
            let i = choose|i: int| 0 <= i < t.len() && t[i].name@ == s.last().name@;
            assert(s[i] == t[i]);
        }
    }
}

impl View for CasterAuth {
    type V = Map<Seq<char>, (Seq<u8>, Seq<u8>)>;

    /// Each registered name with its salt and derived key.
    closed spec fn view(&self) -> Map<Seq<char>, (Seq<u8>, Seq<u8>)> {
        logins_map(self.logins@)
    }
}

impl CasterAuth {
    /// Names are registered once each, and every salt has the salt length.
    pub closed spec fn wf(&self) -> bool {
        &&& forall|i: int, j: int|
            0 <= i < j < self.logins@.len() ==> self.logins@[i].name@ != self.logins@[j].name@
        &&& forall|i: int| 0 <= i < self.logins@.len() ==> self.logins@[i].salt@.len() == SALT_LEN
    }

    /// An empty store.
    pub fn new() -> (r: Self)
        ensures
            r.wf(),
            r@ == Map::<Seq<char>, (Seq<u8>, Seq<u8>)>::empty(),
    {
        CasterAuth { logins: Vec::new() }
    }

    /// The number of registered names.
    pub fn len(&self) -> (r: usize)
        requires
            self.wf(),
        ensures
            r == self@.dom().len(),
    {
        proof {
            lemma_logins_map(self.logins@);
        }
        self.logins.len()
    }

    /// Where `name` is registered.
    fn find(&self, name: &str) -> (r: Option<usize>)
        requires
            self.wf(),
        ensures
            r matches Some(i) ==> i < self.logins@.len() && self.logins@[i as int].name@ == name@,
            r is None ==> !self@.contains_key(name@),
    {
        proof {
            lemma_logins_map(self.logins@);
        }
        let key = name.to_owned();
        let mut i: usize = 0;
        while i < self.logins.len()
            invariant
                i <= self.logins@.len(),
                key@ == name@,
                forall|j: int| 0 <= j < i ==> self.logins@[j].name@ != name@,
            decreases self.logins@.len() - i,
        {
            if self.logins[i].name == key {
                return Some(i);
            }
            i += 1;
        }
        None
    }

    /// The salt of `name`, when it is registered.
    pub fn salt_of(&self, name: &str) -> (r: Option<Vec<u8>>)
        requires
            self.wf(),
        ensures
            r matches Some(s) ==> self@.contains_key(name@) && s@ == self@[name@].0,
            r is None ==> !self@.contains_key(name@),
            r matches Some(s) ==> s@.len() == SALT_LEN,
    {
        proof {
            lemma_logins_map(self.logins@);
        }
        match self.find(name) {
            Some(i) => {
                let c = self.logins[i].salt.clone();
                assert(c@ =~= self.logins@[i as int].salt@);
                assert(logins_map(self.logins@).contains_key(self.logins@[i as int].name@));
                Some(c)
            },
            None => None,
        }
    }

    /// Whether `name` is registered with exactly `key`, compared in constant time.
    pub fn check_key(&self, name: &str, key: &[u8]) -> (r: bool)
        requires
            self.wf(),
        ensures
            r == (self@.contains_key(name@) && self@[name@].1 == key@),
    {
        proof {
            lemma_logins_map(self.logins@);
        }
        match self.find(name) {
            Some(i) => {
                assert(logins_map(self.logins@).contains_key(self.logins@[i as int].name@));
                constant_time_eq(self.logins[i].key.as_slice(), key)
            },
            None => false,
        }
    }

    /// Registers `name`, which is not yet known, with `salt` and `key`.
    pub fn register(&mut self, name: &str, salt: Vec<u8>, key: Vec<u8>)
        requires
            old(self).wf(),
            !old(self)@.contains_key(name@),
            salt@.len() == SALT_LEN,
        ensures
            final(self).wf(),
            final(self)@ == old(self)@.insert(name@, (salt@, key@)),
    {
        proof {
            lemma_logins_map(self.logins@);
        }
        let ghost before = self.logins@;
        self.logins.push(Credential { name: name.to_owned(), salt: salt, key: key });
        assert(self.logins@.drop_last() == before);
        assert forall|i: int, j: int| 0 <= i < j < self.logins@.len() implies self.logins@[i].name@
            != self.logins@[j].name@ by {
            if j == before.len() {
                assert(logins_map(before).contains_key(before[i].name@));
            }
        }
    }

    /// Logs in as `name`: an unknown name is registered with the key derived from
    /// `password` under a fresh salt; a known one succeeds when the key derived under its
    /// salt equals the stored key.
    pub fn login(&mut self, name: &str, password: &str) -> (r: Result<(), ()>)
        requires
            old(self).wf(),
        ensures
            final(self).wf(),
            login_outcome(old(self)@, final(self)@, name@, password.spec_bytes(), r is Ok),
    {
        let pw = password.as_bytes();
        match self.salt_of(name) {
            Some(salt) => {
                match derive_key(pw, salt.as_slice()) {
                    Some(k) => {
                        if self.check_key(name, k.as_slice()) {
                            Ok(())
                        } else {
                            Err(())
                        }
                    },
                    None => Err(()),
                }
            },
            None => {
                let salt = gen_salt();
                match derive_key(pw, salt.as_slice()) {
                    Some(k) => {
                        let ghost s = salt@;
                        self.register(name, salt, k);
                        assert(s.len() == SALT_LEN && self@ == old(self)@.insert(
                            name@,
                            (s, derived_key(pw@, s)),
                        ));
                        Ok(())
                    },
                    None => Err(()),
                }
            },
        }
    }
}

} // verus!
