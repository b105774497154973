//! The first line a caster sends: `hello <name> <password>`, parsed from raw bytes.

use vstd::prelude::*;
use vstd::utf8::*;

verus! {

/// Why a caster's opening bytes did not (yet) log it in.
#[derive(Clone, Copy, Debug, PartialEq, Eq, Structural)]
pub enum AuthResults {
    InvalidLogin,
    InvalidName,
    MissingHello,
    NotEnoughParts,
    TooLong,
    TryAgain,
    Utf8Error,
}

/// Index of the first `b` in `s`, or the length of `s` when it holds none.
pub open spec fn index_of(s: Seq<u8>, b: u8) -> int
    decreases s.len(),
{
    if s.len() == 0 {
        0
    } else if s[0] == b {
        0
    } else {
        1 + index_of(s.drop_first(), b)
    }
}

/// `index_of` is the first place that holds `b`.
pub proof fn lemma_index_of(s: Seq<u8>, b: u8)
    ensures
        0 <= index_of(s, b) <= s.len(),
        forall|j: int| 0 <= j < index_of(s, b) ==> s[j] != b,
        index_of(s, b) < s.len() ==> s[index_of(s, b)] == b,
    decreases s.len(),
{
    if s.len() > 0 && s[0] != b {
        lemma_index_of(s.drop_first(), b);
        assert forall|j: int| 0 <= j < index_of(s, b) implies s[j] != b by {
            if j > 0 {
                assert(s[j] == s.drop_first()[j - 1]);
            }
        }
    }
}

/// A place that is the first to hold `b`, or the end when none does, is `index_of`.
pub proof fn lemma_index_of_unique(s: Seq<u8>, b: u8, k: int)
    requires
        0 <= k <= s.len(),
        forall|j: int| 0 <= j < k ==> s[j] != b,
        k < s.len() ==> s[k] == b,
    ensures
        index_of(s, b) == k,
{
    lemma_index_of(s, b);
}

/// The bytes of `hello`.
pub open spec fn hello_bytes() -> Seq<u8> {
    seq![104u8, 101u8, 108u8, 108u8, 111u8]
}

/// `line` cut at ASCII spaces into at most three fields, as `splitn(3, ' ')` does: the
/// third field keeps any further spaces.
pub open spec fn split3(line: Seq<u8>) -> Seq<Seq<u8>> {
    let i = index_of(line, 32);
    if i >= line.len() {
        seq![line]
    } else {
        let rest = line.subrange(i + 1, line.len() as int);
        let j = index_of(rest, 32);
        if j >= rest.len() {
            seq![line.subrange(0, i), rest]
        } else {
            seq![line.subrange(0, i), rest.subrange(0, j), rest.subrange(j + 1, rest.len() as int)]
        }
    }
}

/// Whether some byte of `s` is a control character (below 0x20).
pub open spec fn has_control(s: Seq<u8>) -> bool {
    exists|k: int| 0 <= k < s.len() && s[k] < 32
}

/// The name and password bytes of an opening line without its terminator, or why it
/// is refused: not UTF-8; fewer than two fields; a first field other than `hello`; an
/// empty name or one with a control character. The password is empty when absent.
pub open spec fn parse_hello_spec(line: Seq<u8>) -> Result<(Seq<u8>, Seq<u8>), AuthResults> {
    let p = split3(line);
    if !valid_utf8(line) {
        Err(AuthResults::Utf8Error)
    } else if p.len() < 2 {
        Err(AuthResults::NotEnoughParts)
    } else if p[0] != hello_bytes() {
        Err(AuthResults::MissingHello)
    } else if p[1].len() == 0 || has_control(p[1]) {
        Err(AuthResults::InvalidName)
    } else {
        Ok((p[1], if p.len() >= 3 { p[2] } else { Seq::empty() }))
    }
}

/// Relies on std's `String::from_utf8`: `Ok` exactly when the bytes are valid UTF-8, and
/// then the string's bytes are those bytes.
#[verifier::external_body]
fn utf8_string(b: &[u8]) -> (r: Option<String>)
    ensures
        r is Some <==> valid_utf8(b@),
        r matches Some(s) ==> encode_utf8(s@) == b@,
{
    String::from_utf8(b.to_vec()).ok()
}

/// Cutting valid UTF-8 around an ASCII byte leaves valid UTF-8 on both sides.
proof fn lemma_split_at_ascii(b: Seq<u8>, k: int)
    requires
        valid_utf8(b),
        0 <= k < b.len(),
        b[k] < 0x80,
    ensures
        valid_utf8(b.subrange(0, k)),
        valid_utf8(b.subrange(k + 1, b.len() as int)),
{
    is_char_boundary_iff_not_is_continuation_byte(b, k);
    valid_utf8_split(b, k);
    let t = b.subrange(k, b.len() as int);
    assert(t[0] == b[k]);
    assert(pop_first_scalar(t) =~= b.subrange(k + 1, b.len() as int));
}

/// Index of the first `b` in `s`, or its length.
pub fn find_byte(s: &[u8], b: u8) -> (r: usize)
    ensures
        r == index_of(s@, b),
{
    let mut i: usize = 0;
    while i < s.len()
        invariant
            i <= s@.len(),
            forall|j: int| 0 <= j < i ==> s@[j] != b,
        decreases s@.len() - i,
    {
        if s[i] == b {
            proof {
                lemma_index_of_unique(s@, b, i as int);
            }
            return i;
        }
        i += 1;
    }
    proof {
        lemma_index_of_unique(s@, b, i as int);
    }
    i
}

/// Whether some byte of `s` is below 0x20.
fn find_control(s: &[u8]) -> (r: bool)
    ensures
        r == has_control(s@),
{
    let mut i: usize = 0;
    while i < s.len()
        invariant
            i <= s@.len(),
            forall|j: int| 0 <= j < i ==> s@[j] >= 32,
        decreases s@.len() - i,
    {
        if s[i] < 32 {
            return true;
        }
        i += 1;
    }
    false
}

/// Parses an opening line without its terminator into the caster's name and password.
pub fn parse_hello(line: &[u8]) -> (r: Result<(String, String), AuthResults>)
    ensures
        match parse_hello_spec(line@) {
            Ok((n, p)) => r matches Ok((name, pw)) && encode_utf8(name@) == n && encode_utf8(pw@)
                == p,
            Err(e) => r == Err::<(String, String), AuthResults>(e),
        },
{
    if utf8_string(line).is_none() {
        return Err(AuthResults::Utf8Error);
    }
    let len = line.len();
    let i = find_byte(line, 32);
    proof {
        lemma_index_of(line@, 32);
    }
    if i == len {
        return Err(AuthResults::NotEnoughParts);
    }
    let first = &line[0..i];
    let rest = &line[i + 1..len];
    let j = find_byte(rest, 32);
    proof {
        lemma_index_of(rest@, 32);
        lemma_split_at_ascii(line@, i as int);
        assert(first@ == line@.subrange(0, i as int));
        assert(rest@ == line@.subrange(i + 1, len as int));
    }
    if !(first.len() == 5 && first[0] == 104u8 && first[1] == 101u8 && first[2] == 108u8
        && first[3] == 108u8 && first[4] == 111u8) {
        assert(first@ != hello_bytes()) by {
            if first@ == hello_bytes() {
                assert(first@[0] == 104u8 && first@[1] == 101u8 && first@[2] == 108u8 && first@[3]
                    == 108u8 && first@[4] == 111u8);
            }
        }
        return Err(AuthResults::MissingHello);
    }
    assert(first@ =~= hello_bytes());
    let rlen = rest.len();
    let name_b = &rest[0..j];
    let pw_b: &[u8] = if j < rlen {
        &rest[j + 1..rlen]
    } else {
        &rest[rlen..rlen]
    };
    proof {
        if j < rlen {
            lemma_split_at_ascii(rest@, j as int);
        } else {
            assert(name_b@ =~= rest@);
        }
        assert(pw_b@ =~= if j < rlen {
            rest@.subrange(j + 1, rlen as int)
        } else {
            Seq::<u8>::empty()
        });
    }
    if name_b.len() == 0 || find_control(name_b) {
        return Err(AuthResults::InvalidName);
    }
    match (utf8_string(name_b), utf8_string(pw_b)) {
        (Some(name), Some(pw)) => Ok((name, pw)),
        _ => Err(AuthResults::Utf8Error),
    }
}

} // verus!
