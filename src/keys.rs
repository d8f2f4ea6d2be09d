use vstd::prelude::*;
use rand::Rng;
use crate::codec::ascii_text;

verus! {

/// Number of characters in a session key.
pub const KEY_LEN: usize = 7;

/// ASCII letters and digits.
pub open spec fn is_alphanumeric(c: u8) -> bool {
    (48 <= c <= 57) || (65 <= c <= 90) || (97 <= c <= 122)
}

pub open spec fn is_alphanumeric_char(c: char) -> bool {
    let v = c as u32;
    (48 <= v <= 57) || (65 <= v <= 90) || (97 <= v <= 122)
}

/// A well-formed session key: `KEY_LEN` letters and digits.
pub open spec fn is_session_key(k: Seq<char>) -> bool {
    &&& k.len() == KEY_LEN
    &&& forall|i: int| 0 <= i < k.len() ==> is_alphanumeric_char(#[trigger] k[i])
}

/// Relies on rand's `Alphanumeric` distribution, drawn from the thread-local
/// generator: every draw is one of the 62 bytes `A-Z`, `a-z`, `0-9`.
#[verifier::external_body]
fn random_alphanumeric() -> (c: u8)
    ensures
        is_alphanumeric(c),
{
    rand::thread_rng().sample(rand::distributions::Alphanumeric)
}

/// Draws a fresh random session key.
pub fn generate_key() -> (r: String)
    ensures
        is_session_key(r@),
{
    let mut bytes: Vec<u8> = Vec::new();
    let mut i: usize = 0;
    while i < KEY_LEN
        invariant
            i <= KEY_LEN,
            bytes@.len() == i,
            forall|j: int| 0 <= j < i ==> is_alphanumeric(bytes@[j]),
            forall|j: int| 0 <= j < i ==> bytes@[j] < 128,
        decreases KEY_LEN - i,
    {
        bytes.push(random_alphanumeric());
        i = i + 1;
    }
    let key = ascii_text(&bytes);
    assert forall|i: int| 0 <= i < key@.len() implies is_alphanumeric_char(#[trigger] key@[i]) by {
        assert(key@[i] as u32 == bytes@[i] as u32);
    }
    key
}

} // verus!
