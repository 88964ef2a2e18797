//! The calls into `base64`, `hmac`/`sha2`, `serde_json`, the clock and the
//! randomly seeded hasher that the library makes, each behind one trusted item.
//!
//! Nothing in this file is proved: each contract below is what the called
//! crate's source or std's documentation shows, taken on trust.

use base64::engine::general_purpose::URL_SAFE_NO_PAD;
use base64::Engine;
use hmac::{Hmac, Mac};
use sha2::Sha256;
use std::collections::hash_map::{DefaultHasher, RandomState};
use std::hash::{BuildHasher, Hasher};
use std::time::{Duration, SystemTime, UNIX_EPOCH};
use vstd::prelude::*;

use crate::text::hex_digit;

verus! {

/// What `URL_SAFE_NO_PAD.encode(bytes)` returns: the RFC 4648 §5 base64url
/// text of `bytes`, without `=` padding.
pub uninterp spec fn base64url(bytes: Seq<u8>) -> Seq<char>;

/// What HMAC-SHA256 (`Hmac::<Sha256>`) computes over `msg` with `key`.
pub uninterp spec fn hmac_sha256(key: Seq<u8>, msg: Seq<u8>) -> Seq<u8>;

/// How a JSON string literal writes `c`: `"` and the backslash behind a
/// backslash; backspace, tab, line feed, form feed and carriage return as a
/// backslash and `b`, `t`, `n`, `f`, `r`; the other control characters below
/// U+0020 as a backslash, `u00` and two lowercase hex digits; every other
/// character as itself.
pub open spec fn json_escape(c: char) -> Seq<char> {
    let u = c as u32;
    if c == '"' {
        seq!['\\', '"']
    } else if c == '\\' {
        seq!['\\', '\\']
    } else if u == 8 {
        seq!['\\', 'b']
    } else if u == 9 {
        seq!['\\', 't']
    } else if u == 10 {
        seq!['\\', 'n']
    } else if u == 12 {
        seq!['\\', 'f']
    } else if u == 13 {
        seq!['\\', 'r']
    } else if u < 0x20 {
        seq!['\\', 'u', '0', '0', hex_digit((u / 16) as nat), hex_digit((u % 16) as nat)]
    } else {
        seq![c]
    }
}

/// The characters of `s`, each written as a JSON string literal writes it.
pub open spec fn json_escaped(s: Seq<char>) -> Seq<char>
    decreases s.len(),
{
    if s.len() == 0 {
        Seq::empty()
    } else {
        json_escaped(s.drop_last()) + json_escape(s.last())
    }
}

/// `s` as a quoted, escaped JSON string literal.
pub open spec fn json_quote(s: Seq<char>) -> Seq<char> {
    seq!['"'] + json_escaped(s) + seq!['"']
}

/// A JSON string literal is at most six characters per character of `s`, and two quotes.
pub proof fn lemma_json_quote_len(s: Seq<char>)
    ensures
        json_quote(s).len() <= 6 * s.len() + 2,
    decreases s.len(),
{
    lemma_json_escaped_len(s);
}

proof fn lemma_json_escaped_len(s: Seq<char>)
    ensures
        json_escaped(s).len() <= 6 * s.len(),
    decreases s.len(),
{
    if s.len() > 0 {
        lemma_json_escaped_len(s.drop_last());
    }
}

/// What `format!("{:?}", s)` gives for a string: its `Debug` quoting.
pub uninterp spec fn debug_quoted(s: Seq<char>) -> Seq<char>;

/// The characters of the URL-safe base64 alphabet: `A-Z a-z 0-9 - _`.
pub open spec fn is_base64url_char(c: char) -> bool {
    ||| ('A' <= c && c <= 'Z')
    ||| ('a' <= c && c <= 'z')
    ||| ('0' <= c && c <= '9')
    ||| c == '-'
    ||| c == '_'
}

/// The length of unpadded base64 text for `n` input bytes.
pub open spec fn base64_len(n: nat) -> nat {
    n / 3 * 4 + if n % 3 == 0 {
        0nat
    } else if n % 3 == 1 {
        2nat
    } else {
        3nat
    }
}

/// Inputs whose encoded length `base64::encoded_len` can compute without overflow.
pub open spec fn fits_base64(n: nat) -> bool {
    n / 3 <= (usize::MAX - 3) / 4
}

/// `URL_SAFE_NO_PAD.encode(input)` (base64 0.22). The contract claims that the
/// result is the named base64url text of the input, of the length that
/// `base64::encoded_len(n, false)` gives, over the URL-safe alphabet that the
/// engine is built with. The crate panics when that length overflows `usize`;
/// `requires` leaves those inputs out.
#[verifier::external_body]
pub(crate) fn base64url_encode(input: &[u8]) -> (r: String)
    requires
        fits_base64(input@.len()),
    ensures
        r@ == base64url(input@),
        r@.len() == base64_len(input@.len()),
        forall|i: int| 0 <= i < r@.len() ==> is_base64url_char(#[trigger] r@[i]),
{
    URL_SAFE_NO_PAD.encode(input)
}

/// `Hmac::<Sha256>::new_from_slice(key)`, `update(msg)`, `finalize()` (hmac 0.12,
/// sha2 0.10). The contract claims that the tag is the named HMAC-SHA256 of
/// `msg` under `key` and has SHA-256's 32-byte output size. `new_from_slice`
/// accepts keys of every length for HMAC, so the `expect` never fires.
#[verifier::external_body]
pub(crate) fn hmac_sha256_tag(key: &[u8], msg: &[u8]) -> (r: Vec<u8>)
    ensures
        r@ == hmac_sha256(key@, msg@),
        r@.len() == 32,
{
    let mut mac = Hmac::<Sha256>::new_from_slice(key).expect("HMAC accepts keys of any length");
    mac.update(msg);
    mac.finalize().into_bytes().to_vec()
}

/// `serde_json::to_string(s)` for a `&str` (serde_json 1.0.154). The contract
/// claims that the result is `s` quoted and escaped as `json_quote` spells
/// out: the escape table `ESCAPE` and `write_char_escape` in `ser.rs` escape
/// exactly the bytes below 0x20, `"` and the backslash, and copy every other byte.
/// Serialising a string cannot fail, so the `expect` never fires.
#[verifier::external_body]
pub(crate) fn json_string(s: &str) -> (r: String)
    ensures
        r@ == json_quote(s@),
{
    serde_json::to_string(s).expect("a string always serialises")
}

/// `format!("{:?}", s)` for a `&str`. The contract claims that the result is
/// the named `Debug` quoting of `s`.
#[verifier::external_body]
pub(crate) fn debug_string(s: &str) -> (r: String)
    ensures
        r@ == debug_quoted(s@),
{
    format!("{:?}", s)
}

#[verifier::external_type_specification]
#[verifier::external_body]
pub struct ExSystemTime(SystemTime);

/// `SystemTime::now()`. Nothing is claimed of it: it is the time.
#[verifier::external_body]
pub(crate) fn system_now() -> SystemTime {
    SystemTime::now()
}

/// `t.duration_since(UNIX_EPOCH)`: `None` when `t` is earlier than the epoch.
/// Nothing is claimed of the duration.
#[verifier::external_body]
pub(crate) fn since_epoch(t: &SystemTime) -> Option<Duration> {
    match t.duration_since(UNIX_EPOCH) {
        Ok(d) => Some(d),
        Err(_) => None,
    }
}

/// `Duration::as_secs`. Durations are opaque here, so nothing is claimed.
#[verifier::external_body]
pub(crate) fn duration_secs(d: &Duration) -> u64 {
    d.as_secs()
}

/// `Duration::as_nanos`. Durations are opaque here, so nothing is claimed.
#[verifier::external_body]
pub(crate) fn duration_nanos(d: &Duration) -> u128 {
    d.as_nanos()
}

/// `RandomState::new()`: a hasher builder with random keys, so nothing is claimed.
#[verifier::external_body]
pub(crate) fn random_state() -> RandomState {
    RandomState::new()
}

/// `BuildHasher::build_hasher` of a `RandomState`: a hasher keyed by it.
/// Nothing is claimed of the hasher.
#[verifier::external_body]
pub(crate) fn keyed_hasher(state: &RandomState) -> DefaultHasher {
    state.build_hasher()
}

/// `Hasher::write_u128`: feeds `x` to the hasher. Nothing is claimed of the
/// hasher's new state.
#[verifier::external_body]
pub(crate) fn hash_u128(hasher: &mut DefaultHasher, x: u128) {
    hasher.write_u128(x)
}

/// `Hasher::finish` of a randomly keyed hasher. Nothing is claimed of the value.
#[verifier::external_body]
pub(crate) fn hasher_finish(hasher: &DefaultHasher) -> u64 {
    hasher.finish()
}

} // verus!
