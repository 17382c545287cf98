//! The copy of the crate index that is kept on disk, and its age.
use crate::digits;
use flate2::read::GzDecoder;
use std::io::Read;
use vstd::prelude::*;
use vstd::string::*;

verus! {

/// The age, in seconds, up to which the copy on disk is in date.
pub const CACHE_TTL_SECS: u64 = 86400;

/// The whole number that a JSON object holds under a key: what `serde_json` reads, where `text` is
/// the JSON of an object and its member `key` is a number that 64 bits hold without a sign.
pub uninterp spec fn json_number(text: Seq<char>, key: Seq<char>) -> Option<u64>;

/// The text that a gzip file holds: what `flate2` reads from it, or the message of its error.
pub uninterp spec fn gunzipped(data: Seq<u8>) -> Result<Seq<char>, Seq<char>>;

/// Whether `s` is made of ASCII letters only.
pub open spec fn letters(s: Seq<char>) -> bool {
    forall|i: int|
        0 <= i < s.len() ==> ('a' <= #[trigger] s[i] && s[i] <= 'z') || ('A' <= s[i] && s[i] <= 'Z')
}

/// `serde_json::from_str` reads `text` as a JSON value; the member `key` of the value is looked up,
/// and taken where it is a whole number of 64 bits without a sign. What is read is a function of the
/// text and the key, and no more is claimed of it.
#[verifier::external_body]
fn read_json_number(text: &str, key: &str) -> (r: Option<u64>)
    ensures
        r == json_number(text@, key@),
{
    match serde_json::from_str::<serde_json::Value>(text) {
        Ok(value) => value[key].as_u64(),
        Err(_) => None,
    }
}

/// `serde_json::Value::to_string` writes an object with one member, a number, without any white
/// space. A key that is made of ASCII letters stands in the text as it is, and reading the text gives
/// back the number.
#[verifier::external_body]
fn write_json_number(key: &str, value: u64) -> (r: String)
    requires
        letters(key@),
    ensures
        r@ == seq!['{', '"'] + key@ + seq!['"', ':'] + digits::decimal(value as nat) + seq!['}'],
        json_number(r@, key@) == Some(value),
{
    let mut members = serde_json::Map::new();
    members.insert(key.to_string(), serde_json::Value::from(value));
    serde_json::Value::Object(members).to_string()
}

/// `GzDecoder::read_to_string` unpacks a gzip file into a text, or fails with an error, whose
/// message is kept. Both are functions of the data, as long as there is memory for the text, and no
/// more is claimed of them.
#[verifier::external_body]
fn gunzip(data: &[u8]) -> (r: Result<String, String>)
    ensures
        match r {
            Ok(s) => gunzipped(data@) == Ok::<Seq<char>, Seq<char>>(s@),
            Err(e) => gunzipped(data@) == Err::<Seq<char>, Seq<char>>(e@),
        },
{
    let mut content = String::new();
    match GzDecoder::new(data).read_to_string(&mut content) {
        Ok(_) => Ok(content),
        Err(e) => Err(e.to_string()),
    }
}

/// Whether the copy on disk is out of date at the time `now`, in seconds: where the text `meta` that
/// goes with it is missing, holds no time, or holds one that is too long ago.
pub open spec fn expired(meta: Option<Seq<char>>, now: u64) -> bool {
    match meta {
        None => true,
        Some(text) => match json_number(text, "lastUpdate"@) {
            None => true,
            Some(time) => now - time > CACHE_TTL_SECS,
        },
    }
}

/// Tells whether the copy on disk is out of date at the time `now`, in seconds, where `meta` is the
/// text that goes with it.
pub fn is_cache_expired(meta: Option<&str>, now: u64) -> (r: bool)
    ensures
        r == expired(
            match meta {
                Some(text) => Some(text@),
                None => None,
            },
            now,
        ),
{
    match meta {
        None => true,
        Some(text) => expired_since(read_json_number(text, "lastUpdate"), now),
    }
}

/// Tells whether a copy that was made at the time `time` is out of date at the time `now`, both in
/// seconds. One that was made at no known time is.
pub fn expired_since(time: Option<u64>, now: u64) -> (r: bool)
    ensures
        r == match time {
            Some(t) => now - t > CACHE_TTL_SECS,
            None => true,
        },
{
    match time {
        Some(t) => now.saturating_sub(t) > CACHE_TTL_SECS,
        None => true,
    }
}

/// The text that goes with a copy of the index that is made at the time `now`, in seconds. The copy
/// is in date from then on, for as long as its age is not above the limit.
pub fn meta_json(now: u64) -> (r: String)
    ensures
        r@ == "{\"lastUpdate\":"@ + digits::decimal(now as nat) + seq!['}'],
        json_number(r@, "lastUpdate"@) == Some(now),
        forall|later: u64| expired(Some(r@), later) <==> later > now + CACHE_TTL_SECS,
{
    proof {
        reveal_strlit("lastUpdate");
        reveal_strlit("{\"lastUpdate\":");
        assert(letters("lastUpdate"@));
        assert("{\"lastUpdate\":"@ =~= seq!['{', '"'] + "lastUpdate"@ + seq!['"', ':']);
    }
    write_json_number("lastUpdate", now)
}

/// Unpacks the crate index from the gzip file that it is published as.
pub fn index_text(data: &[u8]) -> (r: Result<String, String>)
    ensures
        match r {
            Ok(s) => gunzipped(data@) == Ok::<Seq<char>, Seq<char>>(s@),
            Err(e) => gunzipped(data@) == Err::<Seq<char>, Seq<char>>(e@),
        },
{
    gunzip(data)
}

} // verus!
