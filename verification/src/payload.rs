//! Event payloads: small JSON documents attached to ledger entries.
//!
//! The payloads are assembled in verified code from JSON string literals
//! produced by `serde_json`, so the escaping is never hand-rolled; reading a
//! field back out of a payload goes through `serde_json`'s parser.

use vstd::prelude::*;
use vstd::string::StringExecFns;

verus! {

/// The JSON string literal (quoted and escaped) that renders `s`.
pub uninterp spec fn json_quoted(s: Seq<char>) -> Seq<char>;

/// The `key` field of the JSON document `data`, when `data` parses as an
/// object whose `key` field is a string; `None` otherwise.
pub uninterp spec fn json_field(data: Seq<char>, key: Seq<char>) -> Option<Seq<char>>;

/// Relies on `serde_json::to_string` applied to a `&str`: it renders the
/// string as a quoted, escaped JSON string literal, a function of the
/// characters alone. Serialising a string slice cannot fail (its `Serialize`
/// impl never errors and the writer is an in-memory buffer), so the error arm
/// is unreachable.
#[verifier::external_body]
fn json_quote(s: &str) -> (r: String)
    ensures
        r@ == json_quoted(s@),
{
    match serde_json::to_string(s) {
        Ok(r) => r,
        Err(_) => String::new(),
    }
}

/// Relies on `serde_json::from_str::<Value>`, `Value::get` and
/// `Value::as_str`: parses `data` and extracts the string value of the field
/// `key` of the top-level object, `None` on a parse failure, a missing field
/// or a non-string field. The result is a function of `data` and `key` alone.
#[verifier::external_body]
pub(crate) fn json_str_field(data: &str, key: &str) -> (r: Option<String>)
    ensures
        r is Some <==> json_field(data@, key@) is Some,
        r is Some ==> r->0@ == json_field(data@, key@)->0,
{
    match serde_json::from_str::<serde_json::Value>(data) {
        Ok(v) => match v.get(key) {
            Some(f) => match f.as_str() {
                Some(s) => Some(s.to_string()),
                None => None,
            },
            None => None,
        },
        Err(_) => None,
    }
}

/// The payload recorded with an ADD event.
pub open spec fn add_payload(content: Seq<char>, scope: Seq<char>) -> Seq<char> {
    "{\"content\":"@ + json_quoted(content) + ",\"scope\":"@ + json_quoted(scope) + "}"@
}

/// Builds the payload recorded with an ADD event.
pub fn build_add_payload(content: &str, scope: &str) -> (r: String)
    ensures
        r@ == add_payload(content@, scope@),
{
    let mut r = "{\"content\":".to_owned();
    r.append(json_quote(content).as_str());
    r.append(",\"scope\":");
    r.append(json_quote(scope).as_str());
    r.append("}");
    proof {
        assert(r@ =~= add_payload(content@, scope@));
    }
    r
}

/// The payload recorded with an EDIT event.
pub open spec fn edit_payload(old_content: Seq<char>, new_content: Seq<char>) -> Seq<char> {
    "{\"old\":"@ + json_quoted(old_content) + ",\"new\":"@ + json_quoted(new_content) + "}"@
}

/// Builds the payload recorded with an EDIT event.
pub fn build_edit_payload(old_content: &str, new_content: &str) -> (r: String)
    ensures
        r@ == edit_payload(old_content@, new_content@),
{
    let mut r = "{\"old\":".to_owned();
    r.append(json_quote(old_content).as_str());
    r.append(",\"new\":");
    r.append(json_quote(new_content).as_str());
    r.append("}");
    proof {
        assert(r@ =~= edit_payload(old_content@, new_content@));
    }
    r
}

/// The payload recorded with an EXPIRE event; the ratio is given in
/// hundredths.
pub open spec fn expire_payload(ratio_h: int) -> Seq<char> {
    "{\"reason\":\"low_engagement\",\"ratio\":"@ + crate::digits::hundredths_str(ratio_h) + "}"@
}

/// Builds the payload recorded with an EXPIRE event.
pub fn build_expire_payload(ratio_h: u64) -> (r: String)
    ensures
        r@ == expire_payload(ratio_h as int),
{
    let mut r = "{\"reason\":\"low_engagement\",\"ratio\":".to_owned();
    r.append(crate::digits::u64_hundredths(ratio_h).as_str());
    r.append("}");
    proof {
        assert(r@ =~= expire_payload(ratio_h as int));
    }
    r
}

/// The payload recorded with a PROMOTE event from generation 0 to 1.
pub open spec fn promote01_payload() -> Seq<char> {
    "{\"from\":0,\"to\":1}"@
}

/// Builds the payload recorded with a PROMOTE event from generation 0 to 1.
pub fn build_promote01_payload() -> (r: String)
    ensures
        r@ == promote01_payload(),
{
    "{\"from\":0,\"to\":1}".to_owned()
}

/// The payload recorded with a PROMOTE event from generation 1 to 2.
pub open spec fn promote12_payload() -> Seq<char> {
    "{\"from\":1,\"to\":2}"@
}

/// Builds the payload recorded with a PROMOTE event from generation 1 to 2.
pub fn build_promote12_payload() -> (r: String)
    ensures
        r@ == promote12_payload(),
{
    "{\"from\":1,\"to\":2}".to_owned()
}

} // verus!
