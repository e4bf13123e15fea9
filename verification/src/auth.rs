//! The signed-in user carried in the session cookie.
//!
//! The cookie's value is the user's JSON text, Base64-encoded; the JSON
//! itself is written and read by the application.
use crate::models::user::DbUserModel;
use vstd::prelude::*;
use vstd::utf8::{decode_utf8, encode_utf8, valid_utf8};

verus! {

/// The user a session cookie names.
pub struct AuthUser {
    pub name: String,
    pub id: i32,
    pub class_name: Option<String>,
    pub class_id: Option<i32>,
}

/// The name of the session cookie.
pub const AUTH_COOKIE: &'static str = "auth";

impl AuthUser {
    /// Signs the user out: gives the name of the session cookie to remove.
    pub fn logout(self) -> (cookie: String)
        ensures
            cookie@ == AUTH_COOKIE@,
    {
        String::from_str(AUTH_COOKIE)
    }
}

/// The session user of a user row; `class_name` is the name of the user's
/// class, which only a user with a class has.
pub fn session_user(model: &DbUserModel, class_name: Option<String>) -> (r: AuthUser)
    ensures
        r.id == model.id,
        r.name@ == model.name@,
        r.class_id == model.class_id,
        r.class_name == (if model.class_id is Some {
            class_name
        } else {
            None
        }),
{
    AuthUser {
        id: model.id,
        name: model.name.clone(),
        class_name: if model.class_id.is_some() {
            class_name
        } else {
            None
        },
        class_id: model.class_id,
    }
}

/// The standard Base64 text of some bytes, as `base64::encode` writes it.
pub uninterp spec fn base64_text(bytes: Seq<u8>) -> Seq<char>;

/// The bytes `base64::decode` reads from a text, `None` where it fails.
pub uninterp spec fn base64_bytes(text: Seq<char>) -> Option<Seq<u8>>;

/// `base64::encode`; decoding its text gives the bytes back.
#[verifier::external_body]
fn base64_encode(bytes: &[u8]) -> (r: String)
    ensures
        r@ == base64_text(bytes@),
        base64_bytes(r@) == Some(bytes@),
{
    base64::encode(bytes)
}

/// `base64::decode`, its error as `None`.
#[verifier::external_body]
fn base64_decode(text: &str) -> (r: Option<Vec<u8>>)
    ensures
        r is None <==> base64_bytes(text@) is None,
        r matches Some(v) ==> base64_bytes(text@) == Some(v@),
{
    base64::decode(text).ok()
}

/// `String::from_utf8`: the text of valid UTF-8 bytes, `None` for others.
#[verifier::external_body]
fn utf8_text(bytes: Vec<u8>) -> (r: Option<String>)
    ensures
        r is Some <==> valid_utf8(bytes@),
        r matches Some(s) ==> s@ == decode_utf8(bytes@),
{
    String::from_utf8(bytes).ok()
}

/// The text a cookie value carries: its Base64 decoding read as UTF-8.
pub open spec fn cookie_payload(value: Seq<char>) -> Option<Seq<char>> {
    match base64_bytes(value) {
        None => None,
        Some(b) => if valid_utf8(b) {
            Some(decode_utf8(b))
        } else {
            None
        },
    }
}

/// The cookie value carrying `json`: its UTF-8 bytes in Base64. Reading
/// the value back gives `json`.
pub fn encode_auth_cookie(json: &str) -> (r: String)
    ensures
        r@ == base64_text(encode_utf8(json@)),
        cookie_payload(r@) == Some(json@),
{
    let r = base64_encode(json.as_bytes());
    proof {
        vstd::utf8::encode_utf8_valid_utf8(json@);
        vstd::utf8::encode_utf8_decode_utf8(json@);
    }
    r
}

/// The text a cookie value carries, `None` when it is not Base64 of UTF-8.
pub fn decode_auth_cookie(value: &str) -> (r: Option<String>)
    ensures
        r is None <==> cookie_payload(value@) is None,
        r matches Some(s) ==> cookie_payload(value@) == Some(s@),
{
    match base64_decode(value) {
        None => None,
        Some(bytes) => utf8_text(bytes),
    }
}

} // verus!
