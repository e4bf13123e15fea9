//! Registering users and signing them in.
use crate::models::user::{DbUserModel, LoginFormModel, NewUserModel, RegisterFormModel};
use vstd::prelude::*;
use vstd::std_specs::convert::FromSpecImpl;
use vstd::utf8::{encode_utf8, is_ascii_chars};

verus! {

/// Why a user action failed.
#[derive(Debug)]
pub enum UserApiError {
    UserExists,
    UserNotFound,
    WrongPassword,
    MismatchedPasswords,
    PasswordTooShort,
    UsernameTooShort,
    /// The password could not be hashed.
    PasswordHashFailed,
    /// The stored hash could not be checked: it is not ASCII, or `bcrypt`
    /// cannot read it or check the password against it.
    PasswordCheckFailed,
    DieselError(diesel::result::Error),
}

impl From<diesel::result::Error> for UserApiError {
    fn from(e: diesel::result::Error) -> (r: Self) {
        UserApiError::DieselError(e)
    }
}

impl FromSpecImpl<diesel::result::Error> for UserApiError {
    open spec fn obeys_from_spec() -> bool {
        true
    }

    open spec fn from_spec(e: diesel::result::Error) -> UserApiError {
        UserApiError::DieselError(e)
    }
}

/// Fewest bytes of a user name.
pub const MIN_NAME_BYTES: usize = 4;

/// Fewest bytes of a password.
pub const MIN_PASSWORD_BYTES: usize = 6;

/// What `bcrypt::verify` gives for a password and a stored hash: whether
/// they match, or `None` where it fails (a malformed hash, a password it
/// cannot hash).
pub uninterp spec fn bcrypt_verdict(password: Seq<char>, hash: Seq<char>) -> Option<bool>;

/// `bcrypt::verify(password, hash)`, its error as `None`. The hash must be
/// ASCII: `verify` slices the hash's last part by bytes and panics where a
/// character crosses the cut.
#[verifier::external_body]
fn verify_password(password: &str, hash: &str) -> (r: Option<bool>)
    requires
        is_ascii_chars(hash@),
    ensures
        r == bcrypt_verdict(password@, hash@),
{
    bcrypt::verify(password, hash).ok()
}

/// `bcrypt::hash(password, DEFAULT_COST)`, its error as `None`. The salt is
/// random, so the hash is not determined by the password; the source shows
/// that a password holding a NUL byte cannot be hashed, that the hash is
/// ASCII (`$2b$`, the cost's digits, `$` and the bcrypt Base64 alphabet) and
/// that `verify` accepts the password against any hash this returns.
#[verifier::external_body]
fn hash_password(password: &str) -> (r: Option<String>)
    ensures
        password@.contains('\0') ==> r is None,
        r matches Some(h) ==> is_ascii_chars(h@),
        r matches Some(h) ==> bcrypt_verdict(password@, h@) == Some(true),
{
    bcrypt::hash(password, bcrypt::DEFAULT_COST).ok()
}

/// The error the registration form gets before the user table is consulted,
/// if any: a name of fewer than four bytes, passwords that differ, or a
/// password of fewer than six bytes, checked in that order.
pub open spec fn form_error(model: RegisterFormModel) -> Option<UserApiError> {
    if encode_utf8(model.name@).len() < MIN_NAME_BYTES {
        Some(UserApiError::UsernameTooShort)
    } else if model.password@ != model.confirm_password@ {
        Some(UserApiError::MismatchedPasswords)
    } else if encode_utf8(model.password@).len() < MIN_PASSWORD_BYTES {
        Some(UserApiError::PasswordTooShort)
    } else {
        None
    }
}

/// Checks the registration form; `name_taken` tells whether a user of that
/// name exists. On success gives the row to insert, with the password
/// hashed; its class is left for the caller to fill in.
pub fn add_user(model: &RegisterFormModel, name_taken: bool) -> (r: Result<NewUserModel, UserApiError>)
    ensures
        form_error(*model) matches Some(e) ==> r == Err::<NewUserModel, UserApiError>(e),
        form_error(*model) is None && name_taken ==> r matches Err(UserApiError::UserExists),
        form_error(*model) is None && !name_taken ==> (r is Ok || r matches Err(UserApiError::PasswordHashFailed)),
        form_error(*model) is None && !name_taken && model.password@.contains('\0') ==> r matches Err(UserApiError::PasswordHashFailed),
        r matches Ok(u) ==> {
            &&& u.name@ == model.name@
            &&& u.class_id is None
            &&& is_ascii_chars(u.pwhs@)
            &&& bcrypt_verdict(model.password@, u.pwhs@) == Some(true)
        },
{
    if model.name.as_str().as_bytes().len() < MIN_NAME_BYTES {
        return Err(UserApiError::UsernameTooShort);
    } else if model.password != model.confirm_password {
        return Err(UserApiError::MismatchedPasswords);
    } else if model.password.as_str().as_bytes().len() < MIN_PASSWORD_BYTES {
        return Err(UserApiError::PasswordTooShort);
    }
    if name_taken {
        return Err(UserApiError::UserExists);
    }
    match hash_password(model.password.as_str()) {
        None => Err(UserApiError::PasswordHashFailed),
        Some(pwhs) => Ok(NewUserModel { name: model.name.clone(), pwhs, class_id: None }),
    }
}

/// The sign-in decision once bcrypt has said whether the password matches.
fn decide_login(user: DbUserModel, matches: bool) -> (r: Result<DbUserModel, UserApiError>)
    ensures
        matches ==> r == Ok::<DbUserModel, UserApiError>(user),
        !matches ==> r matches Err(UserApiError::WrongPassword),
{
    if matches {
        Ok(user)
    } else {
        Err(UserApiError::WrongPassword)
    }
}

/// Signs a user in: `found` is the user of the form's name, if there is
/// one. Fails with `UserNotFound` when there is none, with `WrongPassword`
/// when the password does not match the stored hash, and with
/// `PasswordCheckFailed` when the hash cannot be checked (it is not ASCII,
/// or `bcrypt` fails on it). bcrypt runs once.
pub fn login(model: &LoginFormModel, found: Option<DbUserModel>) -> (r: Result<DbUserModel, UserApiError>)
    ensures
        found is None ==> r matches Err(UserApiError::UserNotFound),
        found matches Some(u) ==> (!is_ascii_chars(u.pwhs@) ==> r matches Err(UserApiError::PasswordCheckFailed)),
        found matches Some(u) ==> (is_ascii_chars(u.pwhs@) ==> match bcrypt_verdict(model.password@, u.pwhs@) {
            Some(true) => r == Ok::<DbUserModel, UserApiError>(u),
            Some(false) => r matches Err(UserApiError::WrongPassword),
            None => r matches Err(UserApiError::PasswordCheckFailed),
        }),
{
    match found {
        None => Err(UserApiError::UserNotFound),
        Some(user) => {
            if !user.pwhs.is_ascii() {
                return Err(UserApiError::PasswordCheckFailed);
            }
            match verify_password(model.password.as_str(), user.pwhs.as_str()) {
                None => Err(UserApiError::PasswordCheckFailed),
                Some(true) => Ok(user),
                Some(false) => Err(UserApiError::WrongPassword),
            }
        },
    }
}

} // verus!
