//! Users and the forms about them.
use crate::auth::AuthUser;
use crate::text::{decimal, decimal_text};
use vstd::prelude::*;
use vstd::std_specs::convert::FromSpecImpl;

verus! {

/// The text of a class: its number, a dash, and its name.
pub open spec fn class_text(class: int, class_name: Seq<char>) -> Seq<char> {
    decimal(class) + "-"@ + class_name
}

fn class_label(class: i32, class_name: &String) -> (r: String)
    ensures
        r@ == class_text(class as int, class_name@),
{
    let mut out = decimal_text(class);
    out.append("-");
    out.append(class_name.as_str());
    out
}

/// The registration form.
pub struct RegisterFormModel {
    pub name: String,
    pub password: String,
    pub confirm_password: String,
    pub class: i32,
    pub class_name: String,
}

impl RegisterFormModel {
    /// The class's text: `{class}-{class_name}`.
    pub fn cname(&self) -> (r: String)
        ensures
            r@ == class_text(self.class as int, self.class_name@),
    {
        class_label(self.class, &self.class_name)
    }
}

/// The settings form: account data and the weight of each weekday.
#[derive(Debug)]
pub struct ChangeFormModel {
    pub name: String,
    pub password: String,
    pub confirm_password: String,
    pub class: i32,
    pub class_name: String,
    pub mo: u32,
    pub tu: u32,
    pub we: u32,
    pub th: u32,
    pub fr: u32,
    pub sa: u32,
    pub su: u32,
}

impl ChangeFormModel {
    /// The class's text: `{class}-{class_name}`.
    pub fn cname(&self) -> (r: String)
        ensures
            r@ == class_text(self.class as int, self.class_name@),
    {
        class_label(self.class, &self.class_name)
    }

    /// The weekday weights, Monday first.
    pub fn weights(&self) -> (r: Vec<u32>)
        ensures
            r@ == seq![self.mo, self.tu, self.we, self.th, self.fr, self.sa, self.su],
    {
        let mut v: Vec<u32> = Vec::new();
        v.push(self.mo);
        v.push(self.tu);
        v.push(self.we);
        v.push(self.th);
        v.push(self.fr);
        v.push(self.sa);
        v.push(self.su);
        assert(v@ =~= seq![self.mo, self.tu, self.we, self.th, self.fr, self.sa, self.su]);
        v
    }
}

/// The login form.
pub struct LoginFormModel {
    pub name: String,
    pub password: String,
}

/// A user row to insert.
pub struct NewUserModel {
    pub name: String,
    pub pwhs: String,
    pub class_id: Option<i32>,
}

/// A user row.
pub struct DbUserModel {
    pub id: i32,
    pub name: String,
    pub pwhs: String,
    pub class_id: Option<i32>,
    pub day_weights: Vec<i32>,
}

/// A signed-in user.
#[derive(Clone, Debug)]
pub struct User {
    pub name: String,
    pub id: i32,
    pub class_name: Option<String>,
    pub class_id: Option<i32>,
}

impl From<AuthUser> for User {
    fn from(u: AuthUser) -> (r: Self) {
        User { name: u.name, id: u.id, class_name: u.class_name, class_id: u.class_id }
    }
}

impl FromSpecImpl<AuthUser> for User {
    open spec fn obeys_from_spec() -> bool {
        true
    }

    open spec fn from_spec(u: AuthUser) -> User {
        User { name: u.name, id: u.id, class_name: u.class_name, class_id: u.class_id }
    }
}

} // verus!
