//! Chat room user names and their admission rules.
use vstd::prelude::*;

use vstd::utf8::encode_utf8;

verus! {

/// Relies on `char::is_alphanumeric`: the result depends on the
/// character alone.
pub uninterp spec fn alnum_of(c: char) -> bool;

/// Relies on `char::is_alphanumeric`: the result depends on the
/// character alone.
#[verifier::external_body]
fn char_is_alphanumeric(c: char) -> (r: bool)
    ensures
        r == alnum_of(c),
{
    c.is_alphanumeric()
}

/// Why a name was refused.
#[derive(Debug, PartialEq)]
pub enum UserError {
    Blank,
    NotAlphanumeric,
    TooLong,
}

impl UserError {
    /// The error text reported to the joining client.
    pub fn message(&self) -> (s: String)
        ensures
            match self {
                UserError::Blank => s@ == "Will not accept blank name"@,
                UserError::NotAlphanumeric => s@ == "Not Alphanumeric"@,
                UserError::TooLong => s@ == "Name is too long"@,
            },
    {
        match self {
            UserError::Blank => String::from_str("Will not accept blank name"),
            UserError::NotAlphanumeric => String::from_str("Not Alphanumeric"),
            UserError::TooLong => String::from_str("Name is too long"),
        }
    }
}

/// A name is admissible when it is nonempty, alphanumeric throughout,
/// and at most sixteen bytes.
pub open spec fn valid_name(name: Seq<char>) -> bool {
    &&& name.len() > 0
    &&& forall|k: int| 0 <= k < name.len() ==> alnum_of(#[trigger] name[k])
    &&& encode_utf8(name).len() <= 16
}

/// A chat room member.
#[derive(Debug)]
pub struct User {
    pub name: String,
}

impl User {
    /// Admits a user exactly when the name passes validation.
    pub fn new(name: &str) -> (r: Result<Self, UserError>)
        ensures
            match r {
                Ok(u) => valid_name(name@) && u.name@ == name@,
                Err(e) => !valid_name(name@) && match e {
                    UserError::Blank => name@.len() == 0,
                    UserError::NotAlphanumeric => name@.len() > 0 && exists|k: int|
                        0 <= k < name@.len() && !alnum_of(#[trigger] name@[k]),
                    UserError::TooLong => name@.len() > 0 && (forall|k: int|
                        0 <= k < name@.len() ==> alnum_of(#[trigger] name@[k])) && encode_utf8(
                        name@,
                    ).len() > 16,
                },
            },
    {
        match User::validate(name) {
            Ok(()) => Ok(Self { name: name.to_owned() }),
            Err(e) => Err(e),
        }
    }

    /// Checks the admission rules in order: nonempty, alphanumeric, at
    /// most sixteen bytes.
    fn validate(name: &str) -> (r: Result<(), UserError>)
        ensures
            match r {
                Ok(()) => valid_name(name@),
                Err(e) => !valid_name(name@) && match e {
                    UserError::Blank => name@.len() == 0,
                    UserError::NotAlphanumeric => name@.len() > 0 && exists|k: int|
                        0 <= k < name@.len() && !alnum_of(#[trigger] name@[k]),
                    UserError::TooLong => name@.len() > 0 && (forall|k: int|
                        0 <= k < name@.len() ==> alnum_of(#[trigger] name@[k])) && encode_utf8(
                        name@,
                    ).len() > 16,
                },
            },
    {
        let n = name.unicode_len();
        if n == 0 {
            return Err(UserError::Blank);
        }
        let mut k: usize = 0;
        while k < n
            invariant
                n == name@.len(),
                k <= n,
                forall|j: int| 0 <= j < k ==> alnum_of(#[trigger] name@[j]),
            decreases n - k,
        {
            let c = name.get_char(k);
            if !char_is_alphanumeric(c) {
                return Err(UserError::NotAlphanumeric);
            }
            k += 1;
        }
        let bs = name.as_bytes();
        if bs.len() > 16 {
            return Err(UserError::TooLong);
        }
        Ok(())
    }
}

} // verus!
