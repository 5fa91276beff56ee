//! Validation of caller-supplied input: usernames, passwords, email
//! addresses, licenses and bounding boxes. Each rule is a deterministic,
//! local check; what fails it is rejected with the matching parameter
//! error and never retried.

use vstd::prelude::*;

use crate::entities::{Entry, EntryView};
use crate::error::ParameterError;
use crate::geo::Bbox;
use crate::text::{chars_of, is_space_char};

verus! {

/// A username: non-empty, ASCII lowercase letters and digits only.
pub open spec fn valid_username(s: Seq<char>) -> bool {
    s.len() > 0 && forall|i: int|
        0 <= i < s.len() ==> {
            let u = (#[trigger] s[i]) as u32;
            ('a' as u32 <= u <= 'z' as u32) || ('0' as u32 <= u <= '9' as u32)
        }
}

/// A password: non-empty, without whitespace.
pub open spec fn valid_password(s: Seq<char>) -> bool {
    s.len() > 0 && forall|i: int| 0 <= i < s.len() ==> !is_space_char(#[trigger] s[i])
}

/// An email address: an `@` with something on both sides.
pub open spec fn valid_email(s: Seq<char>) -> bool {
    exists|k: int| 0 < k < s.len() - 1 && s[k] == '@'
}

/// Checks a username.
pub fn username(name: &str) -> (r: Result<(), ParameterError>)
    ensures
        r is Ok <==> valid_username(name@),
        r matches Err(e) ==> e == ParameterError::UserName,
{
    let v = chars_of(name);
    if v.len() == 0 {
        return Err(ParameterError::UserName);
    }
    let mut i: usize = 0;
    while i < v.len()
        invariant
            i <= v@.len(),
            v@ == name@,
            forall|m: int|
                0 <= m < i as int ==> {
                    let u = (#[trigger] v@[m]) as u32;
                    ('a' as u32 <= u <= 'z' as u32) || ('0' as u32 <= u <= '9' as u32)
                },
        decreases v@.len() - i,
    {
        let u = v[i] as u32;
        if !((97 <= u && u <= 122) || (48 <= u && u <= 57)) {
            return Err(ParameterError::UserName);
        }
        i = i + 1;
    }
    Ok(())
}

/// Checks a password.
pub fn password(pw: &str) -> (r: Result<(), ParameterError>)
    ensures
        r is Ok <==> valid_password(pw@),
        r matches Err(e) ==> e == ParameterError::Password,
{
    let v = chars_of(pw);
    if v.len() == 0 {
        return Err(ParameterError::Password);
    }
    let mut i: usize = 0;
    while i < v.len()
        invariant
            i <= v@.len(),
            v@ == pw@,
            forall|m: int| 0 <= m < i as int ==> !is_space_char(#[trigger] v@[m]),
        decreases v@.len() - i,
    {
        let c = v[i];
        if c == ' ' || c == '\t' || c == '\n' || c == '\r' {
            return Err(ParameterError::Password);
        }
        i = i + 1;
    }
    Ok(())
}

/// Checks an email address.
pub fn email(address: &str) -> (r: Result<(), ParameterError>)
    ensures
        r is Ok <==> valid_email(address@),
        r matches Err(e) ==> e == ParameterError::Email,
{
    let v = chars_of(address);
    let n = v.len();
    let mut i: usize = 0;
    while i < n
        invariant
            i <= n,
            n == v@.len(),
            v@ == address@,
            forall|m: int| 0 <= m < i as int ==> !(0 < m < n - 1 && v@[m] == '@'),
        decreases n - i,
    {
        if v[i] == '@' && i > 0 && i + 1 < n {
            return Ok(());
        }
        i = i + 1;
    }
    Err(ParameterError::Email)
}

/// A well-oriented, finite bounding box: all corners finite, the
/// south-west corner at or below the north-east one on both axes.
pub open spec fn valid_bbox(b: Bbox) -> bool {
    &&& b.is_finite()
    &&& b.south_west.lat.micro() <= b.north_east.lat.micro()
    &&& b.south_west.lng.micro() <= b.north_east.lng.micro()
}

/// Checks a bounding box.
pub fn bbox(b: &Bbox) -> (r: Result<(), ParameterError>)
    ensures
        r is Ok <==> valid_bbox(*b),
        r matches Err(e) ==> e == ParameterError::Bbox,
{
    match (b.south_west.lat, b.south_west.lng, b.north_east.lat, b.north_east.lng) {
        (
            crate::geo::Degrees::Finite(sw_lat),
            crate::geo::Degrees::Finite(sw_lng),
            crate::geo::Degrees::Finite(ne_lat),
            crate::geo::Degrees::Finite(ne_lng),
        ) => {
            if sw_lat <= ne_lat && sw_lng <= ne_lng {
                Ok(())
            } else {
                Err(ParameterError::Bbox)
            }
        },
        _ => Err(ParameterError::Bbox),
    }
}

/// A license an entry may carry: one of the two open data licenses the
/// directory accepts.
pub open spec fn valid_license(l: Option<Seq<char>>) -> bool {
    l matches Some(s) && (s == "CC0-1.0"@ || s == "ODbL-1.0"@)
}

/// What entry validation accepts: an accepted license, and a well-formed
/// email address if one is given.
pub open spec fn valid_entry(e: EntryView) -> bool {
    &&& valid_license(e.license)
    &&& e.email matches Some(s) ==> valid_email(s)
}

/// Something whose fields can be validated before it is persisted.
pub trait Validate {
    /// The validity this check decides.
    spec fn valid(&self) -> bool;

    /// Rejects invalid fields with the matching parameter error.
    fn validate(&self) -> (r: Result<(), ParameterError>)
        ensures
            r is Ok <==> self.valid(),
    ;
}

impl Validate for Entry {
    open spec fn valid(&self) -> bool {
        valid_entry(self@)
    }

    fn validate(&self) -> (r: Result<(), ParameterError>) {
        let license_ok = match &self.license {
            Some(l) => crate::text::str_eq(l.as_str(), "CC0-1.0") || crate::text::str_eq(
                l.as_str(),
                "ODbL-1.0",
            ),
            None => false,
        };
        if !license_ok {
            return Err(ParameterError::License);
        }
        match &self.email {
            Some(address) => email(address.as_str()),
            None => Ok(()),
        }
    }
}

} // verus!
