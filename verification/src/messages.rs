//! The one piece of user-facing text the core still produces: the email
//! asking a new user to confirm their address.

use vstd::prelude::*;

verus! {

/// The confirmation email for a freshly registered user: a fixed greeting,
/// the confirmation link carrying the user's id, and a fixed sign-off.
pub fn email_confirmation_email(u_id: &str) -> (r: String)
    ensures
        r@ == "Na du Weltverbesserer*,\nwir freuen uns dass du bei der Karte von Morgen mit dabei bist!\n\nBitte bestätige deine Email-Adresse hier:\nhttps://kartevonmorgen.org/#/?confirm_email="@
            + u_id@ + ".\n\neuphorische Grüße\ndas Karte von Morgen-Team"@,
{
    let mut r = String::new();
    r.append(
        "Na du Weltverbesserer*,\nwir freuen uns dass du bei der Karte von Morgen mit dabei bist!\n\nBitte bestätige deine Email-Adresse hier:\nhttps://kartevonmorgen.org/#/?confirm_email=",
    );
    r.append(u_id);
    r.append(".\n\neuphorische Grüße\ndas Karte von Morgen-Team");
    r
}

} // verus!
