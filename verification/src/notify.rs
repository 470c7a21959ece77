//! The payload handed to the external notifier: one body text per new
//! message, built from its sender and decoded subject. Delivering it is the
//! notifier's business, not this library's.

use vstd::prelude::*;
use vstd::string::StringExecFns;

verus! {

/// The body text of one notification: the sender line, then the subject
/// line.
pub fn notification_body(subject: &str, from: &str) -> (r: String)
    ensures
        r@ == "From: "@ + from@ + "\n"@ + "Subject: "@ + subject@,
{
    let mut body = String::from_str("From: ");
    body.append(from);
    body.append("\n");
    body.append("Subject: ");
    body.append(subject);
    proof {
        assert(body@ =~= "From: "@ + from@ + "\n"@ + "Subject: "@ + subject@);
    }
    body
}

} // verus!
