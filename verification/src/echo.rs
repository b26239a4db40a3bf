//! The echo add-on: every message received on its service is answered with
//! the text it carried.
use crate::text::str_eq;
use vstd::prelude::*;

verus! {

/// The service the echo add-on listens on.
pub const ECHO_SERVICE_IN: &'static str = "test.echo";

/// The service its answers go out on.
pub const ECHO_SERVICE_OUT: &'static str = "test.echo.reply";

/// The answer to a message event that carried `text`; events of other
/// kinds get none.
pub fn echo_reply(kind: &str, text: &str) -> (r: Option<String>)
    ensures
        kind@ == "service_data"@ ==> (r matches Some(s) && s@ == "Echo addon on this device received: "@ + text@),
        kind@ != "service_data"@ ==> r is None,
{
    if str_eq(kind, "service_data") {
        Some("Echo addon on this device received: ".to_owned().concat(text))
    } else {
        None
    }
}

} // verus!
