//! Who may use the protected routes.
use vstd::prelude::*;

use crate::intent;
use crate::rejection::Rejection;
use crate::text::same_text;

verus! {

/// The key that was provided opens the protected routes: it is the one that
/// is configured, or none is.
pub open spec fn opens(expected: Option<Seq<char>>, provided: Option<Seq<char>>) -> bool {
    expected is None || provided == expected
}

/// Lets a request pass, or turns it down for its key.
pub fn require_api_key(expected: &Option<String>, provided: Option<&str>) -> (r: Result<
    (),
    Rejection,
>)
    ensures
        ({
            let given = match provided {
                Some(key) => Some(key@),
                None => None,
            };
            if opens(intent::text(*expected), given) {
                r == Ok::<(), Rejection>(())
            } else {
                r == Err::<(), Rejection>(Rejection::InvalidApiKey)
            }
        }),
        r is Ok <==> (*expected matches Some(key) ==> provided is Some && provided->Some_0@ == key@),
{
    match expected {
        None => Ok(()),
        Some(key) => match provided {
            Some(given) => if same_text(given, key.as_str()) {
                Ok(())
            } else {
                Err(Rejection::InvalidApiKey)
            },
            None => Err(Rejection::InvalidApiKey),
        },
    }
}

} // verus!
