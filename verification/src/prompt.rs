//! Decisions of the PIN prompt that serves the authorization gate.
//!
//! The prompt collects up to six digits; a full entry is compared with
//! the session's PIN, and the comparison's outcome is what the prompt
//! hands to [`crate::auth::AuthGate::resolve`] — a match resolves the
//! visible request `true`, a dismissal resolves it `false`.

use vstd::prelude::*;

use crate::amount::is_digit;

verus! {

/// Whether the PIN field may take this value: at most six characters,
/// all decimal digits.
pub fn pin_input_acceptable(v: &str) -> (r: bool)
    ensures
        r == (v@.len() <= 6 && forall|i: int| 0 <= i < v@.len() ==> is_digit(#[trigger] v@[i])),
{
    let n = v.unicode_len();
    if n > 6 {
        return false;
    }
    let mut i: usize = 0;
    while i < n
        invariant
            0 <= i <= n,
            n == v@.len(),
            forall|j: int| 0 <= j < i ==> is_digit(#[trigger] v@[j]),
        decreases n - i,
    {
        let c = v.get_char(i);
        if c < '0' || c > '9' {
            return false;
        }
        i += 1;
    }
    true
}

/// Whether the entry is complete and the prompt should decide.
pub fn pin_complete(v: &str) -> (r: bool)
    ensures
        r == (v@.len() == 6),
{
    v.unicode_len() == 6
}

/// The prompt's verdict on a completed entry: `true` exactly when the
/// entered PIN is the stored one.
pub fn pin_matches(entered: &String, stored: &String) -> (r: bool)
    ensures
        r == (entered@ == stored@),
{
    *entered == *stored
}

} // verus!
