//! Session defaults and identities for the streaming protocol: the
//! cognitive-state dimension a session opens at when none is named, and the
//! session id synthesized from the clock when none is supplied.

use vstd::prelude::*;
use crate::forecast::decimal;
use crate::text::{owned, push_all, push_char};

verus! {

/// The dimension a session opens at when the request names none.
pub fn default_dimension() -> (d: usize)
    ensures
        d == 4,
{
    4
}


fn push_decimal_u128(s: &mut String, n: u128)
    ensures
        final(s)@ == old(s)@ + decimal(n as nat),
    decreases n,
{
    if n >= 10 {
        push_decimal_u128(s, n / 10);
    }
    let d = (n % 10) as u32;
    let c = match d {
        0 => '0',
        1 => '1',
        2 => '2',
        3 => '3',
        4 => '4',
        5 => '5',
        6 => '6',
        7 => '7',
        8 => '8',
        _ => '9',
    };
    push_char(s, c);
    proof {
        if n >= 10 {
            assert(decimal(n as nat) == decimal((n / 10) as nat).push(crate::forecast::digit_char((n % 10) as int)));
        }
        assert(c == crate::forecast::digit_char((n % 10) as int));
    }
}

/// A session id made from a clock reading in nanoseconds: `hari-` then the
/// reading in decimal.
pub fn session_id_from_nanos(nanos: u128) -> (id: String)
    ensures
        id@ == "hari-"@ + decimal(nanos as nat),
{
    let mut id = owned("hari-");
    push_decimal_u128(&mut id, nanos);
    id
}

/// Nanoseconds since the Unix epoch, read from `SystemTime::now` (0 when the
/// clock reads before the epoch). Trusted, and nothing is claimed of the
/// value: it is whatever the clock reads.
#[verifier::external_body]
fn unix_now_nanos() -> u128 {
    std::time::SystemTime::now().duration_since(std::time::UNIX_EPOCH).map(|d| d.as_nanos()).unwrap_or(0)
}

/// A session id synthesized from the clock, `hari-<nanoseconds>`. Replay
/// parity does not depend on it being globally unique.
pub fn synth_session_id() -> (id: String)
    ensures
        exists|nanos: u128| id@ == "hari-"@ + decimal(nanos as nat),
{
    session_id_from_nanos(unix_now_nanos())
}

} // verus!
