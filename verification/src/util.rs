use vstd::prelude::*;

verus! {

/// The absolute difference between two integers.
pub open spec fn abs_difference(a: u32, b: u32) -> u32 {
    (if a > b {
        a - b
    } else {
        b - a
    }) as u32
}

/// Returns the absolute difference between two integers.
pub fn abs_diff(a: u32, b: u32) -> (r: u32)
    ensures
        r == abs_difference(a, b),
{
    if a > b {
        a - b
    } else {
        b - a
    }
}

/// Returns the current time in microseconds since the UNIX epoch, on 32 bits: the signed
/// microseconds of the system clock's reading, `time::timestamp_of_reading`, so that a clock
/// before the epoch counts backwards. The clock may read any time, so every `u32` is a possible
/// result and the contract states nothing of it.
pub fn now_microseconds() -> u32 {
    let r = crate::time::read_clock();
    crate::time::timestamp_of_reading(&r)
}

/// A random 16-bit number.
///
/// Calls `rand::random::<u16>()`, which draws from the thread-local generator; nothing is
/// claimed of the value.
#[verifier::external_body]
pub(crate) fn random_u16() -> u16 {
    rand::random::<u16>()
}

/// The pair of connection identifiers (receiver, sender) that a socket derives from a
/// candidate identifier: the sender's is the receiver's plus one, moving the pair down by one
/// where the candidate is the largest identifier.
pub open spec fn identifiers_from(id: u16) -> (u16, u16) {
    if id < u16::MAX {
        (id, (id + 1) as u16)
    } else {
        ((id - 1) as u16, id)
    }
}

/// Derives the pair of connection identifiers (receiver, sender) from a candidate identifier.
pub fn sequential_identifiers(id: u16) -> (r: (u16, u16))
    ensures
        r == identifiers_from(id),
        r.1 == r.0 + 1,
{
    match id.checked_add(1) {
        Some(next) => (id, next),
        None => (id - 1, id),
    }
}

/// Generates a random pair of connection identifiers (receiver, sender), the sender's being
/// the receiver's plus one.
pub fn generate_sequential_identifiers() -> (r: (u16, u16))
    ensures
        r.1 == r.0 + 1,
{
    sequential_identifiers(random_u16())
}

} // verus!
