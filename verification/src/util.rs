//! Connection-identifier generation.

use vstd::prelude::*;

verus! {

/// Relies on `rand::random`: a uniformly drawn random value. Nothing is
/// assumed of the result.
#[verifier::external_body]
fn next_u16() -> u16 {
    rand::random::<u16>()
}

/// The identifier pair `(id, id + 1)` derived from one drawn value, nudged
/// down when the draw is the largest representable value, so the second of
/// the pair never overflows.
pub fn sequential_identifiers_from(id: u16) -> (r: (u16, u16))
    ensures
        r.1 == r.0 + 1,
        id < u16::MAX ==> r == (id, (id + 1) as u16),
        id == u16::MAX ==> r == ((id - 1) as u16, id),
{
    if id.checked_add(1).is_some() {
        (id, id + 1)
    } else {
        (id - 1, id)
    }
}

/// Safely generates two sequential connection identifiers: whatever value
/// was drawn, the pair is adjacent and free of overflow at the boundary of
/// the representable range.
pub fn generate_sequential_identifiers() -> (r: (u16, u16))
    ensures
        r.1 == r.0 + 1,
{
    let id = next_u16();
    sequential_identifiers_from(id)
}

} // verus!
