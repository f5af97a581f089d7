use vstd::prelude::*;

verus! {

/// Calls `rand::random::<u8>()`, a byte drawn from the thread's random
/// generator. Nothing is stated of the byte: it rests on chance.
#[verifier::external_body]
pub(crate) fn random_u8() -> (r: u8) {
    rand::random::<u8>()
}

/// The index a random byte picks among `len` items: the byte modulo `len`
/// taken as a byte.
pub open spec fn byte_index(b: u8, len: int) -> int {
    (b as int) % (len % 256)
}

/// The index a random byte picks among `len` items.
pub fn index_from_byte(b: u8, len: usize) -> (r: usize)
    requires
        len % 256 != 0,
    ensures
        r == byte_index(b, len as int),
        r < len,
{
    let m = len as u8;
    assert(m == len % 256) by (bit_vector)
        requires
            m == len as u8,
    ;
    (b % m) as usize
}

/// Picks an index below `len` the way a figure is drawn: a random byte
/// modulo `len` taken as a byte.
pub(crate) fn pick_index(len: usize) -> (r: usize)
    requires
        len % 256 != 0,
    ensures
        exists|b: u8| r == #[trigger] byte_index(b, len as int),
        r < len,
{
    let b = random_u8();
    index_from_byte(b, len)
}

} // verus!
