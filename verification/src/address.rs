//! IPv4 addresses as the emulation keeps them: one integer, first octet
//! most significant.
use vstd::prelude::*;

verus! {

/// The address with octets `o`, first octet most significant.
pub open spec fn address_of(o: [u8; 4]) -> u32 {
    (o[0] as int * 16777216 + o[1] as int * 65536 + o[2] as int * 256 + o[3] as int) as u32
}

/// Converts the four octets of an address to one integer.
pub fn convert_to_int(octets: [u8; 4]) -> (r: u32)
    ensures
        r as int == octets[0] as int * 16777216 + octets[1] as int * 65536 + octets[2] as int * 256
            + octets[3] as int,
        r == address_of(octets),
{
    let a = octets[0] as u32;
    let b = octets[1] as u32;
    let c = octets[2] as u32;
    let d = octets[3] as u32;
    assert(a < 256 && b < 256 && c < 256 && d < 256);
    assert((a << 24u32) == a * 16777216) by (bit_vector)
        requires
            a < 256,
    ;
    assert((b << 16u32) == b * 65536) by (bit_vector)
        requires
            b < 256,
    ;
    assert((c << 8u32) == c * 256) by (bit_vector)
        requires
            c < 256,
    ;
    (a << 24u32) + (b << 16u32) + (c << 8u32) + d
}

/// Distinct octets give distinct addresses.
pub proof fn lemma_address_injective(x: [u8; 4], y: [u8; 4])
    requires
        address_of(x) == address_of(y),
    ensures
        x =~= y,
{
    let vx = x[0] as int * 16777216 + x[1] as int * 65536 + x[2] as int * 256 + x[3] as int;
    let vy = y[0] as int * 16777216 + y[1] as int * 65536 + y[2] as int * 256 + y[3] as int;
    assert(0 <= vx < 4294967296);
    assert(0 <= vy < 4294967296);
    assert(vx == vy);
    assert(x[3] == y[3] && x[2] == y[2] && x[1] == y[1] && x[0] == y[0]) by (nonlinear_arith)
        requires
            vx == x[0] as int * 16777216 + x[1] as int * 65536 + x[2] as int * 256 + x[3] as int,
            vy == y[0] as int * 16777216 + y[1] as int * 65536 + y[2] as int * 256 + y[3] as int,
            vx == vy,
            0 <= x[0] < 256,
            0 <= x[1] < 256,
            0 <= x[2] < 256,
            0 <= x[3] < 256,
            0 <= y[0] < 256,
            0 <= y[1] < 256,
            0 <= y[2] < 256,
            0 <= y[3] < 256,
    ;
}

} // verus!
