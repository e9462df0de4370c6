//! The small pieces of the ACPI integration that are plain computation:
//! the resource-descriptor kind codes and EISA identifier decoding. The
//! AML interpreter itself is an external collaborator.

use vstd::prelude::*;

verus! {

/// The kind field of an address-space resource descriptor.
#[derive(Clone, Copy, Debug, PartialEq, Eq, Structural)]
pub enum ResourceKind {
    Memory,
    Io,
    BusNumberRange,
    Reserved(u8),
    Vendor(u8),
}

impl ResourceKind {
    /// Decode the raw kind byte: 0 is memory, 1 is I/O port space, 2 is a
    /// bus number range, 3 through 191 are reserved, and the rest are
    /// vendor-defined.
    pub fn from_raw(kind: u8) -> (r: ResourceKind)
        ensures
            kind == 0 ==> r == ResourceKind::Memory,
            kind == 1 ==> r == ResourceKind::Io,
            kind == 2 ==> r == ResourceKind::BusNumberRange,
            3 <= kind <= 191 ==> r == ResourceKind::Reserved(kind),
            kind >= 192 ==> r == ResourceKind::Vendor(kind),
    {
        if kind == 0 {
            ResourceKind::Memory
        } else if kind == 1 {
            ResourceKind::Io
        } else if kind == 2 {
            ResourceKind::BusNumberRange
        } else if kind <= 191 {
            ResourceKind::Reserved(kind)
        } else {
            ResourceKind::Vendor(kind)
        }
    }
}

/// One compressed EISA identifier letter: an uppercase ASCII letter packed
/// in five bits.
pub open spec fn spec_eisa_letter(x: u32) -> u8 {
    (0x40 + (x & 0x1f)) as u8
}

/// One hexadecimal digit of the product number, as an uppercase ASCII
/// byte.
pub open spec fn spec_eisa_hex(x: u32) -> u8 {
    let d = x & 0xf;
    if d < 10 {
        (0x30 + d) as u8
    } else {
        (0x41 + (d - 10)) as u8
    }
}

/// Decode a compressed EISA identifier into its seven ASCII bytes: three
/// packed letters for the manufacturer, then four uppercase hexadecimal
/// digits for the product number.
pub fn parse_eisa_id(x: u32) -> (r: Vec<u8>)
    ensures
        r@.len() == 7,
        r@[0] == spec_eisa_letter(x >> 26),
        r@[1] == spec_eisa_letter(x >> 21),
        r@[2] == spec_eisa_letter(x >> 16),
        r@[3] == spec_eisa_hex(x >> 12),
        r@[4] == spec_eisa_hex(x >> 8),
        r@[5] == spec_eisa_hex(x >> 4),
        r@[6] == spec_eisa_hex(x),
{
    let mut out: Vec<u8> = Vec::new();
    out.push(eisa_letter(x >> 26));
    out.push(eisa_letter(x >> 21));
    out.push(eisa_letter(x >> 16));
    out.push(eisa_hex(x >> 12));
    out.push(eisa_hex(x >> 8));
    out.push(eisa_hex(x >> 4));
    out.push(eisa_hex(x));
    out
}

fn eisa_letter(x: u32) -> (r: u8)
    ensures
        r == spec_eisa_letter(x),
{
    proof {
        assert(x & 0x1f < 32) by (bit_vector);
    }
    0x40 + (x & 0x1f) as u8
}

fn eisa_hex(x: u32) -> (r: u8)
    ensures
        r == spec_eisa_hex(x),
{
    proof {
        assert(x & 0xf < 16) by (bit_vector);
    }
    let d = (x & 0xf) as u8;
    if d < 10 {
        0x30 + d
    } else {
        0x41 + (d - 10)
    }
}

} // verus!
