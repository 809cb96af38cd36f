use vstd::prelude::*;

verus! {

/// The key of a page: 18 bytes, as six big-endian fields.
#[derive(Clone, Copy, Debug, PartialEq, Eq, Structural, PartialOrd, Ord, Hash)]
pub struct Key {
    pub field1: u8,
    pub field2: u32,
    pub field3: u32,
    pub field4: u32,
    pub field5: u8,
    pub field6: u32,
}

/// The big-endian number in `b[off..off + 4]`.
pub open spec fn be_u32_at(b: Seq<u8>, off: int) -> int {
    b[off] as int * 0x100_0000 + b[off + 1] as int * 0x1_0000 + b[off + 2] as int * 0x100
        + b[off + 3] as int
}

fn be_u32(b: &[u8; 18], off: usize) -> (r: u32)
    requires
        off + 4 <= 18,
    ensures
        r as int == be_u32_at(b@, off as int),
{
    (b[off] as u32) * 0x100_0000 + (b[off + 1] as u32) * 0x1_0000 + (b[off + 2] as u32) * 0x100
        + (b[off + 3] as u32)
}

impl Key {
    /// The key whose 18 bytes are `b`.
    pub fn from_array(b: [u8; 18]) -> (r: Key)
        ensures
            r.field1 == b@[0],
            r.field2 as int == be_u32_at(b@, 1),
            r.field3 as int == be_u32_at(b@, 5),
            r.field4 as int == be_u32_at(b@, 9),
            r.field5 == b@[13],
            r.field6 as int == be_u32_at(b@, 14),
    {
        Key {
            field1: b[0],
            field2: be_u32(&b, 1),
            field3: be_u32(&b, 5),
            field4: be_u32(&b, 9),
            field5: b[13],
            field6: be_u32(&b, 14),
        }
    }
}

} // verus!
