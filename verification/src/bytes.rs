//! Little-endian fields inside a byte buffer.

use crate::event::Error;
use vstd::prelude::*;

verus! {

/// The 16-bit little-endian number at `off`.
pub open spec fn le16(d: Seq<u8>, off: int) -> int {
    d[off] + 0x100 * d[off + 1]
}

/// The 32-bit little-endian number at `off`.
pub open spec fn le32(d: Seq<u8>, off: int) -> int {
    d[off] + 0x100 * d[off + 1] + 0x1_0000 * d[off + 2] + 0x100_0000 * d[off + 3]
}

/// The 32-bit field at `off`, or `TooShort` where it does not fit in the buffer.
pub(crate) fn rd32(d: &[u8], off: usize) -> (r: Result<u32, Error>)
    ensures
        off + 4 <= d@.len() ==> (r matches Ok(v) && v == le32(d@, off as int)),
        off + 4 > d@.len() ==> r == Err::<u32, Error>(Error::TooShort),
{
    if off > d.len() || d.len() - off < 4 {
        return Err(Error::TooShort);
    }
    Ok(
        d[off] as u32 + d[off + 1] as u32 * 0x100 + d[off + 2] as u32 * 0x1_0000 + d[off + 3] as u32
            * 0x100_0000,
    )
}

/// The 32-bit number at `off`, taken as 0 where it does not fit in the buffer.
pub open spec fn le32_or_zero(d: Seq<u8>, off: int) -> int {
    if off + 4 <= d.len() {
        le32(d, off)
    } else {
        0
    }
}

/// The 32-bit field at `off`, or 0 where it does not fit in the buffer.
pub(crate) fn rd32_or_zero(d: &[u8], off: usize) -> (v: u32)
    ensures
        v == le32_or_zero(d@, off as int),
{
    match rd32(d, off) {
        Ok(v) => v,
        Err(_) => 0,
    }
}

/// The 16-bit field at `off`, which lies inside the buffer.
pub(crate) fn u16_at(d: &[u8], off: usize) -> (v: u16)
    requires
        off + 2 <= d@.len(),
    ensures
        v == le16(d@, off as int),
{
    d[off] as u16 + d[off + 1] as u16 * 0x100
}

/// Whether the four bytes at `off`, which lie inside the buffer, are `tag`.
pub(crate) fn has_tag(d: &[u8], off: usize, tag: &[u8; 4]) -> (r: bool)
    requires
        off + 4 <= d@.len(),
    ensures
        r == (d@.subrange(off as int, off + 4) == tag@),
{
    let ghost found = d@.subrange(off as int, off + 4);
    let r: bool = d[off] == tag[0] && d[off + 1] == tag[1] && d[off + 2] == tag[2] && d[off + 3]
        == tag[3];
    proof {
        assert(found[0] == d@[off as int] && found[1] == d@[off + 1] && found[2] == d@[off + 2]
            && found[3] == d@[off + 3]);
        if r {
            assert(found =~= tag@);
        }
    }
    r
}

/// The four bytes of `d` from `off` on are `v` written down, lowest byte first.
pub open spec fn holds32(d: Seq<u8>, off: int, v: int) -> bool {
    &&& 0 <= off && off + 4 <= d.len()
    &&& 0 <= v < 0x1_0000_0000
    &&& d[off] == v % 0x100
    &&& d[off + 1] == v / 0x100 % 0x100
    &&& d[off + 2] == v / 0x1_0000 % 0x100
    &&& d[off + 3] == v / 0x100_0000
}

/// A field that was written down is read back, and every field inside the
/// buffer is some number written down.
pub proof fn lemma_field_comes_back(d: Seq<u8>, off: int, v: int)
    requires
        0 <= off && off + 4 <= d.len(),
    ensures
        holds32(d, off, v) <==> le32(d, off) == v,
{
}

/// The bytes `b` stand in `d` at `pos`.
pub open spec fn stands_at(d: Seq<u8>, pos: int, b: Seq<u8>) -> bool {
    &&& 0 <= pos && pos + b.len() <= d.len()
    &&& d.subrange(pos, pos + b.len()) == b
}

/// Bytes that stand in a buffer can be read one by one.
pub proof fn lemma_stands_bytewise(d: Seq<u8>, pos: int, b: Seq<u8>)
    requires
        stands_at(d, pos, b),
    ensures
        forall|i: int| 0 <= i < b.len() ==> d[pos + i] == #[trigger] b[i],
{
    assert forall|i: int| 0 <= i < b.len() implies d[pos + i] == #[trigger] b[i] by {
        assert(d.subrange(pos, pos + b.len())[i] == d[pos + i]);
    }
}

} // verus!
