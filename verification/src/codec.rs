//! Little-endian words inside a sector, stated over plain arithmetic.

use vstd::prelude::*;

verus! {

/// The 32-bit little-endian word whose first byte is `s[off]`.
pub open spec fn le_u32(s: Seq<u8>, off: int) -> u32 {
    (s[off] as int + 256 * (s[off + 1] as int) + 65536 * (s[off + 2] as int) + 16777216 * (
    s[off + 3] as int)) as u32
}

/// Byte `i` (0 is the least significant) of `v`.
pub open spec fn u32_byte(v: u32, i: int) -> u8 {
    if i == 0 {
        (v as int % 256) as u8
    } else if i == 1 {
        ((v as int / 256) % 256) as u8
    } else if i == 2 {
        ((v as int / 65536) % 256) as u8
    } else {
        ((v as int / 16777216) % 256) as u8
    }
}

/// `s` with the four bytes from `off` on replaced by the little-endian form of `v`.
pub open spec fn put_u32(s: Seq<u8>, off: int, v: u32) -> Seq<u8> {
    s.update(off, u32_byte(v, 0)).update(off + 1, u32_byte(v, 1)).update(
        off + 2,
        u32_byte(v, 2),
    ).update(off + 3, u32_byte(v, 3))
}

/// `dst` with `src[start .. start + len]` copied over `dst[off .. off + len]`.
pub open spec fn splice(dst: Seq<u8>, off: int, src: Seq<u8>, start: int, len: int) -> Seq<u8> {
    Seq::new(
        dst.len(),
        |i: int|
            if off <= i < off + len {
                src[start + i - off]
            } else {
                dst[i]
            },
    )
}

/// Four bytes that are the bytes of `v` read as `v`.
pub proof fn lemma_word_of_bytes(s: Seq<u8>, off: int, v: u32)
    requires
        s[off] == u32_byte(v, 0),
        s[off + 1] == u32_byte(v, 1),
        s[off + 2] == u32_byte(v, 2),
        s[off + 3] == u32_byte(v, 3),
    ensures
        le_u32(s, off) == v,
{
}

/// The bytes of a word that is read are the bytes it was read from.
pub proof fn lemma_bytes_of_word(s: Seq<u8>, off: int)
    ensures
        u32_byte(le_u32(s, off), 0) == s[off],
        u32_byte(le_u32(s, off), 1) == s[off + 1],
        u32_byte(le_u32(s, off), 2) == s[off + 2],
        u32_byte(le_u32(s, off), 3) == s[off + 3],
{
    let a = s[off] as int;
    let b = s[off + 1] as int;
    let c = s[off + 2] as int;
    let d = s[off + 3] as int;
    let v = a + 256 * b + 65536 * c + 16777216 * d;
    assert(v % 256 == a);
    assert(v / 256 == b + 256 * c + 65536 * d);
    assert(v / 65536 == c + 256 * d);
    assert(v / 16777216 == d);
}

/// A word that was written is the word that is read back.
pub proof fn lemma_put_get(s: Seq<u8>, off: int, v: u32)
    requires
        0 <= off,
        off + 4 <= s.len(),
    ensures
        le_u32(put_u32(s, off, v), off) == v,
        put_u32(s, off, v).len() == s.len(),
{
    let t = put_u32(s, off, v);
    assert(t[off] == u32_byte(v, 0));
    assert(t[off + 1] == u32_byte(v, 1));
    assert(t[off + 2] == u32_byte(v, 2));
    assert(t[off + 3] == u32_byte(v, 3));
}

/// Writing a word leaves every byte outside its four bytes alone, and so every
/// word that does not overlap it.
pub proof fn lemma_put_frame(s: Seq<u8>, off: int, v: u32, other: int)
    requires
        0 <= off,
        off + 4 <= s.len(),
        0 <= other,
        other + 4 <= s.len(),
        other + 4 <= off || off + 4 <= other,
    ensures
        le_u32(put_u32(s, off, v), other) == le_u32(s, other),
{
    let t = put_u32(s, off, v);
    assert(t[other] == s[other]);
    assert(t[other + 1] == s[other + 1]);
    assert(t[other + 2] == s[other + 2]);
    assert(t[other + 3] == s[other + 3]);
}

/// Writing a word changes no byte outside `[off, off + 4)`.
pub proof fn lemma_put_bytes(s: Seq<u8>, off: int, v: u32)
    requires
        0 <= off,
        off + 4 <= s.len(),
    ensures
        put_u32(s, off, v).len() == s.len(),
        forall|i: int|
            0 <= i < s.len() && !(off <= i < off + 4) ==> #[trigger] put_u32(s, off, v)[i] == s[i],
        forall|i: int| 0 <= i < 4 ==> #[trigger] put_u32(s, off, v)[off + i] == u32_byte(v, i),
{
}

/// Assembles a word from its four bytes, least significant first.
pub fn u32_from_bytes(b0: u8, b1: u8, b2: u8, b3: u8) -> (r: u32)
    ensures
        r == b0 as int + 256 * (b1 as int) + 65536 * (b2 as int) + 16777216 * (b3 as int),
{
    (b0 as u32) + (b1 as u32) * 256 + (b2 as u32) * 65536 + (b3 as u32) * 16777216
}

/// Byte `i` of `v`, least significant first.
pub fn u32_byte_at(v: u32, i: usize) -> (r: u8)
    requires
        i < 4,
    ensures
        r == u32_byte(v, i as int),
{
    if i == 0 {
        (v % 256) as u8
    } else if i == 1 {
        ((v / 256) % 256) as u8
    } else if i == 2 {
        ((v / 65536) % 256) as u8
    } else {
        ((v / 16777216) % 256) as u8
    }
}

} // verus!
