//! Machine code as text, for the live-bytes view.
use crate::text;
use crate::text::{hex_of, join_strings, string_of};
use vstd::prelude::*;

verus! {

/// The bytes in hexadecimal.
pub open spec fn byte_texts(v: Seq<u8>) -> Seq<Seq<char>> {
    v.map_values(|b: u8| text::hex(b as int, 2))
}

/// Space-separated lower-case hexadecimal: `[0x48, 0xc3]` is `48 c3`.
pub fn hex(bytes: &[u8]) -> (r: String)
    ensures
        r@ == text::join(byte_texts(bytes@), " "@),
{
    let ghost all = byte_texts(bytes@);
    let mut parts: Vec<String> = Vec::new();
    let mut i: usize = 0;
    assert(text::strings(parts@) =~= Seq::empty());
    while i < bytes.len()
        invariant
            all == byte_texts(bytes@),
            i <= bytes@.len(),
            text::strings(parts@) =~= all.take(i as int),
        decreases bytes@.len() - i,
    {
        let h = hex_of(bytes[i] as u64, 2);
        let t = string_of(&h);
        let ghost before = text::strings(parts@);
        parts.push(t);
        assert(text::strings(parts@) =~= before.push(t@));
        i += 1;
    }
    assert(text::strings(parts@) =~= all);
    join_strings(&parts, " ")
}

/// One byte of a listing: `??` where it is left open until the link.
pub open spec fn masked_byte(bytes: Seq<u8>, mask: Seq<bool>, i: int) -> Seq<char> {
    if i < mask.len() && mask[i] {
        "??"@
    } else {
        text::hex(bytes[i] as int, 2)
    }
}

/// The bytes of a listing row as they are shown.
pub open spec fn masked_texts(bytes: Seq<u8>, mask: Seq<bool>) -> Seq<Seq<char>> {
    Seq::new(bytes.len(), |i: int| masked_byte(bytes, mask, i))
}

/// The bytes of a listing row in hexadecimal, with `??` for those that a relocation
/// leaves open.
pub fn hex_masked(bytes: &[u8], mask: &[bool]) -> (r: String)
    ensures
        r@ == text::join(masked_texts(bytes@, mask@), " "@),
{
    let ghost all = masked_texts(bytes@, mask@);
    let mut parts: Vec<String> = Vec::new();
    let mut i: usize = 0;
    assert(text::strings(parts@) =~= Seq::empty());
    while i < bytes.len()
        invariant
            all == masked_texts(bytes@, mask@),
            i <= bytes@.len(),
            text::strings(parts@) =~= all.take(i as int),
        decreases bytes@.len() - i,
    {
        let t = if i < mask.len() && mask[i] {
            "??".to_owned()
        } else {
            let h = hex_of(bytes[i] as u64, 2);
            string_of(&h)
        };
        assert(t@ == all[i as int]);
        let ghost before = text::strings(parts@);
        parts.push(t);
        assert(text::strings(parts@) =~= before.push(t@));
        i += 1;
    }
    assert(text::strings(parts@) =~= all);
    join_strings(&parts, " ")
}

} // verus!
