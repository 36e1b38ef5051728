use vstd::prelude::*;

verus! {

broadcast use vstd::utf8::char_is_scalar;

/// Encodes one Unicode scalar value into its UTF-8 byte sequence,
/// proved equal to the mathematical encoding `vstd::utf8::encode_scalar`.
pub fn encode_char(chr: char) -> (r: Vec<u8>)
    ensures
        r@ == vstd::utf8::encode_scalar(chr as u32),
        1 <= r@.len() <= 4,
{
    let u = chr as u32;
    let mut bytes: Vec<u8> = Vec::with_capacity(4);
    if u < 0x80 {
        bytes.push((u & 0x7F) as u8);
    } else if u < 0x800 {
        bytes.push(0xC0u8 | (((u >> 6) & 0x1F) as u8));
        bytes.push(0x80u8 | ((u & 0x3F) as u8));
    } else if u < 0x10000 {
        bytes.push(0xE0u8 | (((u >> 12) & 0x0F) as u8));
        bytes.push(0x80u8 | (((u >> 6) & 0x3F) as u8));
        bytes.push(0x80u8 | ((u & 0x3F) as u8));
    } else {
        bytes.push(0xF0u8 | (((u >> 18) & 0x7) as u8));
        bytes.push(0x80u8 | (((u >> 12) & 0x3F) as u8));
        bytes.push(0x80u8 | (((u >> 6) & 0x3F) as u8));
        bytes.push(0x80u8 | ((u & 0x3F) as u8));
    }
    proof {
        assert(bytes@ =~= vstd::utf8::encode_scalar(chr as u32));
    }
    bytes
}

} // verus!
