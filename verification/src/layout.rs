//! Layout helpers without floating point: which characters are laid out as
//! full-width (square) glyphs.
use vstd::prelude::*;

verus! {

/// CJK unified ideographs (and extensions), CJK symbols, kana and hangul.
pub open spec fn is_cjk_code(u: u32) -> bool {
    ||| 0x2E80 <= u <= 0x2EFF
    ||| 0x3000 <= u <= 0x303F
    ||| 0x3040 <= u <= 0x30FF
    ||| 0x3400 <= u <= 0x4DBF
    ||| 0x4E00 <= u <= 0x9FFF
    ||| 0xF900 <= u <= 0xFAFF
    ||| 0xAC00 <= u <= 0xD7AF
}

/// True for CJK unified ideographs, kana and hangul.
pub fn is_cjk(c: char) -> (r: bool)
    ensures
        r == is_cjk_code(c as u32),
{
    let u = c as u32;
    (0x2E80 <= u && u <= 0x2EFF) || (0x3000 <= u && u <= 0x303F) || (0x3040 <= u && u <= 0x30FF)
        || (0x3400 <= u && u <= 0x4DBF) || (0x4E00 <= u && u <= 0x9FFF) || (0xF900 <= u && u
        <= 0xFAFF) || (0xAC00 <= u && u <= 0xD7AF)
}

} // verus!
