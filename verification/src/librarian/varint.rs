//! The integer encoder of the first-generation index format.

use vstd::prelude::*;

verus! {

/// Mask selecting the low 7 bits of a value.
pub const VALUE_MASK: u32 = 0x7f;

/// Combined by a bitwise and with the last byte of an integer.
pub const CONTINUATION_MASK: u8 = 0x80;

/// The bytes this encoder writes for `v`: the 7-bit groups of `v`, least
/// significant first, where the last byte is cleared by masking it with the
/// continuation mask.
pub open spec fn librarian_var_int(v: nat) -> Seq<u8>
    decreases v,
{
    if v < 128 {
        seq![0u8]
    } else {
        seq![(v % 128) as u8] + librarian_var_int(v / 128)
    }
}

/// Encodes `value`, least significant 7-bit group first.
pub fn get_var_int(value: u32) -> (buffer: Vec<u8>)
    ensures
        buffer@ == librarian_var_int(value as nat),
{
    let mut buffer: Vec<u8> = Vec::new();
    let mut new_value = value;
    loop
        invariant_except_break
            librarian_var_int(value as nat) == buffer@ + librarian_var_int(new_value as nat),
        ensures
            librarian_var_int(value as nat) == buffer@,
        decreases new_value,
    {
        assert(new_value & VALUE_MASK == new_value % 128) by (bit_vector);
        assert(new_value >> 7 == new_value / 128) by (bit_vector);
        let last_seven_bits: u8 = (new_value & VALUE_MASK) as u8;
        assert(last_seven_bits & CONTINUATION_MASK == 0) by (bit_vector)
            requires
                last_seven_bits < 128;
        let ghost prev = buffer@;
        let ghost old_value = new_value;
        new_value = new_value >> 7;
        if new_value > 0 {
            buffer.push(last_seven_bits);
            assert(prev + librarian_var_int(old_value as nat) =~= buffer@ + librarian_var_int(new_value as nat));
        } else {
            buffer.push(last_seven_bits & CONTINUATION_MASK);
            assert(prev + librarian_var_int(old_value as nat) =~= buffer@);
            break;
        }
    }
    buffer
}

} // verus!
