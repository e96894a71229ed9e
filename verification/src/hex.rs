//! Colon-separated hexadecimal rendering of byte identifiers.

use vstd::prelude::*;
use vstd::string::*;

verus! {

/// The lower-case hexadecimal digit that stands for a value below sixteen.
pub open spec fn hex_digit(v: int) -> char {
    if v == 0 { '0' }
    else if v == 1 { '1' }
    else if v == 2 { '2' }
    else if v == 3 { '3' }
    else if v == 4 { '4' }
    else if v == 5 { '5' }
    else if v == 6 { '6' }
    else if v == 7 { '7' }
    else if v == 8 { '8' }
    else if v == 9 { '9' }
    else if v == 10 { 'a' }
    else if v == 11 { 'b' }
    else if v == 12 { 'c' }
    else if v == 13 { 'd' }
    else if v == 14 { 'e' }
    else { 'f' }
}

/// The two digits of one byte, high nibble first.
pub open spec fn hex_byte(b: u8) -> Seq<char> {
    seq![hex_digit(b as int / 16), hex_digit(b as int % 16)]
}

/// The bytes as two-digit lower-case hexadecimal numbers with a colon
/// between neighbours: no colon before the first nor after the last.
pub open spec fn hex_colon(bytes: Seq<u8>) -> Seq<char>
    decreases bytes.len(),
{
    if bytes.len() == 0 {
        Seq::empty()
    } else if bytes.len() == 1 {
        hex_byte(bytes[0])
    } else {
        hex_colon(bytes.drop_last()) + seq![':'] + hex_byte(bytes.last())
    }
}

/// A one-character string holding the digit of a value below sixteen.
fn hex_digit_str(v: u8) -> (s: &'static str)
    requires
        v < 16,
    ensures
        s@ == seq![hex_digit(v as int)],
{
    proof {
        reveal_strlit("0");
        reveal_strlit("1");
        reveal_strlit("2");
        reveal_strlit("3");
        reveal_strlit("4");
        reveal_strlit("5");
        reveal_strlit("6");
        reveal_strlit("7");
        reveal_strlit("8");
        reveal_strlit("9");
        reveal_strlit("a");
        reveal_strlit("b");
        reveal_strlit("c");
        reveal_strlit("d");
        reveal_strlit("e");
        reveal_strlit("f");
    }
    let s = if v == 0 { "0" }
    else if v == 1 { "1" }
    else if v == 2 { "2" }
    else if v == 3 { "3" }
    else if v == 4 { "4" }
    else if v == 5 { "5" }
    else if v == 6 { "6" }
    else if v == 7 { "7" }
    else if v == 8 { "8" }
    else if v == 9 { "9" }
    else if v == 10 { "a" }
    else if v == 11 { "b" }
    else if v == 12 { "c" }
    else if v == 13 { "d" }
    else if v == 14 { "e" }
    else { "f" };
    assert(s@ =~= seq![hex_digit(v as int)]);
    s
}

/// Appends the two digits of `b` to `out`.
fn push_hex_byte(out: &mut String, b: u8)
    ensures
        final(out)@ == old(out)@ + hex_byte(b),
{
    out.append(hex_digit_str(b / 16));
    out.append(hex_digit_str(b % 16));
    assert(out@ =~= old(out)@ + hex_byte(b));
}

/// Renders an identifier for display, e.g. `aa:bb:00:11`.
pub fn format_byte_array(input: &[u8]) -> (s: String)
    ensures
        s@ == hex_colon(input@),
{
    let mut out = String::new();
    let mut i: usize = 0;
    while i < input.len()
        invariant
            i <= input.len(),
            out@ == hex_colon(input@.take(i as int)),
        decreases input.len() - i,
    {
        proof {
            let next = input@.take(i + 1);
            assert(next.drop_last() =~= input@.take(i as int));
            assert(next.last() == input@[i as int]);
        }
        if i > 0 {
            proof {
                reveal_strlit(":");
                assert(":"@ =~= seq![':']);
            }
            out.append(":");
        }
        push_hex_byte(&mut out, input[i]);
        assert(out@ =~= hex_colon(input@.take(i + 1)));
        i += 1;
    }
    assert(input@.take(i as int) =~= input@);
    out
}

} // verus!
