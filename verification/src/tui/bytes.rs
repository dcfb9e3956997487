//! Text as the bytes that are written to a terminal.
use vstd::prelude::*;
use vstd::string::*;

use crate::text::chars_of;
use crate::text::code_of;
use crate::text::decimal;
use crate::text::decimal_string;

verus! {

/// The bytes of text without accents: one for each character.
pub open spec fn ascii(text: Seq<char>) -> Seq<u8> {
    Seq::new(text.len(), |i: int| (text[i] as u32) as u8)
}

/// The bytes of a number.
pub open spec fn number(n: int) -> Seq<u8> {
    ascii(decimal(n as nat))
}

/// Appends the bytes of text.
pub fn push_text(out: &mut Vec<u8>, text: &str)
    ensures
        final(out)@ == old(out)@ + ascii(text@),
{
    let chars = chars_of(text);
    let ghost before = out@;
    let n: usize = chars.len();
    let mut i: usize = 0;
    while i < n
        invariant
            i <= n == chars@.len(),
            chars@ == text@,
            out@ =~= before + ascii(text@.take(i as int)),
        decreases n - i,
    {
        out.push(
            #[verifier::truncate]
            (code_of(chars[i]) as u8),
        );
        i = i + 1;
    }
    assert(text@.take(i as int) =~= text@);
}

/// Appends the bytes of a number.
pub fn push_number(out: &mut Vec<u8>, n: u64)
    ensures
        final(out)@ == old(out)@ + number(n as int),
{
    let text = decimal_string(n);
    push_text(out, text.as_str());
}

/// A byte, many times.
pub open spec fn repeated_byte(b: u8, n: int) -> Seq<u8> {
    Seq::new(n as nat, |i: int| b)
}

/// Appends a byte many times.
pub fn push_repeated(out: &mut Vec<u8>, b: u8, n: usize)
    ensures
        final(out)@ == old(out)@ + repeated_byte(b, n as int),
{
    let ghost before = out@;
    let mut i: usize = 0;
    while i < n
        invariant
            i <= n,
            out@ =~= before + repeated_byte(b, i as int),
        decreases n - i,
    {
        out.push(b);
        i = i + 1;
    }
}

} // verus!
