//! Lower-case hexadecimal text of byte strings, as the `hex` crate writes it.
use vstd::prelude::*;

verus! {

/// The lower-case hexadecimal digit of `n` (for `n < 16`).
pub open spec fn hex_digit(n: nat) -> char {
    if n < 10 {
        (n + 48) as char
    } else {
        (n - 10 + 97) as char
    }
}

/// Two lower-case hexadecimal digits per byte, high nibble first.
pub open spec fn hex_lower(b: Seq<u8>) -> Seq<char>
    decreases b.len(),
{
    if b.len() == 0 {
        Seq::empty()
    } else {
        seq![hex_digit((b[0] / 16) as nat), hex_digit((b[0] % 16) as nat)] + hex_lower(b.drop_first())
    }
}

/// `hex::encode` (hex crate): two lower-case hexadecimal digits per byte,
/// high nibble first, in the order of the bytes (the crate reads each byte's
/// nibbles out of the table `0123456789abcdef`).
#[verifier::external_body]
pub(crate) fn hex_encode(data: &[u8]) -> (s: String)
    ensures
        s@ == hex_lower(data@),
{
    hex::encode(data)
}

/// The hexadecimal text of two byte strings one after the other is the text
/// of the first followed by the text of the second.
pub proof fn lemma_hex_lower_concat(a: Seq<u8>, b: Seq<u8>)
    ensures
        hex_lower(a + b) == hex_lower(a) + hex_lower(b),
        hex_lower(a).len() == 2 * a.len(),
    decreases a.len(),
{
    if a.len() == 0 {
        assert(a + b =~= b);
        assert(hex_lower(a) + hex_lower(b) =~= hex_lower(b));
    } else {
        assert((a + b).drop_first() =~= a.drop_first() + b);
        assert((a + b)[0] == a[0]);
        lemma_hex_lower_concat(a.drop_first(), b);
        let h = seq![hex_digit((a[0] / 16) as nat), hex_digit((a[0] % 16) as nat)];
        assert(h + (hex_lower(a.drop_first()) + hex_lower(b)) =~= (h + hex_lower(a.drop_first()))
            + hex_lower(b));
    }
}

} // verus!
