use vstd::prelude::*;

verus! {

/// Lower-case hexadecimal digit for a value below 16.
pub open spec fn hex_digit_spec(n: u8) -> char {
    if n < 10 {
        (48 + n) as char
    } else {
        (87 + n) as char
    }
}

/// Lower-case hexadecimal rendering of a byte string: two digits per byte,
/// high nibble first.
pub open spec fn hex_spec(bytes: Seq<u8>) -> Seq<char> {
    Seq::new(
        2 * bytes.len(),
        |i: int|
            if i % 2 == 0 {
                hex_digit_spec(bytes[i / 2] / 16)
            } else {
                hex_digit_spec(bytes[i / 2] % 16)
            },
    )
}

/// Appends one character to a string.
#[verifier::external_body]
fn push_char(s: &mut String, c: char)
    ensures
        final(s)@ == old(s)@.push(c),
{
    s.push(c);
}

fn hex_digit(n: u8) -> (c: char)
    requires
        n < 16,
    ensures
        c == hex_digit_spec(n),
{
    if n < 10 {
        (48 + n) as char
    } else {
        (87 + n) as char
    }
}

/// Hex rendering of the first `n` bytes of `bytes`.
fn hex_prefix(bytes: &[u8], n: usize) -> (s: String)
    requires
        n <= bytes@.len(),
    ensures
        s@ == hex_spec(bytes@.take(n as int)),
{
    let mut s = String::new();
    let mut i: usize = 0;
    while i < n
        invariant
            i <= n,
            n <= bytes@.len(),
            s@ == hex_spec(bytes@.take(i as int)),
        decreases n - i,
    {
        let b = bytes[i];
        push_char(&mut s, hex_digit(b / 16));
        push_char(&mut s, hex_digit(b % 16));
        i = i + 1;
        assert(s@ =~= hex_spec(bytes@.take(i as int)));
    }
    s
}

/// Full 64-digit lower-case hex rendering of an object hash.
pub fn hex_full(hash: &[u8; 32]) -> (s: String)
    ensures
        s@ == hex_spec(hash@),
        s@.len() == 64,
{
    let r = hex_prefix(hash.as_slice(), 32);
    assert(hash@.take(32) =~= hash@);
    r
}

/// Short 8-digit rendering of an object hash: its first four bytes.
pub fn hex_short(hash: &[u8; 32]) -> (s: String)
    ensures
        s@ == hex_spec(hash@.take(4)),
        s@.len() == 8,
{
    hex_prefix(hash.as_slice(), 4)
}


/// Law: the short form of a hash is the first eight digits of its full
/// form.
pub proof fn hex_short_is_prefix_of_full(hash: Seq<u8>)
    requires
        hash.len() == 32,
    ensures
        hex_spec(hash.take(4)) == hex_spec(hash).take(8),
{
    assert(hex_spec(hash.take(4)) =~= hex_spec(hash).take(8));
}

} // verus!
