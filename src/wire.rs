use vstd::prelude::*;

verus! {

/// The decimal digits of `n`, most significant first, without leading zeros.
pub open spec fn digits_of(n: nat) -> Seq<u8>
    decreases n,
{
    if n < 10 {
        seq![(48 + n) as u8]
    } else {
        digits_of(n / 10).push((48 + n % 10) as u8)
    }
}

/// Appends the decimal digits of `n` to `out`.
pub fn push_decimal(out: &mut Vec<u8>, n: u64)
    ensures
        final(out)@ == old(out)@ + digits_of(n as nat),
    decreases n,
{
    let ghost start = out@;
    if n >= 10 {
        push_decimal(out, n / 10);
    }
    out.push((48 + n % 10) as u8);
    assert(out@ =~= start + digits_of(n as nat));
}

/// The decimal text of `n`.
pub fn decimal_of(n: u64) -> (r: Vec<u8>)
    ensures
        r@ == digits_of(n as nat),
{
    let mut out: Vec<u8> = Vec::new();
    push_decimal(&mut out, n);
    assert(out@ =~= digits_of(n as nat));
    out
}

/// `CR LF`.
pub open spec fn crlf() -> Seq<u8> {
    seq![13u8, 10u8]
}

/// Appends `CR LF` to `out`.
pub fn push_crlf(out: &mut Vec<u8>)
    ensures
        final(out)@ == old(out)@ + crlf(),
{
    let lit: [u8; 2] = [13, 10];
    out.extend_from_slice(&lit);
    assert(out@ =~= old(out)@ + crlf());
}

/// Whether the four bytes ending at `j` are `CR LF CR LF`: a request head ends at `j`.
pub open spec fn terminator_at(s: Seq<u8>, j: int) -> bool {
    &&& 4 <= j <= s.len()
    &&& s[j - 4] == 13u8
    &&& s[j - 3] == 10u8
    &&& s[j - 2] == 13u8
    &&& s[j - 1] == 10u8
}

/// Tests whether a request head terminator ends at `j` in `s`.
pub fn has_terminator_at(s: &[u8], j: usize) -> (r: bool)
    requires
        j <= s@.len(),
    ensures
        r == terminator_at(s@, j as int),
{
    j >= 4 && s[j - 4] == 13 && s[j - 3] == 10 && s[j - 2] == 13 && s[j - 1] == 10
}

} // verus!
