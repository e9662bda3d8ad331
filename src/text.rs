use vstd::prelude::*;

verus! {

/// The ASCII digit of `d`, for `d < 10`.
pub open spec fn digit(d: nat) -> u8 {
    (48 + d) as u8
}

/// The decimal digits of `n`, most significant first, without leading zeros
/// (`0` is the one digit "0").
pub open spec fn decimal(n: nat) -> Seq<u8>
    decreases n,
{
    if n < 10 {
        seq![digit(n)]
    } else {
        decimal(n / 10).push(digit(n % 10))
    }
}

/// `nanos` written as microseconds with three decimals: "12.345".
pub open spec fn micros_text(nanos: nat) -> Seq<u8> {
    let frac = nanos % 1000;
    decimal(nanos / 1000) + seq![46u8, digit(frac / 100), digit(frac / 10 % 10), digit(frac % 10)]
}

/// The characters of an ASCII byte string.
pub open spec fn ascii_chars(b: Seq<u8>) -> Seq<char> {
    b.map_values(|c: u8| c as char)
}

/// Relies on `String::from_utf8`, which keeps the bytes as they are when they
/// are valid UTF-8, as ASCII bytes always are; each ASCII byte is one `char`.
#[verifier::external_body]
fn ascii_string(bytes: Vec<u8>) -> (r: String)
    requires
        forall|i: int| 0 <= i < bytes.len() ==> bytes[i] < 128,
    ensures
        r@ == ascii_chars(bytes@),
{
    match String::from_utf8(bytes) {
        Ok(s) => s,
        Err(_) => String::new(),
    }
}

proof fn lemma_decimal_ascii(n: nat)
    ensures
        forall|i: int| 0 <= i < decimal(n).len() ==> decimal(n)[i] < 128,
    decreases n,
{
    if n >= 10 {
        lemma_decimal_ascii(n / 10);
        let d = decimal(n / 10);
        assert forall|i: int| 0 <= i < decimal(n).len() implies decimal(n)[i] < 128 by {
            if i < d.len() {
                assert(decimal(n)[i] == d[i]);
            }
        }
    }
}

/// Appends the decimal digits of `n` to `out`.
fn push_decimal(n: u128, out: &mut Vec<u8>)
    ensures
        final(out)@ == old(out)@ + decimal(n as nat),
    decreases n,
{
    if n >= 10 {
        push_decimal(n / 10, out);
    }
    out.push(48 + (n % 10) as u8);
    assert(out@ =~= old(out)@ + decimal(n as nat));
}

/// An elapsed time given in nanoseconds, written in microseconds with three
/// decimals.
pub fn micros_float(nanos: u128) -> (r: String)
    ensures
        r@ == ascii_chars(micros_text(nanos as nat)),
{
    let mut out: Vec<u8> = Vec::new();
    push_decimal(nanos / 1000, &mut out);
    let frac = nanos % 1000;
    out.push(46);
    out.push(48 + (frac / 100) as u8);
    out.push(48 + (frac / 10 % 10) as u8);
    out.push(48 + (frac % 10) as u8);
    proof {
        lemma_decimal_ascii((nanos / 1000) as nat);
        assert(out@ =~= micros_text(nanos as nat));
    }
    ascii_string(out)
}

} // verus!
