//! Small byte-level codecs shared across the library: ASCII strings,
//! decimal formatting, hexadecimal digits and base64.
use vstd::prelude::*;

verus! {

/// The characters of a sequence of ASCII bytes.
pub open spec fn spec_ascii(bytes: Seq<u8>) -> Seq<char> {
    bytes.map_values(|b: u8| b as char)
}

/// Relies on String::from_utf8: ASCII bytes decode to exactly those characters.
#[verifier::external_body]
pub fn ascii_string(bytes: &Vec<u8>) -> (s: String)
    requires
        forall|i: int| 0 <= i < bytes@.len() ==> bytes@[i] < 128,
    ensures
        s@ == spec_ascii(bytes@),
{
    String::from_utf8(bytes.clone()).unwrap_or_default()
}

/// Decimal digits of `n`, most significant first.
pub open spec fn spec_dec(n: int) -> Seq<u8>
    decreases n,
{
    if n < 10 {
        seq![(48 + if n >= 0 { n } else { 0 }) as u8]
    } else {
        spec_dec(n / 10).push((48 + n % 10) as u8)
    }
}

/// Every byte of a decimal rendering is an ASCII digit.
pub proof fn lemma_spec_dec_digits(n: int)
    ensures
        forall|i: int| 0 <= i < spec_dec(n).len() ==> 48 <= #[trigger] spec_dec(n)[i] <= 57,
    decreases n,
{
    if n >= 10 {
        lemma_spec_dec_digits(n / 10);
        assert(spec_dec(n) == spec_dec(n / 10).push((48 + n % 10) as u8));
    }
}

/// Append the decimal digits of `n` to `out`.
pub fn push_dec(out: &mut Vec<u8>, n: u64)
    ensures
        final(out)@ == old(out)@ + spec_dec(n as int),
        forall|t: int|
            old(out)@.len() <= t < final(out)@.len() ==> 48 <= #[trigger] final(out)@[t] <= 57,
    decreases n,
{
    proof {
        lemma_spec_dec_digits(n as int);
    }
    if n < 10 {
        out.push(48 + n as u8);
        proof {
            assert(out@ =~= old(out)@ + spec_dec(n as int));
        }
    } else {
        push_dec(out, n / 10);
        out.push(48 + (n % 10) as u8);
        proof {
            assert(out@ =~= old(out)@ + spec_dec(n as int));
        }
    }
}

/// Lower-case hexadecimal digit for a nibble.
pub open spec fn spec_hex_char(v: int) -> u8 {
    if v < 10 {
        (48 + v) as u8
    } else {
        (87 + v) as u8
    }
}

/// Append the two hex digits of `b` to `out`.
pub fn push_hex_byte(out: &mut Vec<u8>, b: u8)
    ensures
        final(out)@ == old(out)@ + seq![spec_hex_char(b as int / 16), spec_hex_char(b as int % 16)],
{
    let hi = b / 16;
    let lo = b % 16;
    out.push(if hi < 10 { 48 + hi } else { 87 + hi });
    out.push(if lo < 10 { 48 + lo } else { 87 + lo });
    proof {
        assert(out@ =~= old(out)@ + seq![spec_hex_char(b as int / 16), spec_hex_char(b as int % 16)]);
    }
}

/// The base64 alphabet.
pub open spec fn spec_b64_char(v: int) -> u8 {
    if v < 26 {
        (65 + v) as u8
    } else if v < 52 {
        (97 + v - 26) as u8
    } else if v < 62 {
        (48 + v - 52) as u8
    } else if v == 62 {
        43u8
    } else {
        47u8
    }
}

/// Standard base64 with padding over a byte sequence.
pub open spec fn spec_base64(s: Seq<u8>) -> Seq<u8>
    decreases s.len(),
{
    if s.len() == 0 {
        Seq::<u8>::empty()
    } else if s.len() == 1 {
        let b0 = s[0] as int;
        seq![spec_b64_char(b0 / 4), spec_b64_char((b0 % 4) * 16), 61u8, 61u8]
    } else if s.len() == 2 {
        let b0 = s[0] as int;
        let b1 = s[1] as int;
        seq![
            spec_b64_char(b0 / 4),
            spec_b64_char((b0 % 4) * 16 + b1 / 16),
            spec_b64_char((b1 % 16) * 4),
            61u8,
        ]
    } else {
        let b0 = s[0] as int;
        let b1 = s[1] as int;
        let b2 = s[2] as int;
        seq![
            spec_b64_char(b0 / 4),
            spec_b64_char((b0 % 4) * 16 + b1 / 16),
            spec_b64_char((b1 % 16) * 4 + b2 / 64),
            spec_b64_char(b2 % 64),
        ] + spec_base64(s.subrange(3, s.len() as int))
    }
}

/// Base64 output length: four output bytes for every started triple.
pub proof fn lemma_base64_len(s: Seq<u8>)
    ensures
        spec_base64(s).len() == 4 * ((s.len() + 2) / 3),
    decreases s.len(),
{
    if s.len() > 2 {
        lemma_base64_len(s.subrange(3, s.len() as int));
    }
}

/// Emit one base64 character for a 6-bit value.
fn b64_char(v: u8) -> (r: u8)
    requires
        v < 64,
    ensures
        r == spec_b64_char(v as int),
{
    if v < 26 {
        65 + v
    } else if v < 52 {
        97 + v - 26
    } else if v < 62 {
        48 + v - 52
    } else if v == 62 {
        43
    } else {
        47
    }
}

/// Standard base64 encoding with padding.
pub fn base64_encode(data: &Vec<u8>) -> (out: Vec<u8>)
    ensures
        out@ == spec_base64(data@),
        out@.len() % 4 == 0,
{
    proof {
        lemma_base64_len(data@);
    }
    let n = data.len();
    let mut out: Vec<u8> = Vec::new();
    let mut i: usize = 0;
    proof {
        assert(data@.subrange(0, n as int) =~= data@);
    }
    while n - i >= 3
        invariant
            n == data@.len(),
            0 <= i <= n,
            i % 3 == 0,
            spec_base64(data@) == out@ + spec_base64(data@.subrange(i as int, n as int)),
        decreases n - i,
    {
        let b0 = data[i];
        let b1 = data[i + 1];
        let b2 = data[i + 2];
        proof {
            let rest = data@.subrange(i as int, n as int);
            assert(rest.len() >= 3);
            assert(rest[0] == data@[i as int]);
            assert(rest[1] == data@[i as int + 1]);
            assert(rest[2] == data@[i as int + 2]);
            assert(rest.subrange(3, rest.len() as int) =~= data@.subrange(
                i as int + 3,
                n as int,
            ));
        }
        out.push(b64_char(b0 / 4));
        out.push(b64_char((b0 % 4) * 16 + b1 / 16));
        out.push(b64_char((b1 % 16) * 4 + b2 / 64));
        out.push(b64_char(b2 % 64));
        i = i + 3;
        proof {
            assert(spec_base64(data@) =~= out@ + spec_base64(
                data@.subrange(i as int, n as int),
            ));
        }
    }
    if n - i == 1 {
        let b0 = data[i];
        proof {
            let rest = data@.subrange(i as int, n as int);
            assert(rest.len() == 1);
            assert(rest[0] == data@[i as int]);
        }
        out.push(b64_char(b0 / 4));
        out.push(b64_char((b0 % 4) * 16));
        out.push(61);
        out.push(61);
        proof {
            assert(out@ =~= spec_base64(data@));
        }
    } else if n - i == 2 {
        let b0 = data[i];
        let b1 = data[i + 1];
        proof {
            let rest = data@.subrange(i as int, n as int);
            assert(rest.len() == 2);
            assert(rest[0] == data@[i as int]);
            assert(rest[1] == data@[i as int + 1]);
        }
        out.push(b64_char(b0 / 4));
        out.push(b64_char((b0 % 4) * 16 + b1 / 16));
        out.push(b64_char((b1 % 16) * 4));
        out.push(61);
        proof {
            assert(out@ =~= spec_base64(data@));
        }
    } else {
        proof {
            assert(data@.subrange(i as int, n as int).len() == 0);
            assert(out@ =~= spec_base64(data@));
        }
    }
    out
}

} // verus!
