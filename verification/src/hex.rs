//! The hexadecimal codec used to render byte evidence for human-readable
//! logging, and to read such renderings back.
//!
//! Encoding produces a lowercase hex string prefixed with `0x`, two digits
//! per byte.  Decoding accepts an optional `0x`/`x` prefix and hex digits
//! of either case; an odd number of digits is left-padded with one zero
//! before the digits are grouped into bytes.  Empty strings and non-hex
//! characters are rejected with a positional error.

use crate::errors::Error;
use crate::errors::ParseFault;
use crate::scan::string_from_utf8;
use vstd::prelude::*;
use vstd::slice::slice_to_vec;
use vstd::string::StrSliceExecFns;
use vstd::utf8::decode_utf8;
use vstd::utf8::encode_utf8_decode_utf8;
use vstd::utf8::is_leading_byte_width_1;
use vstd::utf8::length_of_first_scalar;
use vstd::utf8::pop_first_scalar;
use vstd::utf8::valid_first_scalar;
use vstd::utf8::valid_utf8;

verus! {

/// The ASCII code of the lowercase hex digit for a nibble.
pub open spec fn hex_digit(n: u8) -> u8
    recommends
        n < 16,
{
    if n < 10 {
        (0x30 + n) as u8
    } else {
        (0x57 + n) as u8
    }
}

/// The ASCII codes of the two-digit rendering of each byte, in order.
pub open spec fn hex_ascii(b: Seq<u8>) -> Seq<u8>
    decreases b.len(),
{
    if b.len() == 0 {
        Seq::empty()
    } else {
        seq![hex_digit(b[0] / 16), hex_digit(b[0] % 16)] + hex_ascii(b.drop_first())
    }
}

/// The ASCII codes of the full rendering of a byte sequence: the `0x`
/// prefix followed by two digits per byte.
pub open spec fn hex_output(b: Seq<u8>) -> Seq<u8> {
    seq![0x30u8, 0x78u8] + hex_ascii(b)
}

/// The character sequence spelled by a sequence of ASCII codes.
pub open spec fn ascii_chars_of(s: Seq<u8>) -> Seq<char> {
    Seq::new(s.len(), |k: int| s[k] as char)
}

/// True when `c` is a hexadecimal digit of either case.
pub open spec fn is_hex_digit(c: char) -> bool {
    ||| ('0' <= c && c <= '9')
    ||| ('a' <= c && c <= 'f')
    ||| ('A' <= c && c <= 'F')
}

/// The nibble value of a hexadecimal digit.
pub open spec fn hex_val(c: char) -> u8
    recommends
        is_hex_digit(c),
{
    if '0' <= c && c <= '9' {
        ((c as u32) - 0x30) as u8
    } else if 'a' <= c && c <= 'f' {
        ((c as u32) - 0x57) as u8
    } else {
        ((c as u32) - 0x37) as u8
    }
}

/// How many leading characters of `s` form its `0x`/`x` prefix.
pub open spec fn hex_strip(s: Seq<char>) -> int {
    if s.len() >= 2 && s[0] == '0' && (s[1] == 'x' || s[1] == 'X') {
        2
    } else if s.len() >= 1 && (s[0] == 'x' || s[0] == 'X') {
        1
    } else {
        0
    }
}

/// True when `s` is accepted by the decoder: non-empty, and nothing but
/// hex digits after the optional prefix.
pub open spec fn hex_wellformed(s: Seq<char>) -> bool {
    &&& s.len() > 0
    &&& forall|j: int| hex_strip(s) <= j < s.len() ==> is_hex_digit(#[trigger] s[j])
}

/// The first position at or after `j` whose character is not a hex digit,
/// or the length of `s` when there is none.
pub open spec fn first_non_hex(s: Seq<char>, j: int) -> int
    decreases s.len() - j,
{
    if !(0 <= j < s.len()) {
        s.len() as int
    } else if !is_hex_digit(s[j]) {
        j
    } else {
        first_non_hex(s, j + 1)
    }
}

/// Groups a sequence of nibbles into bytes, two at a time; a trailing lone
/// nibble is ignored.
pub open spec fn pair_bytes(ns: Seq<u8>) -> Seq<u8>
    decreases ns.len(),
{
    if ns.len() < 2 {
        Seq::empty()
    } else {
        seq![(ns[0] * 16 + ns[1]) as u8] + pair_bytes(ns.subrange(2, ns.len() as int))
    }
}

/// The bytes denoted by an accepted hexadecimal string: the digits after
/// the prefix, left-padded with one zero nibble when their number is odd,
/// grouped into bytes.
pub open spec fn hex_decoded(s: Seq<char>) -> Seq<u8> {
    let k = hex_strip(s);
    let ns = Seq::new((s.len() - k) as nat, |j: int| hex_val(s[k + j]));
    pair_bytes(
        if ns.len() % 2 == 1 {
            seq![0u8] + ns
        } else {
            ns
        },
    )
}

/// Every byte of [`hex_ascii`] is the ASCII code of a lowercase hex digit.
proof fn lemma_hex_ascii_bytes(b: Seq<u8>)
    ensures
        hex_ascii(b).len() == 2 * b.len(),
        forall|j: int|
            0 <= j < hex_ascii(b).len() ==> ((0x30 <= #[trigger] hex_ascii(b)[j] <= 0x39) || (0x61
                <= hex_ascii(b)[j] <= 0x66)),
    decreases b.len(),
{
    if b.len() > 0 {
        lemma_hex_ascii_bytes(b.drop_first());
    }
}

/// Appending one byte to the input appends its two digits to the
/// rendering.
proof fn lemma_hex_ascii_snoc(b: Seq<u8>, x: u8)
    ensures
        hex_ascii(b.push(x)) == hex_ascii(b) + seq![hex_digit(x / 16), hex_digit(x % 16)],
    decreases b.len(),
{
    let d = seq![hex_digit(x / 16), hex_digit(x % 16)];
    if b.len() == 0 {
        assert(b.push(x).len() == 1);
        assert(b.push(x)[0] == x);
        assert(b.push(x).drop_first() =~= Seq::<u8>::empty());
        assert(hex_ascii(b.push(x)) == seq![hex_digit(x / 16), hex_digit(x % 16)] + hex_ascii(
            Seq::<u8>::empty(),
        ));
        assert(hex_ascii(b.push(x)) =~= hex_ascii(b) + d);
    } else {
        lemma_hex_ascii_snoc(b.drop_first(), x);
        assert(b.push(x)[0] == b[0]);
        assert(b.push(x).drop_first() =~= b.drop_first().push(x));
        assert(hex_ascii(b.push(x)) == seq![hex_digit(b[0] / 16), hex_digit(b[0] % 16)]
            + hex_ascii(b.drop_first().push(x)));
        assert(hex_ascii(b.push(x)) =~= hex_ascii(b) + d);
    }
}

/// A sequence of ASCII codes is valid UTF-8 and decodes character by
/// character.
proof fn lemma_ascii_decode(s: Seq<u8>)
    requires
        forall|j: int| 0 <= j < s.len() ==> #[trigger] s[j] < 0x80,
    ensures
        valid_utf8(s),
        decode_utf8(s) == ascii_chars_of(s),
    decreases s.len(),
{
    if s.len() > 0 {
        let b0 = s[0];
        assert(is_leading_byte_width_1(b0));
        assert((b0 & 0x7f) == b0) by (bit_vector)
            requires
                b0 < 0x80,
        ;
        assert(valid_first_scalar(s));
        assert(length_of_first_scalar(s) == 1);
        assert(pop_first_scalar(s) =~= s.drop_first());
        lemma_ascii_decode(s.drop_first());
        assert(decode_utf8(s) =~= ascii_chars_of(s));
    } else {
        assert(decode_utf8(s) =~= ascii_chars_of(s));
    }
}

/// The ASCII code of the lowercase hex digit for a nibble, computed.
fn hex_digit_of(n: u8) -> (r: u8)
    requires
        n < 16,
    ensures
        r == hex_digit(n),
{
    if n < 10 {
        0x30 + n
    } else {
        0x57 + n
    }
}

/// Converts a byte sequence into its hexadecimal string representation:
/// `0x` followed by two lowercase digits per byte.
pub fn to_hex(bytes: &[u8]) -> (r: String)
    ensures
        r@ == ascii_chars_of(hex_output(bytes@)),
{
    let v = slice_to_vec(bytes);
    let mut out: Vec<u8> = Vec::new();
    out.push(0x30);
    out.push(0x78);
    let n = v.len();
    let mut k: usize = 0;
    proof {
        assert(bytes@.subrange(0, 0) =~= Seq::<u8>::empty());
        assert(out@ =~= hex_output(bytes@.subrange(0, 0)));
    }
    while k < n
        invariant
            k <= n,
            n == bytes@.len(),
            v@ == bytes@,
            out@ == hex_output(bytes@.subrange(0, k as int)),
        decreases n - k,
    {
        let b = v[k];
        out.push(hex_digit_of(b / 16));
        out.push(hex_digit_of(b % 16));
        proof {
            lemma_hex_ascii_snoc(bytes@.subrange(0, k as int), bytes@[k as int]);
            assert(bytes@.subrange(0, k as int).push(bytes@[k as int]) =~= bytes@.subrange(
                0,
                (k + 1) as int,
            ));
            assert(out@ =~= hex_output(bytes@.subrange(0, (k + 1) as int)));
        }
        k = k + 1;
    }
    proof {
        assert(bytes@.subrange(0, n as int) =~= bytes@);
        lemma_hex_ascii_bytes(bytes@);
        assert forall|j: int| 0 <= j < out@.len() implies #[trigger] out@[j] < 0x80 by {
            if j >= 2 {
                assert(out@[j] == hex_ascii(bytes@)[j - 2]);
            }
        }
        lemma_ascii_decode(out@);
    }
    let r = string_from_utf8(out);
    proof {
        encode_utf8_decode_utf8(r@);
    }
    r
}

/// The nibble value of a hexadecimal digit character, or `None` for any
/// other character.
fn hex_digit_value(c: char) -> (r: Option<u8>)
    ensures
        match r {
            Some(v) => is_hex_digit(c) && v == hex_val(c) && v < 16,
            None => !is_hex_digit(c),
        },
{
    let u = c as u32;
    if 0x30 <= u && u <= 0x39 {
        Some((u - 0x30) as u8)
    } else if 0x61 <= u && u <= 0x66 {
        Some((u - 0x57) as u8)
    } else if 0x41 <= u && u <= 0x46 {
        Some((u - 0x37) as u8)
    } else {
        None
    }
}

/// Parses a hexadecimal string — optional `0x`/`x` prefix, digits of
/// either case, odd digit counts left-padded with a zero — into the bytes
/// it denotes.  Rejects an empty string, and any non-digit after the
/// prefix with the offending character and its 1-based position.
pub fn from_hex(hex: &str) -> (r: Result<Vec<u8>, Error>)
    ensures
        match r {
            Ok(v) => hex_wellformed(hex@) && v@ == hex_decoded(hex@),
            Err(e) => !hex_wellformed(hex@) && (match e {
                Error::ParseError(pf) => match pf {
                    ParseFault::Empty => hex@.len() == 0,
                    ParseFault::InvalidChar { pos, ch } => {
                        &&& hex@.len() > 0
                        &&& first_non_hex(hex@, hex_strip(hex@)) < hex@.len()
                        &&& pos as int == first_non_hex(hex@, hex_strip(hex@)) - hex_strip(hex@)
                            + 1
                        &&& ch == hex@[first_non_hex(hex@, hex_strip(hex@))]
                    },
                },
                _ => false,
            }),
        },
{
    let n = hex.unicode_len();
    if n == 0 {
        return Err(Error::ParseError(ParseFault::Empty));
    }
    let c0 = hex.get_char(0);
    let start: usize = if c0 == '0' {
        if n >= 2 {
            let c1 = hex.get_char(1);
            if c1 == 'x' || c1 == 'X' {
                2
            } else {
                0
            }
        } else {
            0
        }
    } else if c0 == 'x' || c0 == 'X' {
        1
    } else {
        0
    };
    proof {
        assert(start as int == hex_strip(hex@));
    }
    let mut ns: Vec<u8> = Vec::new();
    let mut j = start;
    while j < n
        invariant
            start <= j <= n,
            n == hex@.len(),
            start as int == hex_strip(hex@),
            forall|t: int| start <= t < j ==> is_hex_digit(#[trigger] hex@[t]),
            ns@.len() == j - start,
            forall|t: int|
                0 <= t < ns@.len() ==> #[trigger] ns@[t] == hex_val(hex@[start + t]) && ns@[t]
                    < 16,
        decreases n - j,
    {
        let c = hex.get_char(j);
        match hex_digit_value(c) {
            Some(v) => {
                ns.push(v);
                j = j + 1;
            },
            None => {
                proof {
                    lemma_first_non_hex_step(hex@, start as int, j as int);
                }
                return Err(Error::ParseError(ParseFault::InvalidChar { pos: j - start + 1, ch: c }));
            },
        }
    }
    let ghost digits = Seq::new((n - start) as nat, |q: int| hex_val(hex@[start as int + q]));
    proof {
        assert(ns@ =~= digits);
    }
    let mut padded: Vec<u8> = Vec::new();
    if ns.len() % 2 == 1 {
        padded.push(0);
    }
    padded.append(&mut ns);
    proof {
        if digits.len() % 2 == 1 {
            assert(padded@ =~= seq![0u8] + digits);
        } else {
            assert(padded@ =~= digits);
        }
    }
    let m = padded.len();
    let mut out: Vec<u8> = Vec::new();
    let mut k: usize = 0;
    proof {
        assert(padded@.subrange(0, m as int) =~= padded@);
    }
    while k < m
        invariant
            k <= m,
            m == padded@.len(),
            m % 2 == 0,
            k % 2 == 0,
            forall|t: int| 0 <= t < padded@.len() ==> #[trigger] padded@[t] < 16,
            pair_bytes(padded@) == out@ + pair_bytes(padded@.subrange(k as int, m as int)),
        decreases m - k,
    {
        let hi = padded[k];
        let lo = padded[k + 1];
        out.push(hi * 16 + lo);
        proof {
            let tail = padded@.subrange(k as int, m as int);
            assert(tail.subrange(2, tail.len() as int) =~= padded@.subrange(
                (k + 2) as int,
                m as int,
            ));
            assert(pair_bytes(padded@) =~= out@ + pair_bytes(
                padded@.subrange((k + 2) as int, m as int),
            ));
        }
        k = k + 2;
    }
    proof {
        assert(padded@.subrange(m as int, m as int) =~= Seq::<u8>::empty());
        assert(out@ =~= pair_bytes(padded@));
    }
    Ok(out)
}

/// A rendered digit reads back as the nibble it renders.
proof fn lemma_hex_digit_val(n: u8)
    requires
        n < 16,
    ensures
        is_hex_digit(hex_digit(n) as char),
        hex_val(hex_digit(n) as char) == n,
{
}

/// The digit pairs of a rendering read back as the bytes rendered.
proof fn lemma_hex_ascii_decodes(b: Seq<u8>)
    ensures
        pair_bytes(Seq::new(hex_ascii(b).len(), |j: int| hex_val(hex_ascii(b)[j] as char))) == b,
    decreases b.len(),
{
    let ds = hex_ascii(b);
    let ns = Seq::new(ds.len(), |j: int| hex_val(ds[j] as char));
    if b.len() == 0 {
        assert(pair_bytes(ns) =~= b);
    } else {
        lemma_hex_ascii_decodes(b.drop_first());
        let dt = hex_ascii(b.drop_first());
        let nt = Seq::new(dt.len(), |j: int| hex_val(dt[j] as char));
        lemma_hex_ascii_bytes(b.drop_first());
        assert(ns.subrange(2, ns.len() as int) =~= nt);
        lemma_hex_digit_val(b[0] / 16);
        lemma_hex_digit_val(b[0] % 16);
        assert(ns[0] == b[0] / 16 && ns[1] == b[0] % 16);
        assert(b[0] / 16 * 16 + b[0] % 16 == b[0]) by (nonlinear_arith)
            requires
                b[0] < 256,
        ;
        assert(pair_bytes(ns) == seq![(ns[0] * 16 + ns[1]) as u8] + pair_bytes(
            ns.subrange(2, ns.len() as int),
        ));
        assert(pair_bytes(ns) =~= b);
    }
}

/// The hex round trip: decoding the rendering of any byte sequence gives
/// back exactly that sequence — the rendering is always accepted by the
/// decoder, and decodes to the original bytes.
pub proof fn lemma_hex_round_trip(b: Seq<u8>)
    ensures
        hex_wellformed(ascii_chars_of(hex_output(b))),
        hex_decoded(ascii_chars_of(hex_output(b))) == b,
{
    let outb = hex_output(b);
    let s = ascii_chars_of(outb);
    lemma_hex_ascii_bytes(b);
    assert(s[0] == '0');
    assert(s[1] == 'x');
    assert(hex_strip(s) == 2);
    assert forall|j: int| 2 <= j < s.len() implies is_hex_digit(#[trigger] s[j]) by {
        assert(outb[j] == hex_ascii(b)[j - 2]);
        if 0x30 <= outb[j] <= 0x39 {
            assert('0' <= s[j] && s[j] <= '9');
        } else {
            assert('a' <= s[j] && s[j] <= 'f');
        }
    }
    let ds = hex_ascii(b);
    let ns = Seq::new((s.len() - 2) as nat, |j: int| hex_val(s[2 + j]));
    assert(ns =~= Seq::new(ds.len(), |j: int| hex_val(ds[j] as char)));
    lemma_hex_ascii_decodes(b);
    assert(ns.len() % 2 == 0);
    assert(hex_decoded(s) == pair_bytes(ns));
}

/// When every character in `[start, j)` is a hex digit, the first
/// non-digit at or after `start` is the first one at or after `j`.
proof fn lemma_first_non_hex_step(s: Seq<char>, start: int, j: int)
    requires
        0 <= start <= j <= s.len(),
        forall|t: int| start <= t < j ==> is_hex_digit(#[trigger] s[t]),
    ensures
        first_non_hex(s, start) == first_non_hex(s, j),
    decreases j - start,
{
    if start < j {
        lemma_first_non_hex_step(s, start + 1, j);
    }
}

} // verus!
