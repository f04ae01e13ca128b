//! भारत.सुरक्षा — fault tolerance: a Hamming(7,4) code that corrects any one
//! flipped bit, CRC-32 of text, and majority voting over three values.

use vstd::prelude::*;
use vstd::utf8::*;
use crate::text::str_eq;
use crate::zip::crc32_spec;

verus! {

/// Every element is a bit.
pub open spec fn all_bits(s: Seq<u8>) -> bool {
    forall|i: int| 0 <= i < s.len() ==> #[trigger] s[i] <= 1
}

/// The codeword of data bits d0..d3: [p1, p2, d0, p3, d1, d2, d3], the
/// parity bits at positions 1, 2 and 4 (counting from 1).
pub open spec fn hamming_encode_spec(d: Seq<u8>) -> Seq<u8> {
    seq![d[0] ^ d[1] ^ d[3], d[0] ^ d[2] ^ d[3], d[0], d[1] ^ d[2] ^ d[3], d[1], d[2], d[3]]
}

/// The position (1..7) of a flipped bit, 0 when the parities agree.
pub open spec fn syndrome(c: Seq<u8>) -> usize {
    ((c[0] ^ c[2] ^ c[4] ^ c[6]) as usize) | (((c[1] ^ c[2] ^ c[5] ^ c[6]) as usize) << 1usize) | ((
    (c[3] ^ c[4] ^ c[5] ^ c[6]) as usize) << 2usize)
}

/// The codeword with the bit the syndrome points at flipped back.
pub open spec fn corrected(c: Seq<u8>) -> Seq<u8> {
    let pos = syndrome(c);
    if pos != 0 && pos <= 7 {
        c.update(pos - 1, c[pos - 1] ^ 1u8)
    } else {
        c
    }
}

/// The data bits of a (corrected) codeword: positions 3, 5, 6 and 7.
pub open spec fn hamming_decode_spec(c: Seq<u8>) -> Seq<u8> {
    let k = corrected(c);
    seq![k[2], k[4], k[5], k[6]]
}

/// हैमिंग_कूट: the Hamming(7,4) codeword of four data bits.
pub fn hamming_koot(d: &[u8]) -> (r: Vec<u8>)
    requires
        d@.len() == 4,
    ensures
        r@ == hamming_encode_spec(d@),
{
    let p1 = d[0] ^ d[1] ^ d[3];
    let p2 = d[0] ^ d[2] ^ d[3];
    let p3 = d[1] ^ d[2] ^ d[3];
    let r = vec![p1, p2, d[0], p3, d[1], d[2], d[3]];
    assert(r@ =~= hamming_encode_spec(d@));
    r
}

/// हैमिंग_विकोड: the four data bits of a codeword, after flipping back the
/// one bit (if any) that the parities point at.
pub fn hamming_vikod(code: &[u8]) -> (r: Vec<u8>)
    requires
        code@.len() == 7,
        all_bits(code@),
    ensures
        r@ == hamming_decode_spec(code@),
{
    let mut c: Vec<u8> = vec![code[0], code[1], code[2], code[3], code[4], code[5], code[6]];
    assert(c@ =~= code@);
    let s1 = c[0] ^ c[2] ^ c[4] ^ c[6];
    let s2 = c[1] ^ c[2] ^ c[5] ^ c[6];
    let s3 = c[3] ^ c[4] ^ c[5] ^ c[6];
    let pos = (s1 as usize) | ((s2 as usize) << 1) | ((s3 as usize) << 2);
    assert(pos == syndrome(code@));
    if pos != 0 && pos <= 7 {
        let v = c[pos - 1] ^ 1;
        c.set(pos - 1, v);
    }
    let r = vec![c[2], c[4], c[5], c[6]];
    assert(r@ =~= hamming_decode_spec(code@));
    r
}

/// Whether every value is 0 or 1.
fn bits_ok(v: &[u8]) -> (b: bool)
    ensures
        b == all_bits(v@),
{
    let mut i: usize = 0;
    while i < v.len()
        invariant
            i <= v@.len(),
            forall|j: int| 0 <= j < i ==> #[trigger] v@[j] <= 1,
        decreases v@.len() - i,
    {
        if v[i] > 1 {
            return false;
        }
        i = i + 1;
    }
    true
}

/// हैमिंग_कूट on any list: an error unless it holds four bits (the length is
/// checked first), else the codeword.
pub fn try_hamming_koot(d: &[u8]) -> (r: Result<Vec<u8>, String>)
    ensures
        d@.len() != 4 ==> (r matches Err(e) && e@ == "हैमिंग_कूट(): 4 बिट की सूची अपेक्षित"@),
        d@.len() == 4 && !all_bits(d@) ==> (r matches Err(e) && e@ == "हैमिंग_कूट(): बिट 0 या 1 होना चाहिए"@),
        d@.len() == 4 && all_bits(d@) ==> (r matches Ok(v) && v@ == hamming_encode_spec(d@)),
{
    if d.len() != 4 {
        return Err("हैमिंग_कूट(): 4 बिट की सूची अपेक्षित".to_owned());
    }
    if !bits_ok(d) {
        return Err("हैमिंग_कूट(): बिट 0 या 1 होना चाहिए".to_owned());
    }
    Ok(hamming_koot(d))
}

/// हैमिंग_विकोड on any list: an error unless it holds seven bits (the
/// length is checked first), else the decoded data bits.
pub fn try_hamming_vikod(code: &[u8]) -> (r: Result<Vec<u8>, String>)
    ensures
        code@.len() != 7 ==> (r matches Err(e) && e@ == "हैमिंग_विकोड(): 7 बिट की सूची अपेक्षित"@),
        code@.len() == 7 && !all_bits(code@) ==> (r matches Err(e) && e@ == "हैमिंग_विकोड(): बिट 0 या 1 होना चाहिए"@),
        code@.len() == 7 && all_bits(code@) ==> (r matches Ok(v) && v@ == hamming_decode_spec(code@)),
{
    if code.len() != 7 {
        return Err("हैमिंग_विकोड(): 7 बिट की सूची अपेक्षित".to_owned());
    }
    if !bits_ok(code) {
        return Err("हैमिंग_विकोड(): बिट 0 या 1 होना चाहिए".to_owned());
    }
    Ok(hamming_vikod(code))
}

/// The codeword with bit `i` flipped.
pub open spec fn flip(c: Seq<u8>, i: int) -> Seq<u8> {
    c.update(i, c[i] ^ 1u8)
}

proof fn lemma_codeword_clean(d0: u8, d1: u8, d2: u8, d3: u8)
    requires
        d0 <= 1,
        d1 <= 1,
        d2 <= 1,
        d3 <= 1,
    ensures
        ((d0 ^ d1 ^ d3) ^ d0 ^ d1 ^ d3) == 0u8,
        ((d0 ^ d2 ^ d3) ^ d0 ^ d2 ^ d3) == 0u8,
        ((d1 ^ d2 ^ d3) ^ d1 ^ d2 ^ d3) == 0u8,
{
    assert(((d0 ^ d1 ^ d3) ^ d0 ^ d1 ^ d3) == 0u8) by (bit_vector);
    assert(((d0 ^ d2 ^ d3) ^ d0 ^ d2 ^ d3) == 0u8) by (bit_vector);
    assert(((d1 ^ d2 ^ d3) ^ d1 ^ d2 ^ d3) == 0u8) by (bit_vector);
}

/// Decoding a codeword gives back its data bits.
pub proof fn law_hamming_roundtrip(d: Seq<u8>)
    requires
        d.len() == 4,
        all_bits(d),
    ensures
        hamming_decode_spec(hamming_encode_spec(d)) == d,
{
    let c = hamming_encode_spec(d);
    let (d0, d1, d2, d3) = (d[0], d[1], d[2], d[3]);
    assert(d0 <= 1 && d1 <= 1 && d2 <= 1 && d3 <= 1);
    lemma_codeword_clean(d0, d1, d2, d3);
    let z: u8 = 0;
    assert(((z as usize) | ((z as usize) << 1usize) | ((z as usize) << 2usize)) == 0usize) by (bit_vector)
        requires
            z == 0,
    ;
    assert(syndrome(c) == 0);
    assert(hamming_decode_spec(c) =~= d);
}

/// The syndrome of a codeword with bit `i` flipped is `i + 1`.
proof fn lemma_flip_syndrome(d0: u8, d1: u8, d2: u8, d3: u8, i: int)
    requires
        d0 <= 1,
        d1 <= 1,
        d2 <= 1,
        d3 <= 1,
        0 <= i < 7,
    ensures
        syndrome(flip(hamming_encode_spec(seq![d0, d1, d2, d3]), i)) == i + 1,
{
    let c = hamming_encode_spec(seq![d0, d1, d2, d3]);
    let f = flip(c, i);
    let p1 = d0 ^ d1 ^ d3;
    let p2 = d0 ^ d2 ^ d3;
    let p3 = d1 ^ d2 ^ d3;
    assert(c =~= seq![p1, p2, d0, p3, d1, d2, d3]);
    if i == 0 {
        assert(f =~= seq![p1 ^ 1u8, p2, d0, p3, d1, d2, d3]);
        assert(((((p1 ^ 1u8) ^ d0 ^ d1 ^ d3) as usize) | (((p2 ^ d0 ^ d2 ^ d3) as usize) << 1usize) | (((p3 ^ d1
            ^ d2 ^ d3) as usize) << 2usize)) == 1usize) by (bit_vector)
            requires
                d0 <= 1 && d1 <= 1 && d2 <= 1 && d3 <= 1,
                p1 == d0 ^ d1 ^ d3,
                p2 == d0 ^ d2 ^ d3,
                p3 == d1 ^ d2 ^ d3,
        ;
    } else if i == 1 {
        assert(f =~= seq![p1, p2 ^ 1u8, d0, p3, d1, d2, d3]);
        assert((((p1 ^ d0 ^ d1 ^ d3) as usize) | ((((p2 ^ 1u8) ^ d0 ^ d2 ^ d3) as usize) << 1usize) | (((p3 ^ d1
            ^ d2 ^ d3) as usize) << 2usize)) == 2usize) by (bit_vector)
            requires
                d0 <= 1 && d1 <= 1 && d2 <= 1 && d3 <= 1,
                p1 == d0 ^ d1 ^ d3,
                p2 == d0 ^ d2 ^ d3,
                p3 == d1 ^ d2 ^ d3,
        ;
    } else if i == 2 {
        assert(f =~= seq![p1, p2, d0 ^ 1u8, p3, d1, d2, d3]);
        assert((((p1 ^ (d0 ^ 1u8) ^ d1 ^ d3) as usize) | (((p2 ^ (d0 ^ 1u8) ^ d2 ^ d3) as usize) << 1usize) | (((p3
            ^ d1 ^ d2 ^ d3) as usize) << 2usize)) == 3usize) by (bit_vector)
            requires
                d0 <= 1 && d1 <= 1 && d2 <= 1 && d3 <= 1,
                p1 == d0 ^ d1 ^ d3,
                p2 == d0 ^ d2 ^ d3,
                p3 == d1 ^ d2 ^ d3,
        ;
    } else if i == 3 {
        assert(f =~= seq![p1, p2, d0, p3 ^ 1u8, d1, d2, d3]);
        assert((((p1 ^ d0 ^ d1 ^ d3) as usize) | (((p2 ^ d0 ^ d2 ^ d3) as usize) << 1usize) | ((((p3 ^ 1u8) ^ d1
            ^ d2 ^ d3) as usize) << 2usize)) == 4usize) by (bit_vector)
            requires
                d0 <= 1 && d1 <= 1 && d2 <= 1 && d3 <= 1,
                p1 == d0 ^ d1 ^ d3,
                p2 == d0 ^ d2 ^ d3,
                p3 == d1 ^ d2 ^ d3,
        ;
    } else if i == 4 {
        assert(f =~= seq![p1, p2, d0, p3, d1 ^ 1u8, d2, d3]);
        assert((((p1 ^ d0 ^ (d1 ^ 1u8) ^ d3) as usize) | (((p2 ^ d0 ^ d2 ^ d3) as usize) << 1usize) | (((p3 ^ (d1
            ^ 1u8) ^ d2 ^ d3) as usize) << 2usize)) == 5usize) by (bit_vector)
            requires
                d0 <= 1 && d1 <= 1 && d2 <= 1 && d3 <= 1,
                p1 == d0 ^ d1 ^ d3,
                p2 == d0 ^ d2 ^ d3,
                p3 == d1 ^ d2 ^ d3,
        ;
    } else if i == 5 {
        assert(f =~= seq![p1, p2, d0, p3, d1, d2 ^ 1u8, d3]);
        assert((((p1 ^ d0 ^ d1 ^ d3) as usize) | (((p2 ^ d0 ^ (d2 ^ 1u8) ^ d3) as usize) << 1usize) | (((p3 ^ d1
            ^ (d2 ^ 1u8) ^ d3) as usize) << 2usize)) == 6usize) by (bit_vector)
            requires
                d0 <= 1 && d1 <= 1 && d2 <= 1 && d3 <= 1,
                p1 == d0 ^ d1 ^ d3,
                p2 == d0 ^ d2 ^ d3,
                p3 == d1 ^ d2 ^ d3,
        ;
    } else {
        assert(f =~= seq![p1, p2, d0, p3, d1, d2, d3 ^ 1u8]);
        assert((((p1 ^ d0 ^ d1 ^ (d3 ^ 1u8)) as usize) | (((p2 ^ d0 ^ d2 ^ (d3 ^ 1u8)) as usize) << 1usize) | (((p3
            ^ d1 ^ d2 ^ (d3 ^ 1u8)) as usize) << 2usize)) == 7usize) by (bit_vector)
            requires
                d0 <= 1 && d1 <= 1 && d2 <= 1 && d3 <= 1,
                p1 == d0 ^ d1 ^ d3,
                p2 == d0 ^ d2 ^ d3,
                p3 == d1 ^ d2 ^ d3,
        ;
    }
}

/// Any single flipped bit of a codeword is corrected: decoding still gives
/// the data bits.
pub proof fn law_hamming_corrects_one_flip(d: Seq<u8>, i: int)
    requires
        d.len() == 4,
        all_bits(d),
        0 <= i < 7,
    ensures
        hamming_decode_spec(flip(hamming_encode_spec(d), i)) == d,
{
    let (d0, d1, d2, d3) = (d[0], d[1], d[2], d[3]);
    assert(d0 <= 1 && d1 <= 1 && d2 <= 1 && d3 <= 1);
    assert(d =~= seq![d0, d1, d2, d3]);
    lemma_flip_syndrome(d0, d1, d2, d3, i);
    let c = hamming_encode_spec(d);
    let f = flip(c, i);
    assert(c[i] <= 1) by {
        assert(d0 ^ d1 ^ d3 <= 1 && d0 ^ d2 ^ d3 <= 1 && d1 ^ d2 ^ d3 <= 1) by (bit_vector)
            requires
                d0 <= 1 && d1 <= 1 && d2 <= 1 && d3 <= 1,
        ;
    }
    let x = c[i];
    assert((x ^ 1u8) ^ 1u8 == x) by (bit_vector);
    assert(corrected(f) =~= c);
    assert(hamming_decode_spec(f) =~= d);
}

/// सीआरसी32: CRC-32 of a text's UTF-8 bytes.
pub fn crc32(s: &str) -> (r: u32)
    ensures
        r == crc32_spec(encode_utf8(s@)),
{
    crate::zip::crc32(s.as_bytes())
}

pub open spec fn msg_no_majority() -> Seq<char> {
    "बहुमत(): तीनों मान भिन्न — कोई बहुमत नहीं"@
}

/// बहुमत: which of three values (given by their renderings) has a majority
/// — 0 when the first agrees with either other, else 1 when the second and
/// third agree; an error when all three differ.
pub fn bahumat(a: &str, b: &str, c: &str) -> (r: Result<usize, String>)
    ensures
        (a@ == b@ || a@ == c@) ==> r == Ok::<usize, String>(0),
        !(a@ == b@ || a@ == c@) && b@ == c@ ==> r == Ok::<usize, String>(1),
        !(a@ == b@ || a@ == c@ || b@ == c@) ==> (r matches Err(e) && e@ == msg_no_majority()),
{
    if str_eq(a, b) || str_eq(a, c) {
        Ok(0)
    } else if str_eq(b, c) {
        Ok(1)
    } else {
        Err("बहुमत(): तीनों मान भिन्न — कोई बहुमत नहीं".to_owned())
    }
}

} // verus!
