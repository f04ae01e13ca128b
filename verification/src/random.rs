//! The language's pseudo-random numbers: a 64-bit linear congruential
//! generator, its seeding, and version-4 UUID text made from two of its
//! outputs.

use vstd::prelude::*;
use crate::text::push_char;

verus! {

pub const LCG_MUL: u64 = 6364136223846793005;

pub const LCG_ADD: u64 = 1442695040888963407;

/// The next state (which is also the number drawn): `s * LCG_MUL + LCG_ADD`
/// modulo 2^64.
pub open spec fn lcg_spec(s: u64) -> u64 {
    ((s as int * LCG_MUL as int + LCG_ADD as int) % 0x1_0000_0000_0000_0000) as u64
}

/// One step of the generator (see `lcg_spec`).
pub fn lcg_step(s: u64) -> (r: u64)
    ensures
        r == lcg_spec(s),
{
    let m = s.wrapping_mul(LCG_MUL);
    let r = m.wrapping_add(LCG_ADD);
    assert(r as int == (s as int * LCG_MUL as int + LCG_ADD as int) % 0x1_0000_0000_0000_0000) by {
        vstd::arithmetic::div_mod::lemma_add_mod_noop(
            s as int * LCG_MUL as int,
            LCG_ADD as int,
            0x1_0000_0000_0000_0000,
        );
        vstd::arithmetic::div_mod::lemma_small_mod(LCG_ADD as nat, 0x1_0000_0000_0000_0000);
        vstd::arithmetic::div_mod::lemma_mod_twice(s as int * LCG_MUL as int, 0x1_0000_0000_0000_0000);
    }
    r
}

/// बीज_सेट: the state after seeding with `seed` (so that the draws that
/// follow are the same on every run).
pub fn seed_state(seed: u64) -> (s: u64)
    ensures
        s == (seed as int + 1) % 0x1_0000_0000_0000_0000,
{
    seed.wrapping_add(1)
}

// ── UUIDs ────────────────────────────────────────────────────────────────────

/// Byte `k` (0 = least significant) of `x`.
pub open spec fn byte_of(x: u64, k: int) -> u8 {
    ((x >> (8 * k) as u64) & 0xff) as u8
}

/// The sixteen bytes: those of `a` then of `b`, each least significant
/// first, with the version (4) and variant (binary 10) bits set.
pub open spec fn uuid_bytes(a: u64, b: u64) -> Seq<u8> {
    Seq::new(16, |k: int| {
        let raw = if k < 8 { byte_of(a, k) } else { byte_of(b, k - 8) };
        if k == 6 {
            (raw & 0x0f) | 0x40
        } else if k == 8 {
            (raw & 0x3f) | 0x80
        } else {
            raw
        }
    })
}

/// A lowercase hexadecimal digit.
pub open spec fn hex_digit(d: u8) -> char {
    if d < 10 {
        (('0' as u8) + d) as char
    } else {
        (('a' as u8) + (d - 10)) as char
    }
}

/// The bytes in hexadecimal, two digits each, with `-` before bytes 4, 6, 8
/// and 10.
pub open spec fn uuid_text_from(bs: Seq<u8>, k: int) -> Seq<char>
    decreases 16 - k,
{
    if k < 0 || k >= 16 {
        seq![]
    } else {
        let sep = if k == 4 || k == 6 || k == 8 || k == 10 { seq!['-'] } else { seq![] };
        sep + seq![hex_digit(bs[k] >> 4), hex_digit(bs[k] & 0x0f)] + uuid_text_from(bs, k + 1)
    }
}

pub open spec fn uuid_spec(a: u64, b: u64) -> Seq<char> {
    uuid_text_from(uuid_bytes(a, b), 0)
}

fn hex_char(d: u8) -> (c: char)
    requires
        d < 16,
    ensures
        c == hex_digit(d),
{
    if d < 10 {
        ((48u8) + d) as char
    } else {
        ((97u8) + (d - 10)) as char
    }
}

/// यूआईडी: the text of the version-4 UUID made from the draws `a` and `b`
/// (see `uuid_spec`).
pub fn uuid_text(a: u64, b: u64) -> (s: String)
    ensures
        s@ == uuid_spec(a, b),
{
    let ghost bs = uuid_bytes(a, b);
    let mut s = String::new();
    let mut k: usize = 0;
    while k < 16
        invariant
            k <= 16,
            bs == uuid_bytes(a, b),
            s@ + uuid_text_from(bs, k as int) == uuid_spec(a, b),
        decreases 16 - k,
    {
        let raw: u8 = if k < 8 { ((a >> (8 * k) as u64) & 0xff) as u8 } else { ((b >> (8 * (k - 8)) as u64) & 0xff) as u8 };
        let byte: u8 = if k == 6 {
            (raw & 0x0f) | 0x40
        } else if k == 8 {
            (raw & 0x3f) | 0x80
        } else {
            raw
        };
        assert(byte == bs[k as int]);
        let ghost before = s@;
        if k == 4 || k == 6 || k == 8 || k == 10 {
            push_char(&mut s, '-');
        }
        assert(byte >> 4 < 16) by (bit_vector);
        assert(byte & 0x0f < 16) by (bit_vector);
        push_char(&mut s, hex_char(byte >> 4));
        push_char(&mut s, hex_char(byte & 0x0f));
        proof {
            let sep = if k == 4 || k == 6 || k == 8 || k == 10 { seq!['-'] } else { Seq::<char>::empty() };
            assert(s@ =~= before + (sep + seq![hex_digit(byte >> 4), hex_digit(byte & 0x0f)]));
        }
        k = k + 1;
    }
    assert(s@ + uuid_text_from(bs, 16) =~= s@);
    s
}

} // verus!
