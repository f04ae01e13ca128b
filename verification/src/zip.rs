//! ZIP archives (the format of भारत.संपीडन): CRC-32, writing an archive of
//! stored entries, and reading one, stored or DEFLATE-compressed entries
//! alike.

use vstd::prelude::*;
use vstd::utf8::*;
use crate::text::{decimal_spec, decimal, chars_to_string, push_str};

verus! {

broadcast use {encode_utf8_valid_utf8, encode_utf8_decode_utf8};

// ── CRC-32 (IEEE, reflected polynomial 0xEDB88320) ───────────────────────────

/// One shift of the CRC register.
pub open spec fn crc_round(c: u32) -> u32 {
    if c & 1 == 1 {
        (c >> 1u32) ^ 0xEDB8_8320u32
    } else {
        c >> 1u32
    }
}

/// `k` shifts of the CRC register.
pub open spec fn crc_rounds(c: u32, k: nat) -> u32
    decreases k,
{
    if k == 0 {
        c
    } else {
        crc_rounds(crc_round(c), (k - 1) as nat)
    }
}

/// The register after feeding `d`, byte by byte, starting from `c`.
pub open spec fn crc_update(c: u32, d: Seq<u8>) -> u32
    decreases d.len(),
{
    if d.len() == 0 {
        c
    } else {
        crc_rounds(crc_update(c, d.drop_last()) ^ (d.last() as u32), 8)
    }
}

/// CRC-32 of `d`: the register starts all ones and ends inverted.
pub open spec fn crc32_spec(d: Seq<u8>) -> u32 {
    !crc_update(0xFFFF_FFFFu32, d)
}

/// CRC-32 (IEEE) of a byte string.
pub fn crc32(data: &[u8]) -> (r: u32)
    ensures
        r == crc32_spec(data@),
{
    let mut crc: u32 = 0xFFFF_FFFF;
    let mut i: usize = 0;
    while i < data.len()
        invariant
            i <= data@.len(),
            crc == crc_update(0xFFFF_FFFFu32, data@.take(i as int)),
        decreases data@.len() - i,
    {
        assert(data@.take(i + 1).drop_last() =~= data@.take(i as int));
        let ghost goal = crc_rounds(crc ^ (data[i as int] as u32), 8);
        crc = crc ^ (data[i] as u32);
        let mut k: u32 = 0;
        while k < 8
            invariant
                k <= 8,
                crc_rounds(crc, (8 - k) as nat) == goal,
            decreases 8 - k,
        {
            crc = if crc & 1 == 1 {
                (crc >> 1) ^ 0xEDB8_8320
            } else {
                crc >> 1
            };
            k = k + 1;
        }
        i = i + 1;
    }
    assert(data@.take(i as int) =~= data@);
    !crc
}

// ── Writing: stored entries, central directory, end record ───────────────────

/// Byte `k` (little-endian) of a non-negative number.
pub open spec fn b0(x: int) -> u8 {
    (x % 256) as u8
}

pub open spec fn b1(x: int) -> u8 {
    ((x / 256) % 256) as u8
}

pub open spec fn b2(x: int) -> u8 {
    ((x / 65536) % 256) as u8
}

pub open spec fn b3(x: int) -> u8 {
    ((x / 16777216) % 256) as u8
}

/// The local file header of a stored entry: signature, version 20, no
/// flags, method 0, no time or date, CRC, both sizes, name length, no extra.
#[verifier::opaque]
pub open spec fn local_header(nlen: int, size: int, crc: int) -> Seq<u8> {
    seq![
        0x50u8, 0x4b, 0x03, 0x04, 20, 0, 0, 0, 0, 0, 0, 0, 0, 0,
        b0(crc), b1(crc), b2(crc), b3(crc),
        b0(size), b1(size), b2(size), b3(size),
        b0(size), b1(size), b2(size), b3(size),
        b0(nlen), b1(nlen), 0, 0,
    ]
}

/// The central directory header of a stored entry whose local header
/// starts at `off`.
#[verifier::opaque]
pub open spec fn central_header(nlen: int, size: int, crc: int, off: int) -> Seq<u8> {
    seq![
        0x50u8, 0x4b, 0x01, 0x02, 20, 0, 20, 0, 0, 0, 0, 0, 0, 0, 0, 0,
        b0(crc), b1(crc), b2(crc), b3(crc),
        b0(size), b1(size), b2(size), b3(size),
        b0(size), b1(size), b2(size), b3(size),
        b0(nlen), b1(nlen), 0, 0, 0, 0, 0, 0, 0, 0, 0, 0, 0, 0,
        b0(off), b1(off), b2(off), b3(off),
    ]
}

/// The end-of-central-directory record.
#[verifier::opaque]
pub open spec fn eocd_record(count: int, cd_size: int, cd_off: int) -> Seq<u8> {
    seq![
        0x50u8, 0x4b, 0x05, 0x06, 0, 0, 0, 0,
        b0(count), b1(count), b0(count), b1(count),
        b0(cd_size), b1(cd_size), b2(cd_size), b3(cd_size),
        b0(cd_off), b1(cd_off), b2(cd_off), b3(cd_off),
        0, 0,
    ]
}

pub open spec fn local_record(n: Seq<u8>, c: Seq<u8>) -> Seq<u8> {
    local_header(n.len() as int, c.len() as int, crc32_spec(c) as int) + n + c
}

pub open spec fn central_record(n: Seq<u8>, c: Seq<u8>, off: int) -> Seq<u8> {
    central_header(n.len() as int, c.len() as int, crc32_spec(c) as int, off) + n
}

/// The local records of the entries (name bytes, content), one after another.
pub open spec fn locals(es: Seq<(Seq<u8>, Seq<u8>)>) -> Seq<u8>
    decreases es.len(),
{
    if es.len() == 0 {
        seq![]
    } else {
        locals(es.drop_last()) + local_record(es.last().0, es.last().1)
    }
}

/// The central directory: one record per entry, each pointing at its local record.
pub open spec fn centrals(es: Seq<(Seq<u8>, Seq<u8>)>) -> Seq<u8>
    decreases es.len(),
{
    if es.len() == 0 {
        seq![]
    } else {
        centrals(es.drop_last()) + central_record(es.last().0, es.last().1, locals(es.drop_last()).len() as int)
    }
}

/// The archive of entries given by name bytes and content.
#[verifier::opaque]
pub open spec fn zip_bytes(es: Seq<(Seq<u8>, Seq<u8>)>) -> Seq<u8> {
    locals(es) + centrals(es) + eocd_record(es.len() as int, centrals(es).len() as int, locals(es).len() as int)
}

/// Names taken by their UTF-8 bytes.
pub open spec fn raw_entries(fs: Seq<(Seq<char>, Seq<u8>)>) -> Seq<(Seq<u8>, Seq<u8>)> {
    fs.map_values(|f: (Seq<char>, Seq<u8>)| (encode_utf8(f.0), f.1))
}

/// The archive of named entries. Sizes, counts and offsets are written in
/// their 16 or 32 low bits.
pub open spec fn zip_spec(fs: Seq<(Seq<char>, Seq<u8>)>) -> Seq<u8> {
    zip_bytes(raw_entries(fs))
}

pub open spec fn files_view(v: Seq<(String, Vec<u8>)>) -> Seq<(Seq<char>, Seq<u8>)> {
    v.map_values(|f: (String, Vec<u8>)| (f.0@, f.1@))
}

fn put16(out: &mut Vec<u8>, x: usize)
    ensures
        final(out)@ == old(out)@ + seq![b0(x as int), b1(x as int)],
{
    out.push((x % 256) as u8);
    out.push(((x / 256) % 256) as u8);
}

fn put32(out: &mut Vec<u8>, x: usize)
    ensures
        final(out)@ == old(out)@ + seq![b0(x as int), b1(x as int), b2(x as int), b3(x as int)],
{
    out.push((x % 256) as u8);
    out.push(((x / 256) % 256) as u8);
    out.push(((x / 65536) % 256) as u8);
    out.push(((x / 16777216) % 256) as u8);
}

fn put_bytes(out: &mut Vec<u8>, bytes: &[u8])
    ensures
        final(out)@ == old(out)@ + bytes@,
{
    let ghost s = out@;
    let mut k: usize = 0;
    while k < bytes.len()
        invariant
            k <= bytes@.len(),
            out@ == s + bytes@.take(k as int),
        decreases bytes@.len() - k,
    {
        out.push(bytes[k]);
        k = k + 1;
        assert(out@ =~= s + bytes@.take(k as int));
    }
    assert(bytes@.take(k as int) =~= bytes@);
}

fn write_local_header(out: &mut Vec<u8>, nlen: usize, size: usize, crc: u32)
    ensures
        final(out)@ == old(out)@ + local_header(nlen as int, size as int, crc as int),
{
    let ghost s = out@;
    out.push(0x50);
    out.push(0x4b);
    out.push(0x03);
    out.push(0x04);
    put16(out, 20);
    put16(out, 0);
    put16(out, 0);
    put16(out, 0);
    put16(out, 0);
    put32(out, crc as usize);
    put32(out, size);
    put32(out, size);
    put16(out, nlen);
    put16(out, 0);
    reveal(local_header);
    assert(out@ =~= s + local_header(nlen as int, size as int, crc as int));
}

fn write_central_header(out: &mut Vec<u8>, nlen: usize, size: usize, crc: u32, off: usize)
    ensures
        final(out)@ == old(out)@ + central_header(nlen as int, size as int, crc as int, off as int),
{
    let ghost s = out@;
    out.push(0x50);
    out.push(0x4b);
    out.push(0x01);
    out.push(0x02);
    put16(out, 20);
    put16(out, 20);
    put16(out, 0);
    put16(out, 0);
    put16(out, 0);
    put16(out, 0);
    put32(out, crc as usize);
    put32(out, size);
    put32(out, size);
    put16(out, nlen);
    put16(out, 0);
    put16(out, 0);
    put16(out, 0);
    put16(out, 0);
    put32(out, 0);
    put32(out, off);
    reveal(central_header);
    assert(out@ =~= s + central_header(nlen as int, size as int, crc as int, off as int));
}

fn write_eocd(out: &mut Vec<u8>, count: usize, cd_size: usize, cd_off: usize)
    ensures
        final(out)@ == old(out)@ + eocd_record(count as int, cd_size as int, cd_off as int),
{
    let ghost s = out@;
    out.push(0x50);
    out.push(0x4b);
    out.push(0x05);
    out.push(0x06);
    put16(out, 0);
    put16(out, 0);
    put16(out, count);
    put16(out, count);
    put32(out, cd_size);
    put32(out, cd_off);
    put16(out, 0);
    reveal(eocd_record);
    assert(out@ =~= s + eocd_record(count as int, cd_size as int, cd_off as int));
}

/// Writes the archive of `files` (name, content), every entry stored
/// uncompressed (see `zip_spec`).
pub fn build_zip(files: &[(String, Vec<u8>)]) -> (r: Vec<u8>)
    ensures
        r@ == zip_spec(files_view(files@)),
{
    let ghost es = raw_entries(files_view(files@));
    let mut out: Vec<u8> = Vec::new();
    let mut central: Vec<u8> = Vec::new();
    let mut i: usize = 0;
    while i < files.len()
        invariant
            i <= files@.len(),
            es == raw_entries(files_view(files@)),
            es.len() == files@.len(),
            out@ == locals(es.take(i as int)),
            central@ == centrals(es.take(i as int)),
        decreases files@.len() - i,
    {
        let name = &files[i].0;
        let content = &files[i].1;
        assert(es[i as int] == (encode_utf8(name@), content@));
        assert(es.take(i + 1).drop_last() =~= es.take(i as int));
        assert(es.take(i + 1).last() == es[i as int]);
        let offset = out.len();
        let crc = crc32(content.as_slice());
        let nb = name.as_str().as_bytes();
        let size = content.len();
        let ghost o0 = out@;
        write_local_header(&mut out, nb.len(), size, crc);
        put_bytes(&mut out, nb);
        put_bytes(&mut out, content.as_slice());
        assert(out@ =~= o0 + local_record(encode_utf8(name@), content@));
        let ghost c0 = central@;
        write_central_header(&mut central, nb.len(), size, crc, offset);
        put_bytes(&mut central, nb);
        assert(central@ =~= c0 + central_record(encode_utf8(name@), content@, offset as int));
        i = i + 1;
    }
    assert(es.take(i as int) =~= es);
    let cd_offset = out.len();
    let cd_size = central.len();
    put_bytes(&mut out, central.as_slice());
    write_eocd(&mut out, files.len(), cd_size, cd_offset);
    reveal(zip_bytes);
    out
}

// ── DEFLATE (RFC 1951): reading bits ─────────────────────────────────────────

/// A read position: the byte, and the bit within it (0..8, least
/// significant first).
pub type BitPos = (int, int);

pub open spec fn pos_ok(d: Seq<u8>, p: BitPos) -> bool {
    &&& 0 <= p.0 <= d.len()
    &&& 0 <= p.1 < 8
    &&& p.0 == d.len() ==> p.1 == 0
}

/// Bits left to read from `p` on.
pub open spec fn bits_left(d: Seq<u8>, p: BitPos) -> int {
    (d.len() - p.0) * 8 - p.1
}

pub open spec fn msg_incomplete() -> Seq<char> {
    "ज़िप: deflate डेटा अधूरा"@
}

/// The next bit and the position after it.
pub open spec fn read_bit_spec(d: Seq<u8>, p: BitPos) -> Result<(u32, BitPos), Seq<char>> {
    if p.0 >= d.len() {
        Err(msg_incomplete())
    } else {
        let b = ((d[p.0] >> (p.1 as u32)) & 1u8) as u32;
        Ok((b, if p.1 + 1 == 8 { (p.0 + 1, 0) } else { (p.0, p.1 + 1) }))
    }
}

/// Bits `i..n` of an `n`-bit number (least significant first), added to `v`.
pub open spec fn read_bits_spec(d: Seq<u8>, p: BitPos, i: nat, n: nat, v: u32) -> Result<(u32, BitPos), Seq<char>>
    decreases n - i,
{
    if i >= n {
        Ok((v, p))
    } else {
        match read_bit_spec(d, p) {
            Err(e) => Err(e),
            Ok((b, p2)) => read_bits_spec(d, p2, i + 1, n, v | (b << (i as u32))),
        }
    }
}

/// An `n`-bit number, least significant bit first.
pub open spec fn bits_spec(d: Seq<u8>, p: BitPos, n: nat) -> Result<(u32, BitPos), Seq<char>> {
    read_bits_spec(d, p, 0, n, 0)
}

/// The position after skipping to the next byte boundary.
pub open spec fn align_spec(p: BitPos) -> BitPos {
    if p.1 != 0 {
        (p.0 + 1, 0)
    } else {
        p
    }
}

pub proof fn lemma_bit_step(d: Seq<u8>, p: BitPos)
    requires
        pos_ok(d, p),
    ensures
        read_bit_spec(d, p) matches Ok((b, p2)) ==> pos_ok(d, p2) && bits_left(d, p2) == bits_left(d, p) - 1
            && b <= 1,
{
    if p.0 < d.len() {
        let x = d[p.0];
        let s = p.1 as u32;
        assert((x >> s) & 1u8 <= 1u8) by (bit_vector);
    }
}

proof fn lemma_bits_step(d: Seq<u8>, p: BitPos, i: nat, n: nat, v: u32)
    requires
        pos_ok(d, p),
        i <= n <= 16,
        v < (1u32 << (i as u32)),
    ensures
        read_bits_spec(d, p, i, n, v) matches Ok((x, p2)) ==> pos_ok(d, p2) && bits_left(d, p2) == bits_left(d, p) - (
        n - i) && x < (1u32 << (n as u32)),
    decreases n - i,
{
    if i < n {
        lemma_bit_step(d, p);
        match read_bit_spec(d, p) {
            Err(_) => {},
            Ok((b, p2)) => {
                let ii = i as u32;
                assert(b <= 1 && v < (1u32 << ii) && ii < 16 ==> (v | (b << ii)) < (1u32 << (ii + 1) as u32))
                    by (bit_vector);
                lemma_bits_step(d, p2, i + 1, n, v | (b << (i as u32)));
            },
        }
    } else {
        assert(i == n);
    }
}

/// An `n`-bit number read from a valid position lies below `2^n` and leaves
/// `n` bits fewer to read.
pub proof fn lemma_bits(d: Seq<u8>, p: BitPos, n: nat)
    requires
        pos_ok(d, p),
        n <= 16,
    ensures
        bits_spec(d, p, n) matches Ok((x, p2)) ==> pos_ok(d, p2) && bits_left(d, p2) == bits_left(d, p) - n
            && x < (1u32 << (n as u32)),
{
    assert(0u32 < (1u32 << 0u32)) by (bit_vector);
    lemma_bits_step(d, p, 0, n, 0);
}

/// A read position in exec code.
struct Cursor {
    byte: usize,
    bit: u32,
}

impl Cursor {
    spec fn at(&self) -> BitPos {
        (self.byte as int, self.bit as int)
    }
}

fn read_bit(d: &[u8], c: &mut Cursor) -> (r: Result<u32, String>)
    requires
        pos_ok(d@, old(c).at()),
    ensures
        match read_bit_spec(d@, old(c).at()) {
            Err(e) => r matches Err(x) && x@ == e,
            Ok((b, p2)) => r == Ok::<u32, String>(b) && final(c).at() == p2,
        },
        pos_ok(d@, final(c).at()),
{
    if c.byte >= d.len() {
        return Err("ज़िप: deflate डेटा अधूरा".to_owned());
    }
    let b = (d[c.byte] >> c.bit) & 1;
    c.bit = c.bit + 1;
    if c.bit == 8 {
        c.bit = 0;
        c.byte = c.byte + 1;
    }
    Ok(b as u32)
}

fn read_bits(d: &[u8], c: &mut Cursor, n: u32) -> (r: Result<u32, String>)
    requires
        pos_ok(d@, old(c).at()),
        n <= 16,
    ensures
        match bits_spec(d@, old(c).at(), n as nat) {
            Err(e) => r matches Err(x) && x@ == e,
            Ok((v, p2)) => r == Ok::<u32, String>(v) && final(c).at() == p2,
        },
        pos_ok(d@, final(c).at()),
{
    let ghost total = bits_spec(d@, old(c).at(), n as nat);
    let mut v: u32 = 0;
    let mut i: u32 = 0;
    while i < n
        invariant
            i <= n <= 16,
            pos_ok(d@, c.at()),
            read_bits_spec(d@, c.at(), i as nat, n as nat, v) == total,
            total == bits_spec(d@, old(c).at(), n as nat),
        decreases n - i,
    {
        let ghost p0 = c.at();
        assert(read_bits_spec(d@, p0, i as nat, n as nat, v) == match read_bit_spec(d@, p0) {
            Err(e) => Err(e),
            Ok((b, p2)) => read_bits_spec(d@, p2, (i + 1) as nat, n as nat, v | (b << (i as u32))),
        });
        let b = match read_bit(d, c) {
            Ok(b) => b,
            Err(e) => {
                return Err(e);
            },
        };
        v = v | (b << i);
        i = i + 1;
    }
    Ok(v)
}

fn align(d: &[u8], c: &mut Cursor)
    requires
        pos_ok(d@, old(c).at()),
    ensures
        final(c).at() == align_spec(old(c).at()),
        pos_ok(d@, final(c).at()),
        bits_left(d@, final(c).at()) <= bits_left(d@, old(c).at()),
{
    assert(d@.len() == d.len());
    if c.bit != 0 {
        c.bit = 0;
        c.byte = c.byte + 1;
    }
}

// ── Canonical Huffman codes ──────────────────────────────────────────────────

/// How many symbols have code length `l`.
pub open spec fn cnt(ls: Seq<u16>, l: int) -> nat
    decreases ls.len(),
{
    if ls.len() == 0 {
        0
    } else {
        cnt(ls.drop_last(), l) + if ls.last() == l { 1nat } else { 0nat }
    }
}

/// The longest code length (0 when there is none).
pub open spec fn max_len(ls: Seq<u16>) -> int
    decreases ls.len(),
{
    if ls.len() == 0 {
        0
    } else {
        let m = max_len(ls.drop_last());
        if ls.last() > m {
            ls.last() as int
        } else {
            m
        }
    }
}

/// How many codes are shorter than `l` (lengths 1 to `l - 1`): where the
/// symbols of length `l` begin in the symbol table.
pub open spec fn start_of(ls: Seq<u16>, l: int) -> nat
    decreases l,
{
    if l <= 1 {
        0
    } else {
        start_of(ls, l - 1) + cnt(ls, l - 1)
    }
}

/// The symbol table after placing symbols `0..s`: each symbol with a code
/// goes after all shorter codes and after the earlier symbols of its length.
pub open spec fn fill(ls: Seq<u16>, s: int) -> Seq<u16>
    decreases s,
{
    if s <= 0 || s > ls.len() {
        Seq::new(ls.len(), |_k: int| 0u16)
    } else {
        let prev = fill(ls, s - 1);
        let l = ls[s - 1] as int;
        if l > 0 {
            prev.update((start_of(ls, l) + cnt(ls.take(s - 1), l)) as int, (s - 1) as u16)
        } else {
            prev
        }
    }
}

/// A decoding table: how many codes each length has, and the symbols in
/// code order.
pub struct HuffModel {
    pub counts: Seq<u16>,
    pub symbols: Seq<u16>,
}

/// The canonical code of a list of code lengths.
pub open spec fn huff_spec(ls: Seq<u16>) -> HuffModel {
    HuffModel {
        counts: Seq::new((max_len(ls) + 1) as nat, |l: int| if l == 0 { 0u16 } else { cnt(ls, l) as u16 }),
        symbols: fill(ls, ls.len() as int),
    }
}

/// Codes of lengths 1 to `k - 1`.
pub open spec fn hsum(c: Seq<u16>, k: int) -> int
    decreases k,
{
    if k <= 1 {
        0
    } else {
        hsum(c, k - 1) + c[k - 1]
    }
}

/// A usable table: lengths up to 15, and no more codes than symbols.
pub open spec fn huff_wf(h: HuffModel) -> bool {
    &&& 1 <= h.counts.len() <= 16
    &&& hsum(h.counts, h.counts.len() as int) <= h.symbols.len()
    &&& h.symbols.len() < 65536
}

proof fn lemma_fill_len(ls: Seq<u16>, s: int)
    ensures
        fill(ls, s).len() == ls.len(),
    decreases s,
{
    if 0 < s <= ls.len() {
        lemma_fill_len(ls, s - 1);
        let l = ls[s - 1] as int;
        lemma_cnt_step(ls, s - 1, l);
        lemma_cnt_mono(ls, s, l);
        lemma_start_le(ls, l + 1);
    }
}

proof fn lemma_cnt_le(ls: Seq<u16>, l: int)
    ensures
        cnt(ls, l) <= ls.len(),
    decreases ls.len(),
{
    if ls.len() > 0 {
        lemma_cnt_le(ls.drop_last(), l);
    }
}

proof fn lemma_cnt_step(ls: Seq<u16>, s: int, l: int)
    requires
        0 <= s < ls.len(),
    ensures
        cnt(ls.take(s + 1), l) == cnt(ls.take(s), l) + if ls[s] == l { 1nat } else { 0nat },
{
    assert(ls.take(s + 1).drop_last() =~= ls.take(s));
}

proof fn lemma_cnt_mono(ls: Seq<u16>, a: int, l: int)
    requires
        0 <= a <= ls.len(),
    ensures
        cnt(ls.take(a), l) <= cnt(ls, l),
    decreases ls.len() - a,
{
    if a < ls.len() {
        lemma_cnt_step(ls, a, l);
        lemma_cnt_mono(ls, a + 1, l);
    } else {
        assert(ls.take(a) =~= ls);
    }
}

proof fn lemma_start_split(ls: Seq<u16>, l: int)
    requires
        ls.len() > 0,
    ensures
        start_of(ls, l) == start_of(ls.drop_last(), l) + if 1 <= ls.last() < l { 1nat } else { 0nat },
    decreases l,
{
    if l > 1 {
        lemma_start_split(ls, l - 1);
    }
}

proof fn lemma_start_le(ls: Seq<u16>, l: int)
    ensures
        start_of(ls, l) <= ls.len(),
    decreases ls.len(),
{
    if ls.len() > 0 {
        lemma_start_split(ls, l);
        lemma_start_le(ls.drop_last(), l);
    } else {
        lemma_start_empty(ls, l);
    }
}

proof fn lemma_start_empty(ls: Seq<u16>, l: int)
    requires
        ls.len() == 0,
    ensures
        start_of(ls, l) == 0,
    decreases l,
{
    if l > 1 {
        lemma_start_empty(ls, l - 1);
    }
}

proof fn lemma_max_len(ls: Seq<u16>)
    ensures
        forall|i: int| 0 <= i < ls.len() ==> ls[i] <= max_len(ls),
        0 <= max_len(ls),
        (forall|i: int| 0 <= i < ls.len() ==> ls[i] <= 15) ==> max_len(ls) <= 15,
    decreases ls.len(),
{
    if ls.len() > 0 {
        lemma_max_len(ls.drop_last());
        assert forall|i: int| 0 <= i < ls.len() implies ls[i] <= max_len(ls) by {
            if i < ls.len() - 1 {
                assert(ls.drop_last()[i] == ls[i]);
            }
        }
        if forall|i: int| 0 <= i < ls.len() ==> ls[i] <= 15 {
            assert forall|i: int| 0 <= i < ls.drop_last().len() implies ls.drop_last()[i] <= 15 by {
                assert(ls.drop_last()[i] == ls[i]);
            }
        }
    }
}

proof fn lemma_hsum_counts(ls: Seq<u16>, c: Seq<u16>, k: int)
    requires
        1 <= k <= c.len(),
        ls.len() < 65536,
        forall|l: int| 1 <= l < c.len() ==> c[l] == cnt(ls, l),
    ensures
        hsum(c, k) == start_of(ls, k),
    decreases k,
{
    if k > 1 {
        lemma_hsum_counts(ls, c, k - 1);
    }
}

proof fn lemma_hsum_mono(c: Seq<u16>, a: int, b: int)
    requires
        a <= b,
    ensures
        hsum(c, a) <= hsum(c, b),
    decreases b - a,
{
    if a < b {
        lemma_hsum_mono(c, a, b - 1);
    }
}

/// A decoding table in exec code.
struct Huffman {
    counts: Vec<u16>,
    symbols: Vec<u16>,
}

impl Huffman {
    spec fn model(&self) -> HuffModel {
        HuffModel { counts: self.counts@, symbols: self.symbols@ }
    }
}

fn zeros(n: usize) -> (v: Vec<u16>)
    ensures
        v@ == Seq::new(n as nat, |_k: int| 0u16),
{
    let mut v: Vec<u16> = Vec::new();
    let mut i: usize = 0;
    while i < n
        invariant
            i <= n,
            v@ == Seq::new(i as nat, |_k: int| 0u16),
        decreases n - i,
    {
        v.push(0);
        i = i + 1;
        assert(v@ =~= Seq::new(i as nat, |_k: int| 0u16));
    }
    v
}

fn huff_new(lengths: &[u16]) -> (h: Huffman)
    requires
        lengths@.len() < 65536,
        forall|i: int| 0 <= i < lengths@.len() ==> lengths@[i] <= 15,
    ensures
        h.model() == huff_spec(lengths@),
        huff_wf(h.model()),
{
    let ghost ls = lengths@;
    let n = lengths.len();
    proof {
        lemma_max_len(ls);
    }
    // the longest code
    let mut max_bits: usize = 0;
    let mut i: usize = 0;
    while i < n
        invariant
            n == ls.len(),
            ls == lengths@,
            i <= n,
            max_bits == max_len(ls.take(i as int)),
        decreases n - i,
    {
        assert(ls.take(i + 1).drop_last() =~= ls.take(i as int));
        if lengths[i] as usize > max_bits {
            max_bits = lengths[i] as usize;
        }
        i = i + 1;
    }
    assert(ls.take(n as int) =~= ls);
    // codes per length
    let mut counts = zeros(max_bits + 1);
    let mut s: usize = 0;
    while s < n
        invariant
            n == ls.len(),
            ls == lengths@,
            n < 65536,
            s <= n,
            max_bits == max_len(ls),
            max_bits <= 15,
            forall|k: int| 0 <= k < ls.len() ==> ls[k] <= max_len(ls),
            counts@.len() == max_bits + 1,
            counts@[0] == 0,
            forall|l: int| 1 <= l <= max_bits ==> #[trigger] counts@[l] == cnt(ls.take(s as int), l),
        decreases n - s,
    {
        let l = lengths[s] as usize;
        proof {
            assert forall|j: int| 1 <= j <= max_bits implies cnt(ls.take(s + 1), j) == cnt(ls.take(s as int), j)
                + if ls[s as int] == j { 1nat } else { 0nat } by {
                lemma_cnt_step(ls, s as int, j);
            }
            lemma_cnt_le(ls.take(s as int), l as int);
        }
        if l > 0 {
            let v = counts[l] + 1;
            counts.set(l, v);
        }
        s = s + 1;
    }
    assert(ls.take(n as int) =~= ls);
    // where each length's symbols begin
    let mut offsets = zeros(max_bits + 2);
    let mut k: usize = 1;
    while k <= max_bits
        invariant
            n == ls.len(),
            n < 65536,
            1 <= k <= max_bits + 1,
            max_bits <= 15,
            counts@.len() == max_bits + 1,
            forall|l: int| 1 <= l <= max_bits ==> #[trigger] counts@[l] == cnt(ls, l),
            offsets@.len() == max_bits + 2,
            offsets@[0] == 0,
            forall|j: int| 1 <= j <= k ==> #[trigger] offsets@[j] == start_of(ls, j),
        decreases max_bits + 1 - k,
    {
        proof {
            lemma_start_le(ls, k + 1);
        }
        let v = offsets[k] + counts[k];
        offsets.set(k + 1, v);
        k = k + 1;
    }
    // the symbols in code order
    let mut symbols = zeros(n);
    let mut s: usize = 0;
    while s < n
        invariant
            n == ls.len(),
            ls == lengths@,
            n < 65536,
            s <= n,
            max_bits == max_len(ls),
            max_bits <= 15,
            forall|q: int| 0 <= q < ls.len() ==> ls[q] <= max_len(ls),
            offsets@.len() == max_bits + 2,
            forall|j: int| 1 <= j <= max_bits ==> #[trigger] offsets@[j] == start_of(ls, j) + cnt(ls.take(s as int), j),
            symbols@ == fill(ls, s as int),
        decreases n - s,
    {
        let l = lengths[s] as usize;
        proof {
            assert forall|j: int| 1 <= j <= max_bits implies cnt(ls.take(s + 1), j) == cnt(ls.take(s as int), j)
                + if ls[s as int] == j { 1nat } else { 0nat } by {
                lemma_cnt_step(ls, s as int, j);
            }
            lemma_fill_len(ls, s as int);
            lemma_cnt_mono(ls, s + 1, l as int);
            lemma_start_le(ls, l + 1);
            lemma_cnt_le(ls, l as int);
        }
        if l > 0 {
            let at = offsets[l] as usize;
            symbols.set(at, s as u16);
            let v = offsets[l] + 1;
            offsets.set(l, v);
        }
        s = s + 1;
    }
    let h = Huffman { counts, symbols };
    proof {
        assert(h.model().counts =~= huff_spec(ls).counts);
        lemma_hsum_counts(ls, counts@, (max_bits + 1) as int);
        lemma_fill_len(ls, n as int);
        lemma_start_le(ls, (max_bits + 1) as int);
    }
    h
}

pub open spec fn msg_bad_code() -> Seq<char> {
    "ज़िप: अमान्य Huffman कोड"@
}

/// Canonical decoding, one bit at a time: `code` holds the bits read so
/// far, `first` the first code of the current length and `index` how many
/// symbols have shorter codes.
pub open spec fn decode_from(h: HuffModel, d: Seq<u8>, p: BitPos, len: int, code: int, first: int, index: int) -> Result<(u16, BitPos), Seq<char>>
    decreases h.counts.len() - len,
{
    if len < 1 || len >= h.counts.len() {
        Err(msg_bad_code())
    } else {
        match read_bit_spec(d, p) {
            Err(e) => Err(e),
            Ok((b, p2)) => {
                let c2 = code + b;
                let count = h.counts[len] as int;
                if c2 - first < count {
                    Ok((h.symbols[index + c2 - first], p2))
                } else {
                    decode_from(h, d, p2, len + 1, 2 * c2, 2 * (first + count), index + count)
                }
            },
        }
    }
}

/// The next symbol of table `h` read from `p`.
pub open spec fn decode_spec(h: HuffModel, d: Seq<u8>, p: BitPos) -> Result<(u16, BitPos), Seq<char>> {
    decode_from(h, d, p, 1, 0, 0, 0)
}

proof fn lemma_decode_from(h: HuffModel, d: Seq<u8>, p: BitPos, len: int, code: int, first: int, index: int)
    requires
        pos_ok(d, p),
        1 <= len,
    ensures
        decode_from(h, d, p, len, code, first, index) matches Ok((_s, p2)) ==> pos_ok(d, p2) && bits_left(d, p2)
            < bits_left(d, p),
    decreases h.counts.len() - len,
{
    lemma_bit_step(d, p);
    if len < h.counts.len() {
        match read_bit_spec(d, p) {
            Err(_) => {},
            Ok((b, p2)) => {
                let c2 = code + b;
                let count = h.counts[len] as int;
                if c2 - first >= count {
                    lemma_decode_from(h, d, p2, len + 1, 2 * c2, 2 * (first + count), index + count);
                }
            },
        }
    }
}

/// A decoded symbol leaves fewer bits to read.
pub proof fn lemma_decode(h: HuffModel, d: Seq<u8>, p: BitPos)
    requires
        pos_ok(d, p),
    ensures
        decode_spec(h, d, p) matches Ok((_s, p2)) ==> pos_ok(d, p2) && bits_left(d, p2) < bits_left(d, p),
{
    lemma_decode_from(h, d, p, 1, 0, 0, 0);
}

pub open spec fn two_pow(n: int) -> int
    decreases n,
{
    if n <= 0 {
        1
    } else {
        2 * two_pow(n - 1)
    }
}

proof fn lemma_two_pow_le(n: int)
    requires
        0 <= n <= 16,
    ensures
        two_pow(n) <= 65536,
    decreases n,
{
    if n > 0 {
        lemma_two_pow_le(n - 1);
        assert(two_pow(16) == 65536) by {
            reveal_with_fuel(two_pow, 17);
        }
        lemma_two_pow_mono(n, 16);
    }
}

proof fn lemma_two_pow_pos(n: int)
    ensures
        two_pow(n) >= 1,
    decreases n,
{
    if n > 0 {
        lemma_two_pow_pos(n - 1);
    }
}

proof fn lemma_two_pow_mono(a: int, b: int)
    requires
        0 <= a <= b,
    ensures
        two_pow(a) <= two_pow(b),
    decreases b - a,
{
    if a < b {
        lemma_two_pow_mono(a, b - 1);
        lemma_two_pow_pos(b - 1);
    }
}

fn decode(h: &Huffman, d: &[u8], c: &mut Cursor) -> (r: Result<u16, String>)
    requires
        huff_wf(h.model()),
        pos_ok(d@, old(c).at()),
    ensures
        match decode_spec(h.model(), d@, old(c).at()) {
            Err(e) => r matches Err(x) && x@ == e,
            Ok((s, p2)) => r == Ok::<u16, String>(s) && final(c).at() == p2,
        },
        pos_ok(d@, final(c).at()),
{
    let ghost hm = h.model();
    let ghost total = decode_spec(hm, d@, old(c).at());
    let mut code: usize = 0;
    let mut first: usize = 0;
    let mut index: usize = 0;
    let mut len: usize = 1;
    let ghost mut pw: int = 2;
    assert(two_pow(1) == 2) by {
        reveal_with_fuel(two_pow, 2);
    }
    while len < h.counts.len()
        invariant
            hm == h.model(),
            huff_wf(hm),
            1 <= len <= hm.counts.len(),
            pos_ok(d@, c.at()),
            first <= code,
            code + 2 <= pw,
            pw == two_pow(len as int),
            index == hsum(hm.counts, len as int),
            decode_from(hm, d@, c.at(), len as int, code as int, first as int, index as int) == total,
            total == decode_spec(hm, d@, old(c).at()),
        decreases hm.counts.len() - len,
    {
        proof {
            lemma_two_pow_le(len as int);
            lemma_hsum_mono(hm.counts, len + 1, hm.counts.len() as int);
        }
        let ghost p0 = c.at();
        let b = match read_bit(d, c) {
            Ok(b) => b,
            Err(e) => {
                return Err(e);
            },
        };
        proof {
            lemma_bit_step(d@, p0);
        }
        code = code + b as usize;
        let count = h.counts[len] as usize;
        if code - first < count {
            return Ok(h.symbols[index + code - first]);
        }
        index = index + count;
        first = (first + count) * 2;
        code = code * 2;
        len = len + 1;
        proof {
            pw = pw * 2;
        }
    }
    Err("ज़िप: अमान्य Huffman कोड".to_owned())
}

// ── DEFLATE: tables, blocks ──────────────────────────────────────────────────

/// Base lengths of length codes 257..285, and their extra bits.
pub open spec fn len_base() -> Seq<u16> {
    seq![3u16, 4, 5, 6, 7, 8, 9, 10, 11, 13, 15, 17, 19, 23, 27, 31, 35, 43, 51, 59, 67, 83, 99, 115, 131, 163, 195, 227, 258]
}

pub open spec fn len_extra() -> Seq<u16> {
    seq![0u16, 0, 0, 0, 0, 0, 0, 0, 1, 1, 1, 1, 2, 2, 2, 2, 3, 3, 3, 3, 4, 4, 4, 4, 5, 5, 5, 5, 0]
}

/// Base distances of distance codes 0..29, and their extra bits.
pub open spec fn dist_base() -> Seq<u16> {
    seq![1u16, 2, 3, 4, 5, 7, 9, 13, 17, 25, 33, 49, 65, 97, 129, 193, 257, 385, 513, 769, 1025, 1537, 2049, 3073, 4097, 6145, 8193, 12289, 16385, 24577]
}

pub open spec fn dist_extra() -> Seq<u16> {
    seq![0u16, 0, 0, 0, 1, 1, 2, 2, 3, 3, 4, 4, 5, 5, 6, 6, 7, 7, 8, 8, 9, 9, 10, 10, 11, 11, 12, 12, 13, 13]
}

/// The order in which code-length code lengths are sent.
pub open spec fn cl_order() -> Seq<u16> {
    seq![16u16, 17, 18, 0, 8, 7, 9, 6, 10, 5, 11, 4, 12, 3, 13, 2, 14, 1, 15]
}

fn len_base_at(i: usize) -> (r: u16)
    requires
        i < 29,
    ensures
        r == len_base()[i as int],
{
    let t: [u16; 29] = [3, 4, 5, 6, 7, 8, 9, 10, 11, 13, 15, 17, 19, 23, 27, 31, 35, 43, 51, 59, 67, 83, 99, 115, 131, 163, 195, 227, 258];
    assert(t@ =~= len_base());
    t[i]
}

fn len_extra_at(i: usize) -> (r: u16)
    requires
        i < 29,
    ensures
        r == len_extra()[i as int],
{
    let t: [u16; 29] = [0, 0, 0, 0, 0, 0, 0, 0, 1, 1, 1, 1, 2, 2, 2, 2, 3, 3, 3, 3, 4, 4, 4, 4, 5, 5, 5, 5, 0];
    assert(t@ =~= len_extra());
    t[i]
}

fn dist_base_at(i: usize) -> (r: u16)
    requires
        i < 30,
    ensures
        r == dist_base()[i as int],
{
    let t: [u16; 30] = [1, 2, 3, 4, 5, 7, 9, 13, 17, 25, 33, 49, 65, 97, 129, 193, 257, 385, 513, 769, 1025, 1537, 2049, 3073, 4097, 6145, 8193, 12289, 16385, 24577];
    assert(t@ =~= dist_base());
    t[i]
}

fn dist_extra_at(i: usize) -> (r: u16)
    requires
        i < 30,
    ensures
        r == dist_extra()[i as int],
{
    let t: [u16; 30] = [0, 0, 0, 0, 1, 1, 2, 2, 3, 3, 4, 4, 5, 5, 6, 6, 7, 7, 8, 8, 9, 9, 10, 10, 11, 11, 12, 12, 13, 13];
    assert(t@ =~= dist_extra());
    t[i]
}

fn cl_order_at(i: usize) -> (r: u16)
    requires
        i < 19,
    ensures
        r == cl_order()[i as int],
{
    let t: [u16; 19] = [16, 17, 18, 0, 8, 7, 9, 6, 10, 5, 11, 4, 12, 3, 13, 2, 14, 1, 15];
    assert(t@ =~= cl_order());
    t[i]
}

/// Code lengths of the fixed literal/length code.
pub open spec fn fixed_lit() -> Seq<u16> {
    Seq::new(288, |i: int| if i < 144 { 8u16 } else if i < 256 { 9u16 } else if i < 280 { 7u16 } else { 8u16 })
}

/// Code lengths of the fixed distance code.
pub open spec fn fixed_dist() -> Seq<u16> {
    Seq::new(30, |_i: int| 5u16)
}

fn fixed_lit_lengths() -> (v: Vec<u16>)
    ensures
        v@ == fixed_lit(),
{
    let mut v: Vec<u16> = Vec::new();
    let mut i: usize = 0;
    while i < 288
        invariant
            i <= 288,
            v@ == fixed_lit().take(i as int),
        decreases 288 - i,
    {
        let x: u16 = if i < 144 {
            8
        } else if i < 256 {
            9
        } else if i < 280 {
            7
        } else {
            8
        };
        v.push(x);
        i = i + 1;
        assert(v@ =~= fixed_lit().take(i as int));
    }
    assert(fixed_lit().take(288) =~= fixed_lit());
    v
}

fn fixed_dist_lengths() -> (v: Vec<u16>)
    ensures
        v@ == fixed_dist(),
{
    let mut v: Vec<u16> = Vec::new();
    let mut i: usize = 0;
    while i < 30
        invariant
            i <= 30,
            v@ == fixed_dist().take(i as int),
        decreases 30 - i,
    {
        v.push(5);
        i = i + 1;
        assert(v@ =~= fixed_dist().take(i as int));
    }
    assert(fixed_dist().take(30) =~= fixed_dist());
    v
}

pub open spec fn msg_repeat() -> Seq<char> {
    "ज़िप: repeat बिना पूर्व"@
}

pub open spec fn msg_cl_code() -> Seq<char> {
    "ज़िप: अमान्य code-length कोड"@
}

/// The code-length code's lengths: 3 bits each, for the first `hclen`
/// places of `cl_order`.
pub open spec fn cl_lengths_spec(d: Seq<u8>, p: BitPos, i: nat, hclen: nat, cl: Seq<u16>) -> Result<(Seq<u16>, BitPos), Seq<char>>
    decreases hclen - i,
{
    if i >= hclen {
        Ok((cl, p))
    } else {
        match bits_spec(d, p, 3) {
            Err(e) => Err(e),
            Ok((v, p2)) => cl_lengths_spec(d, p2, i + 1, hclen, cl.update(cl_order()[i as int] as int, v as u16)),
        }
    }
}

pub open spec fn todo_count(ls: Seq<u16>, total: int) -> int {
    if ls.len() < total {
        total - ls.len()
    } else {
        0
    }
}

/// The literal/length and distance code lengths, decoded with the
/// code-length code `h` until `total` of them are known: 0..15 stand for
/// themselves, 16 repeats the previous length 3..6 times, 17 and 18 give
/// 3..10 and 11..138 zeros.
pub open spec fn code_lengths_spec(h: HuffModel, d: Seq<u8>, p: BitPos, total: int, ls: Seq<u16>) -> Result<(Seq<u16>, BitPos), Seq<char>>
    decreases todo_count(ls, total),
{
    if ls.len() >= total {
        Ok((ls, p))
    } else {
        match decode_spec(h, d, p) {
            Err(e) => Err(e),
            Ok((sym, p2)) => if sym <= 15 {
                code_lengths_spec(h, d, p2, total, ls.push(sym))
            } else if sym == 16 {
                if ls.len() == 0 {
                    Err(msg_repeat())
                } else {
                    match bits_spec(d, p2, 2) {
                        Err(e) => Err(e),
                        Ok((r, p3)) => code_lengths_spec(h, d, p3, total, ls + Seq::new((r + 3) as nat, |_i: int| ls.last())),
                    }
                }
            } else if sym == 17 {
                match bits_spec(d, p2, 3) {
                    Err(e) => Err(e),
                    Ok((r, p3)) => code_lengths_spec(h, d, p3, total, ls + Seq::new((r + 3) as nat, |_i: int| 0u16)),
                }
            } else if sym == 18 {
                match bits_spec(d, p2, 7) {
                    Err(e) => Err(e),
                    Ok((r, p3)) => code_lengths_spec(h, d, p3, total, ls + Seq::new((r + 11) as nat, |_i: int| 0u16)),
                }
            } else {
                Err(msg_cl_code())
            },
        }
    }
}

/// The tables from the code lengths of both codes.
pub open spec fn dyn_after_lengths(hlit: int, hdist: int, r: Result<(Seq<u16>, BitPos), Seq<char>>) -> Result<(HuffModel, HuffModel, BitPos), Seq<char>> {
    match r {
        Err(e) => Err(e),
        Ok((ls, p5)) => Ok((huff_spec(ls.take(hlit)), huff_spec(ls.subrange(hlit, hlit + hdist)), p5)),
    }
}

/// The tables once the code-length code's lengths are read.
pub open spec fn dyn_after_cl(d: Seq<u8>, hlit: int, hdist: int, r: Result<(Seq<u16>, BitPos), Seq<char>>) -> Result<(HuffModel, HuffModel, BitPos), Seq<char>> {
    match r {
        Err(e) => Err(e),
        Ok((cl, p4)) => dyn_after_lengths(hlit, hdist, code_lengths_spec(huff_spec(cl), d, p4, hlit + hdist, seq![])),
    }
}

/// The tables of a dynamic block: counts (5, 5 and 4 bits), the code-length
/// code, then the code lengths of both codes.
pub open spec fn dyn_tables_spec(d: Seq<u8>, p: BitPos) -> Result<(HuffModel, HuffModel, BitPos), Seq<char>> {
    match bits_spec(d, p, 5) {
        Err(e) => Err(e),
        Ok((a, p1)) => match bits_spec(d, p1, 5) {
            Err(e) => Err(e),
            Ok((b, p2)) => match bits_spec(d, p2, 4) {
                Err(e) => Err(e),
                Ok((c, p3)) => dyn_after_cl(d, a + 257, b + 1, cl_lengths_spec(d, p3, 0, (c + 4) as nat, Seq::new(19, |_i: int| 0u16))),
            },
        },
    }
}

proof fn lemma_cl_lengths(d: Seq<u8>, p: BitPos, i: nat, hclen: nat, cl: Seq<u16>)
    requires
        pos_ok(d, p),
        hclen <= 19,
        cl.len() == 19,
        forall|k: int| 0 <= k < 19 ==> cl[k] <= 7,
    ensures
        cl_lengths_spec(d, p, i, hclen, cl) matches Ok((x, p2)) ==> pos_ok(d, p2) && bits_left(d, p2) <= bits_left(d, p)
            && x.len() == 19 && forall|k: int| 0 <= k < 19 ==> x[k] <= 7,
    decreases hclen - i,
{
    if i < hclen {
        lemma_bits(d, p, 3);
        assert(7u32 == (1u32 << 3u32) - 1) by (bit_vector);
        match bits_spec(d, p, 3) {
            Err(_) => {},
            Ok((v, p2)) => {
                lemma_cl_lengths(d, p2, i + 1, hclen, cl.update(cl_order()[i as int] as int, v as u16));
            },
        }
    }
}

/// All lengths at most 15.
pub open spec fn lens_ok(ls: Seq<u16>) -> bool {
    forall|k: int| 0 <= k < ls.len() ==> ls[k] <= 15
}

proof fn lemma_code_lengths(h: HuffModel, d: Seq<u8>, p: BitPos, total: int, ls: Seq<u16>)
    requires
        pos_ok(d, p),
        lens_ok(ls),
        ls.len() <= total + 138,
    ensures
        code_lengths_spec(h, d, p, total, ls) matches Ok((x, p2)) ==> pos_ok(d, p2) && bits_left(d, p2) <= bits_left(
            d,
            p,
        ) && lens_ok(x) && total <= x.len() <= total + 138,
    decreases todo_count(ls, total),
{
    if ls.len() < total {
        lemma_decode(h, d, p);
        match decode_spec(h, d, p) {
            Err(_) => {},
            Ok((sym, p2)) => {
                if sym <= 15 {
                    lemma_code_lengths(h, d, p2, total, ls.push(sym));
                } else if sym == 16 {
                    if ls.len() > 0 {
                        lemma_bits(d, p2, 2);
                        assert((1u32 << 2u32) == 4) by (bit_vector);
                        match bits_spec(d, p2, 2) {
                            Err(_) => {},
                            Ok((r, p3)) => {
                                lemma_code_lengths(h, d, p3, total, ls + Seq::new((r + 3) as nat, |_i: int| ls.last()));
                            },
                        }
                    }
                } else if sym == 17 {
                    lemma_bits(d, p2, 3);
                    assert((1u32 << 3u32) == 8) by (bit_vector);
                    match bits_spec(d, p2, 3) {
                        Err(_) => {},
                        Ok((r, p3)) => {
                            lemma_code_lengths(h, d, p3, total, ls + Seq::new((r + 3) as nat, |_i: int| 0u16));
                        },
                    }
                } else if sym == 18 {
                    lemma_bits(d, p2, 7);
                    assert((1u32 << 7u32) == 128) by (bit_vector);
                    match bits_spec(d, p2, 7) {
                        Err(_) => {},
                        Ok((r, p3)) => {
                            lemma_code_lengths(h, d, p3, total, ls + Seq::new((r + 11) as nat, |_i: int| 0u16));
                        },
                    }
                }
            },
        }
    }
}

proof fn lemma_dyn_tables(d: Seq<u8>, p: BitPos)
    requires
        pos_ok(d, p),
    ensures
        dyn_tables_spec(d, p) matches Ok((l, di, p2)) ==> pos_ok(d, p2) && bits_left(d, p2) <= bits_left(d, p),
{
    lemma_bits(d, p, 5);
    match bits_spec(d, p, 5) {
        Err(_) => {},
        Ok((a, p1)) => {
            lemma_bits(d, p1, 5);
            match bits_spec(d, p1, 5) {
                Err(_) => {},
                Ok((b, p2)) => {
                    lemma_bits(d, p2, 4);
                    match bits_spec(d, p2, 4) {
                        Err(_) => {},
                        Ok((c, p3)) => {
                            assert((1u32 << 4u32) == 16) by (bit_vector);
                            lemma_cl_lengths(d, p3, 0, (c + 4) as nat, Seq::new(19, |_i: int| 0u16));
                            match cl_lengths_spec(d, p3, 0, (c + 4) as nat, Seq::new(19, |_i: int| 0u16)) {
                                Err(_) => {},
                                Ok((cl, p4)) => {
                                    lemma_code_lengths(huff_spec(cl), d, p4, a + 257 + b + 1, seq![]);
                                },
                            }
                        },
                    }
                },
            }
        },
    }
}

fn read_dynamic_tables(d: &[u8], c: &mut Cursor) -> (r: Result<(Huffman, Huffman), String>)
    requires
        pos_ok(d@, old(c).at()),
    ensures
        match dyn_tables_spec(d@, old(c).at()) {
            Err(e) => r matches Err(x) && x@ == e,
            Ok((l, di, p2)) => r matches Ok((x, y)) && x.model() == l && y.model() == di && final(c).at() == p2
                && huff_wf(l) && huff_wf(di),
        },
        pos_ok(d@, final(c).at()),
{
    let ghost p0 = c.at();
    proof {
        lemma_bits(d@, p0, 5);
        assert((1u32 << 5u32) == 32 && (1u32 << 4u32) == 16 && (1u32 << 3u32) == 8) by (bit_vector);
    }
    let a = match read_bits(d, c, 5) {
        Ok(v) => v,
        Err(e) => {
            return Err(e);
        },
    };
    let ghost p1 = c.at();
    proof {
        lemma_bits(d@, p1, 5);
    }
    let b = match read_bits(d, c, 5) {
        Ok(v) => v,
        Err(e) => {
            return Err(e);
        },
    };
    let ghost p2 = c.at();
    proof {
        lemma_bits(d@, p2, 4);
    }
    let hc = match read_bits(d, c, 4) {
        Ok(v) => v,
        Err(e) => {
            return Err(e);
        },
    };
    let hlit = a as usize + 257;
    let hdist = b as usize + 1;
    let hclen = hc as usize + 4;
    let ghost p3 = c.at();
    let ghost total_cl = cl_lengths_spec(d@, p3, 0, hclen as nat, Seq::new(19, |_i: int| 0u16));
    let mut cl = zeros(19);
    let mut i: usize = 0;
    proof {
        lemma_cl_lengths(d@, p3, 0, hclen as nat, Seq::new(19, |_i: int| 0u16));
    }
    while i < hclen
        invariant
            hclen <= 19,
            i <= hclen,
            pos_ok(d@, c.at()),
            cl@.len() == 19,
            forall|k: int| 0 <= k < 19 ==> cl@[k] <= 7,
            cl_lengths_spec(d@, c.at(), i as nat, hclen as nat, cl@) == total_cl,
            dyn_tables_spec(d@, old(c).at()) == dyn_after_cl(d@, hlit as int, hdist as int, total_cl),
        decreases hclen - i,
    {
        let ghost q = c.at();
        proof {
            lemma_bits(d@, q, 3);
            assert((1u32 << 3u32) == 8) by (bit_vector);
        }
        let v = match read_bits(d, c, 3) {
            Ok(v) => v,
            Err(e) => {
                return Err(e);
            },
        };
        let at = cl_order_at(i) as usize;
        cl.set(at, v as u16);
        i = i + 1;
    }
    let ghost p4 = c.at();
    let cl_huff = huff_new(cl.as_slice());
    let total = hlit + hdist;
    let ghost total_ls = code_lengths_spec(cl_huff.model(), d@, p4, total as int, seq![]);
    proof {
        lemma_code_lengths(cl_huff.model(), d@, p4, total as int, seq![]);
    }
    let mut lengths: Vec<u16> = Vec::new();
    while lengths.len() < total
        invariant
            total == hlit + hdist,
            total <= 320,
            huff_wf(cl_huff.model()),
            pos_ok(d@, c.at()),
            lens_ok(lengths@),
            lengths@.len() <= total + 138,
            code_lengths_spec(cl_huff.model(), d@, c.at(), total as int, lengths@) == total_ls,
            dyn_tables_spec(d@, old(c).at()) == dyn_after_lengths(hlit as int, hdist as int, total_ls),
        decreases todo_count(lengths@, total as int),
    {
        let ghost q = c.at();
        let ghost before = lengths@;
        proof {
            lemma_decode(cl_huff.model(), d@, q);
        }
        let sym = match decode(&cl_huff, d, c) {
            Ok(s) => s,
            Err(e) => {
                return Err(e);
            },
        };
        let ghost q2 = c.at();
        if sym <= 15 {
            lengths.push(sym);
        } else if sym == 16 {
            if lengths.len() == 0 {
                return Err("ज़िप: repeat बिना पूर्व".to_owned());
            }
            let prev = lengths[lengths.len() - 1];
            proof {
                lemma_bits(d@, q2, 2);
                assert((1u32 << 2u32) == 4) by (bit_vector);
            }
            let extra = match read_bits(d, c, 2) {
                Ok(v) => v,
                Err(e) => {
                    return Err(e);
                },
            };
            let rep = extra + 3;
            let mut k: u32 = 0;
            while k < rep
                invariant
                    k <= rep,
                    before.len() > 0,
                    prev == before.last(),
                    lens_ok(before),
                    lengths@ == before + Seq::new(k as nat, |_i: int| before.last()),
                decreases rep - k,
            {
                lengths.push(prev);
                k = k + 1;
                assert(lengths@ =~= before + Seq::new(k as nat, |_i: int| before.last()));
            }
        } else if sym == 17 || sym == 18 {
            proof {
                lemma_bits(d@, q2, 3);
                lemma_bits(d@, q2, 7);
                assert((1u32 << 3u32) == 8 && (1u32 << 7u32) == 128) by (bit_vector);
            }
            let nbits: u32 = if sym == 17 { 3 } else { 7 };
            let extra = match read_bits(d, c, nbits) {
                Ok(v) => v,
                Err(e) => {
                    return Err(e);
                },
            };
            let rep = if sym == 17 { extra + 3 } else { extra + 11 };
            let mut k: u32 = 0;
            while k < rep
                invariant
                    k <= rep,
                    lengths@ == before + Seq::new(k as nat, |_i: int| 0u16),
                decreases rep - k,
            {
                lengths.push(0);
                k = k + 1;
                assert(lengths@ =~= before + Seq::new(k as nat, |_i: int| 0u16));
            }
        } else {
            return Err("ज़िप: अमान्य code-length कोड".to_owned());
        }
        proof {
            assert forall|k: int| 0 <= k < lengths@.len() implies lengths@[k] <= 15 by {
                if k < before.len() {
                    assert(lengths@[k] == before[k]);
                }
            }
        }
    }
    let lit = huff_new(&lengths.as_slice()[0..hlit]);
    let dist = huff_new(&lengths.as_slice()[hlit..total]);
    Ok((lit, dist))
}

pub open spec fn msg_len_code() -> Seq<char> {
    "ज़िप: अमान्य length कोड"@
}

pub open spec fn msg_dist_code() -> Seq<char> {
    "ज़िप: अमान्य distance कोड"@
}

pub open spec fn msg_far() -> Seq<char> {
    "ज़िप: distance सीमा से बाहर"@
}

pub open spec fn msg_stored_short() -> Seq<char> {
    "ज़िप: stored block अधूरा"@
}

pub open spec fn msg_stored_size() -> Seq<char> {
    "ज़िप: stored block आकार गलत"@
}

pub open spec fn msg_btype() -> Seq<char> {
    "ज़िप: अमान्य deflate block प्रकार"@
}

/// Appends `n` bytes copied from `start` on, one at a time, so that the
/// source may run into what is being written.
pub open spec fn copy_spec(out: Seq<u8>, start: int, n: nat) -> Seq<u8>
    decreases n,
{
    if n == 0 {
        out
    } else {
        let o = copy_spec(out, start, (n - 1) as nat);
        o.push(o[start + n - 1])
    }
}

/// The symbols of a compressed block up to its end (256): literals are
/// bytes, length codes copy earlier output.
pub open spec fn syms_spec(lit: HuffModel, dist: HuffModel, d: Seq<u8>, p: BitPos, out: Seq<u8>) -> Result<(Seq<u8>, BitPos), Seq<char>>
    decreases bits_left(d, p),
{
    if !pos_ok(d, p) {
        Err(msg_incomplete())
    } else {
        match decode_spec(lit, d, p) {
            Err(e) => Err(e),
            Ok((sym, p2)) => {
                proof {
                    lemma_decode(lit, d, p);
                }
                if sym == 256 {
                    Ok((out, p2))
                } else if sym < 256 {
                    syms_spec(lit, dist, d, p2, out.push(sym as u8))
                } else if sym - 257 >= 29 {
                    Err(msg_len_code())
                } else {
                    let si = sym - 257;
                    match bits_spec(d, p2, len_extra()[si] as nat) {
                        Err(e) => Err(e),
                        Ok((x, p3)) => {
                            proof {
                                lemma_bits(d, p2, len_extra()[si] as nat);
                            }
                            let length = len_base()[si] + x;
                            match decode_spec(dist, d, p3) {
                                Err(e) => Err(e),
                                Ok((ds, p4)) => {
                                    proof {
                                        lemma_decode(dist, d, p3);
                                    }
                                    if ds >= 30 {
                                        Err(msg_dist_code())
                                    } else {
                                        match bits_spec(d, p4, dist_extra()[ds as int] as nat) {
                                            Err(e) => Err(e),
                                            Ok((y, p5)) => {
                                                proof {
                                                    lemma_bits(d, p4, dist_extra()[ds as int] as nat);
                                                }
                                                let distance = dist_base()[ds as int] + y;
                                                if distance > out.len() {
                                                    Err(msg_far())
                                                } else {
                                                    syms_spec(lit, dist, d, p5, copy_spec(out, out.len() - distance, length as nat))
                                                }
                                            },
                                        }
                                    }
                                },
                            }
                        },
                    }
                }
            },
        }
    }
}

/// A stored block: from the next byte boundary, a 16-bit length, its
/// complement (not checked), then that many bytes.
pub open spec fn stored_spec(d: Seq<u8>, p: BitPos, out: Seq<u8>) -> Result<(Seq<u8>, BitPos), Seq<char>> {
    let a = align_spec(p);
    if a.0 + 4 > d.len() {
        Err(msg_stored_short())
    } else {
        let n = d[a.0] + 256 * d[a.0 + 1];
        let b = a.0 + 4;
        if b + n > d.len() {
            Err(msg_stored_size())
        } else {
            Ok((out + d.subrange(b, b + n), (b + n, 0)))
        }
    }
}

/// One block's output and the position after it, by its type.
pub open spec fn block_spec(d: Seq<u8>, bt: u32, p: BitPos, out: Seq<u8>) -> Result<(Seq<u8>, BitPos), Seq<char>> {
    if bt == 0 {
        stored_spec(d, p, out)
    } else if bt == 1 {
        syms_spec(huff_spec(fixed_lit()), huff_spec(fixed_dist()), d, p, out)
    } else if bt == 2 {
        match dyn_tables_spec(d, p) {
            Err(e) => Err(e),
            Ok((l, di, p3)) => syms_spec(l, di, d, p3, out),
        }
    } else {
        Err(msg_btype())
    }
}

proof fn lemma_syms(lit: HuffModel, dist: HuffModel, d: Seq<u8>, p: BitPos, out: Seq<u8>)
    ensures
        syms_spec(lit, dist, d, p, out) matches Ok((o, p2)) ==> pos_ok(d, p2) && bits_left(d, p2) <= bits_left(d, p),
    decreases bits_left(d, p),
{
    if pos_ok(d, p) {
        lemma_decode(lit, d, p);
        match decode_spec(lit, d, p) {
            Err(_) => {},
            Ok((sym, p2)) => {
                if sym < 256 {
                    lemma_syms(lit, dist, d, p2, out.push(sym as u8));
                } else if sym > 256 && sym - 257 < 29 {
                    let si = sym - 257;
                    lemma_bits(d, p2, len_extra()[si] as nat);
                    match bits_spec(d, p2, len_extra()[si] as nat) {
                        Err(_) => {},
                        Ok((x, p3)) => {
                            lemma_decode(dist, d, p3);
                            match decode_spec(dist, d, p3) {
                                Err(_) => {},
                                Ok((ds, p4)) => {
                                    if ds < 30 {
                                        lemma_bits(d, p4, dist_extra()[ds as int] as nat);
                                        match bits_spec(d, p4, dist_extra()[ds as int] as nat) {
                                            Err(_) => {},
                                            Ok((y, p5)) => {
                                                let distance = dist_base()[ds as int] + y;
                                                if distance <= out.len() {
                                                    lemma_syms(lit, dist, d, p5, copy_spec(out, out.len() - distance, (len_base()[si] + x) as nat));
                                                }
                                            },
                                        }
                                    }
                                },
                            }
                        },
                    }
                }
            },
        }
    }
}

pub proof fn lemma_block(d: Seq<u8>, bt: u32, p: BitPos, out: Seq<u8>)
    requires
        pos_ok(d, p),
    ensures
        block_spec(d, bt, p, out) matches Ok((o, p2)) ==> pos_ok(d, p2) && bits_left(d, p2) <= bits_left(d, p),
{
    if bt == 0 {
    } else if bt == 1 {
        lemma_syms(huff_spec(fixed_lit()), huff_spec(fixed_dist()), d, p, out);
    } else if bt == 2 {
        lemma_dyn_tables(d, p);
        match dyn_tables_spec(d, p) {
            Err(_) => {},
            Ok((l, di, p3)) => lemma_syms(l, di, d, p3, out),
        }
    }
}

/// Blocks from `p` on, each headed by a last-block bit and a 2-bit type.
pub open spec fn blocks_spec(d: Seq<u8>, p: BitPos, out: Seq<u8>) -> Result<Seq<u8>, Seq<char>>
    decreases bits_left(d, p),
{
    if !pos_ok(d, p) {
        Err(msg_incomplete())
    } else {
        match read_bit_spec(d, p) {
            Err(e) => Err(e),
            Ok((last, p1)) => {
                proof {
                    lemma_bit_step(d, p);
                }
                match bits_spec(d, p1, 2) {
                    Err(e) => Err(e),
                    Ok((bt, p2)) => {
                        proof {
                            lemma_bits(d, p1, 2);
                            lemma_block(d, bt, p2, out);
                        }
                        match block_spec(d, bt, p2, out) {
                            Err(e) => Err(e),
                            Ok((o2, p3)) => if last == 1 {
                                Ok(o2)
                            } else {
                                blocks_spec(d, p3, o2)
                            },
                        }
                    },
                }
            },
        }
    }
}

/// The bytes a DEFLATE stream decompresses to.
pub open spec fn inflate_spec(d: Seq<u8>) -> Result<Seq<u8>, Seq<char>> {
    blocks_spec(d, (0, 0), seq![])
}

fn inflate_syms(lit: &Huffman, dist: &Huffman, d: &[u8], c: &mut Cursor, out: &mut Vec<u8>) -> (r: Result<(), String>)
    requires
        huff_wf(lit.model()),
        huff_wf(dist.model()),
        pos_ok(d@, old(c).at()),
    ensures
        match syms_spec(lit.model(), dist.model(), d@, old(c).at(), old(out)@) {
            Err(e) => r matches Err(x) && x@ == e,
            Ok((o, p2)) => r is Ok && final(out)@ == o && final(c).at() == p2,
        },
        pos_ok(d@, final(c).at()),
{
    let ghost total = syms_spec(lit.model(), dist.model(), d@, old(c).at(), old(out)@);
    loop
        invariant
            huff_wf(lit.model()),
            huff_wf(dist.model()),
            pos_ok(d@, c.at()),
            syms_spec(lit.model(), dist.model(), d@, c.at(), out@) == total,
            total == syms_spec(lit.model(), dist.model(), d@, old(c).at(), old(out)@),
        decreases bits_left(d@, c.at()),
    {
        let ghost p = c.at();
        proof {
            lemma_decode(lit.model(), d@, p);
        }
        let sym = match decode(lit, d, c) {
            Ok(s) => s,
            Err(e) => {
                return Err(e);
            },
        };
        if sym == 256 {
            return Ok(());
        }
        if sym < 256 {
            out.push(sym as u8);
        } else {
            let si = (sym - 257) as usize;
            if si >= 29 {
                return Err("ज़िप: अमान्य length कोड".to_owned());
            }
            let ghost p2 = c.at();
            let ne = len_extra_at(si);
            proof {
                lemma_bits(d@, p2, ne as nat);
            }
            let x = match read_bits(d, c, ne as u32) {
                Ok(v) => v,
                Err(e) => {
                    return Err(e);
                },
            };
            proof {
                assert(x < (1u32 << 5u32) ==> x < 32) by (bit_vector);
                assert(ne <= 5);
                assert((1u32 << (ne as u32)) <= (1u32 << 5u32)) by (bit_vector)
                    requires
                        ne <= 5,
                ;
            }
            let length = len_base_at(si) as usize + x as usize;
            let ghost p3 = c.at();
            proof {
                lemma_decode(dist.model(), d@, p3);
            }
            let ds = match decode(dist, d, c) {
                Ok(s) => s as usize,
                Err(e) => {
                    return Err(e);
                },
            };
            if ds >= 30 {
                return Err("ज़िप: अमान्य distance कोड".to_owned());
            }
            let ghost p4 = c.at();
            let nd = dist_extra_at(ds);
            proof {
                lemma_bits(d@, p4, nd as nat);
                assert((1u32 << (nd as u32)) <= (1u32 << 13u32)) by (bit_vector)
                    requires
                        nd <= 13,
                ;
                assert((1u32 << 13u32) == 8192) by (bit_vector);
            }
            let y = match read_bits(d, c, nd as u32) {
                Ok(v) => v,
                Err(e) => {
                    return Err(e);
                },
            };
            let distance = dist_base_at(ds) as usize + y as usize;
            if distance > out.len() {
                return Err("ज़िप: distance सीमा से बाहर".to_owned());
            }
            let start = out.len() - distance;
            let ghost o0 = out@;
            let mut i: usize = 0;
            while i < length
                invariant
                    i <= length,
                    1 <= distance <= o0.len(),
                    start == o0.len() - distance,
                    out@ == copy_spec(o0, start as int, i as nat),
                    out@.len() == o0.len() + i,
                decreases length - i,
            {
                let cur = out.len();
                assert(start + i < cur);
                let b = out[start + i];
                out.push(b);
                i = i + 1;
            }
        }
    }
}

fn stored_block(d: &[u8], c: &mut Cursor, out: &mut Vec<u8>) -> (r: Result<(), String>)
    requires
        pos_ok(d@, old(c).at()),
        d@.len() + 65540 < usize::MAX,
    ensures
        match stored_spec(d@, old(c).at(), old(out)@) {
            Err(e) => r matches Err(x) && x@ == e,
            Ok((o, p2)) => r is Ok && final(out)@ == o && final(c).at() == p2,
        },
        pos_ok(d@, final(c).at()),
{
    align(d, c);
    if c.byte + 4 > d.len() {
        return Err("ज़िप: stored block अधूरा".to_owned());
    }
    let n = d[c.byte] as usize + 256 * (d[c.byte + 1] as usize);
    c.byte = c.byte + 4;
    if c.byte + n > d.len() {
        return Err("ज़िप: stored block आकार गलत".to_owned());
    }
    let ghost o0 = out@;
    let b = c.byte;
    let mut i: usize = 0;
    while i < n
        invariant
            i <= n,
            b + n <= d@.len(),
            d@.len() + 65540 < usize::MAX,
            out@ == o0 + d@.subrange(b as int, b + i),
        decreases n - i,
    {
        out.push(d[b + i]);
        i = i + 1;
        assert(out@ =~= o0 + d@.subrange(b as int, b + i));
    }
    c.byte = b + n;
    Ok(())
}

/// Decompresses a DEFLATE stream (RFC 1951): stored, fixed-code and
/// dynamic-code blocks until the last one.
pub fn inflate(data: &[u8]) -> (r: Result<Vec<u8>, String>)
    requires
        data@.len() + 65540 < usize::MAX,
    ensures
        match inflate_spec(data@) {
            Err(e) => r matches Err(x) && x@ == e,
            Ok(o) => r matches Ok(v) && v@ == o,
        },
{
    let mut c = Cursor { byte: 0, bit: 0 };
    let mut out: Vec<u8> = Vec::new();
    let ghost total = inflate_spec(data@);
    loop
        invariant
            data@.len() + 65540 < usize::MAX,
            pos_ok(data@, c.at()),
            blocks_spec(data@, c.at(), out@) == total,
            total == inflate_spec(data@),
        decreases bits_left(data@, c.at()),
    {
        let ghost p = c.at();
        proof {
            lemma_bit_step(data@, p);
        }
        let last = match read_bit(data, &mut c) {
            Ok(v) => v,
            Err(e) => {
                return Err(e);
            },
        };
        let ghost p1 = c.at();
        proof {
            lemma_bits(data@, p1, 2);
        }
        let bt = match read_bits(data, &mut c, 2) {
            Ok(v) => v,
            Err(e) => {
                return Err(e);
            },
        };
        let ghost p2 = c.at();
        proof {
            lemma_block(data@, bt, p2, out@);
        }
        if bt == 0 {
            match stored_block(data, &mut c, &mut out) {
                Ok(()) => {},
                Err(e) => {
                    return Err(e);
                },
            }
        } else if bt == 1 {
            let ll = fixed_lit_lengths();
            let dl = fixed_dist_lengths();
            proof {
                assert(lens_ok(ll@));
                assert(lens_ok(dl@));
            }
            let lit = huff_new(ll.as_slice());
            let dist = huff_new(dl.as_slice());
            match inflate_syms(&lit, &dist, data, &mut c, &mut out) {
                Ok(()) => {},
                Err(e) => {
                    return Err(e);
                },
            }
        } else if bt == 2 {
            let (lit, dist) = match read_dynamic_tables(data, &mut c) {
                Ok(t) => t,
                Err(e) => {
                    return Err(e);
                },
            };
            match inflate_syms(&lit, &dist, data, &mut c, &mut out) {
                Ok(()) => {},
                Err(e) => {
                    return Err(e);
                },
            }
        } else {
            return Err("ज़िप: अमान्य deflate block प्रकार".to_owned());
        }
        if last == 1 {
            return Ok(out);
        }
    }
}

// ── Reading an archive ───────────────────────────────────────────────────────

pub open spec fn u16_at(d: Seq<u8>, o: int) -> int {
    d[o] + 256 * d[o + 1]
}

pub open spec fn u32_at(d: Seq<u8>, o: int) -> int {
    d[o] + 256 * d[o + 1] + 65536 * d[o + 2] + 16777216 * d[o + 3]
}

/// The signature `PK x y` at `o`.
pub open spec fn sig_at(d: Seq<u8>, o: int, x: u8, y: u8) -> bool {
    d[o] == 0x50 && d[o + 1] == 0x4b && d[o + 2] == x && d[o + 3] == y
}

/// How reading an archive fails: with a message, or by slicing past the
/// end of the data (where it cannot go on).
pub enum ZipFault {
    Msg(Seq<char>),
    Slice,
}

/// What std `String::from_utf8_lossy` makes of bytes that are not valid
/// UTF-8.
pub uninterp spec fn utf8_lossy(b: Seq<u8>) -> Seq<char>;

/// A name read from its bytes: decoded, invalid sequences replaced.
pub open spec fn lossy_text(b: Seq<u8>) -> Seq<char> {
    if valid_utf8(b) {
        decode_utf8(b)
    } else {
        utf8_lossy(b)
    }
}

/// std `String::from_utf8_lossy`: valid UTF-8 decodes as it is; otherwise
/// the result is named `utf8_lossy` of the bytes (invalid sequences become
/// U+FFFD, which this contract does not spell out).
#[verifier::external_body]
fn string_from_utf8_lossy(v: &[u8]) -> (s: String)
    ensures
        valid_utf8(v@) ==> s@ == decode_utf8(v@),
        !valid_utf8(v@) ==> s@ == utf8_lossy(v@),
{
    String::from_utf8_lossy(v).into_owned()
}

pub open spec fn msg_too_small() -> Seq<char> {
    "ज़िप: फ़ाइल बहुत छोटी"@
}

pub open spec fn msg_no_eocd() -> Seq<char> {
    "ज़िप: EOCD नहीं मिला (अमान्य ज़िप)"@
}

pub open spec fn msg_cd_bad() -> Seq<char> {
    "ज़िप: central directory भ्रष्ट"@
}

pub open spec fn msg_local_bad() -> Seq<char> {
    "ज़िप: local header भ्रष्ट"@
}

pub open spec fn msg_method(m: int) -> Seq<char> {
    "ज़िप: असमर्थित संपीडन विधि "@ + decimal_spec(m as nat)
}

/// The end record, searched from `i` down to `lo`.
pub open spec fn find_eocd(d: Seq<u8>, i: int, lo: int) -> Option<int>
    decreases i + 1 - lo,
{
    if i < lo || i < 0 {
        None
    } else if sig_at(d, i, 5, 6) {
        Some(i)
    } else {
        find_eocd(d, i - 1, lo)
    }
}

/// An entry's content by its method: stored as it is, or DEFLATE.
pub open spec fn entry_content(method: int, raw: Seq<u8>) -> Result<Seq<u8>, ZipFault> {
    if method == 0 {
        Ok(raw)
    } else if method == 8 {
        match inflate_spec(raw) {
            Err(e) => Err(ZipFault::Msg(e)),
            Ok(c) => Ok(c),
        }
    } else {
        Err(ZipFault::Msg(msg_method(method)))
    }
}

/// `k` central directory records from `cd` on, each leading to its local
/// header and data.
pub open spec fn entries_spec(d: Seq<u8>, cd: int, k: nat) -> Result<Seq<(Seq<char>, Seq<u8>)>, ZipFault>
    decreases k,
{
    if k == 0 {
        Ok(seq![])
    } else if cd + 46 > d.len() || !sig_at(d, cd, 1, 2) {
        Err(ZipFault::Msg(msg_cd_bad()))
    } else {
        let method = u16_at(d, cd + 10);
        let comp = u32_at(d, cd + 20);
        let nl = u16_at(d, cd + 28);
        let el = u16_at(d, cd + 30);
        let cl = u16_at(d, cd + 32);
        let lho = u32_at(d, cd + 42);
        if cd + 46 + nl > d.len() {
            Err(ZipFault::Slice)
        } else if lho + 30 > d.len() || !sig_at(d, lho, 3, 4) {
            Err(ZipFault::Msg(msg_local_bad()))
        } else {
            let ds = lho + 30 + u16_at(d, lho + 26) + u16_at(d, lho + 28);
            if ds + comp > d.len() {
                Err(ZipFault::Slice)
            } else {
                let name = lossy_text(d.subrange(cd + 46, cd + 46 + nl));
                match entry_content(method, d.subrange(ds, ds + comp)) {
                    Err(e) => Err(e),
                    Ok(c) => match entries_spec(d, cd + 46 + nl + el + cl, (k - 1) as nat) {
                        Err(e) => Err(e),
                        Ok(rest) => Ok(seq![(name, c)] + rest),
                    },
                }
            }
        }
    }
}

/// Reading an archive: the end record is searched backwards over the last
/// 65557 bytes, then its central directory is read entry by entry.
pub open spec fn parse_zip_spec(d: Seq<u8>) -> Result<Seq<(Seq<char>, Seq<u8>)>, ZipFault> {
    if d.len() < 22 {
        Err(ZipFault::Msg(msg_too_small()))
    } else {
        let lo = if d.len() > 65557 { d.len() - 65557 } else { 0 };
        match find_eocd(d, d.len() - 22, lo) {
            None => Err(ZipFault::Msg(msg_no_eocd())),
            Some(e) => entries_spec(d, u32_at(d, e + 16), u16_at(d, e + 10) as nat),
        }
    }
}

/// An error in exec code.
enum ScanErr {
    Msg(String),
    Slice,
}

spec fn scan_rel(r: Result<Vec<(String, Vec<u8>)>, ScanErr>, s: Result<Seq<(Seq<char>, Seq<u8>)>, ZipFault>) -> bool {
    match s {
        Ok(fs) => r matches Ok(v) && files_view(v@) == fs,
        Err(ZipFault::Msg(m)) => r matches Err(ScanErr::Msg(x)) && x@ == m,
        Err(ZipFault::Slice) => r matches Err(ScanErr::Slice),
    }
}

fn rd16(d: &[u8], o: u64) -> (r: u64)
    requires
        o + 2 <= d@.len(),
    ensures
        r == u16_at(d@, o as int),
{
    let i = o as usize;
    d[i] as u64 + 256 * (d[i + 1] as u64)
}

fn rd32(d: &[u8], o: u64) -> (r: u64)
    requires
        o + 4 <= d@.len(),
    ensures
        r == u32_at(d@, o as int),
{
    let i = o as usize;
    d[i] as u64 + 256 * (d[i + 1] as u64) + 65536 * (d[i + 2] as u64) + 16777216 * (d[i + 3] as u64)
}

fn sig(d: &[u8], o: u64, x: u8, y: u8) -> (r: bool)
    requires
        o + 4 <= d@.len(),
    ensures
        r == sig_at(d@, o as int, x, y),
{
    let i = o as usize;
    d[i] == 0x50 && d[i + 1] == 0x4b && d[i + 2] == x && d[i + 3] == y
}

fn slice_vec(d: &[u8], a: usize, b: usize) -> (v: Vec<u8>)
    requires
        a <= b <= d@.len(),
    ensures
        v@ == d@.subrange(a as int, b as int),
{
    let mut v: Vec<u8> = Vec::new();
    let mut i: usize = a;
    while i < b
        invariant
            a <= i <= b,
            b <= d@.len(),
            v@ == d@.subrange(a as int, i as int),
        decreases b - i,
    {
        v.push(d[i]);
        i = i + 1;
        assert(v@ =~= d@.subrange(a as int, i as int));
    }
    v
}

fn method_msg(m: u64) -> (s: String)
    ensures
        s@ == msg_method(m as int),
{
    let mut s = "ज़िप: असमर्थित संपीडन विधि ".to_owned();
    let ds = decimal(m);
    let t = chars_to_string(ds.as_slice());
    push_str(&mut s, t.as_str());
    s
}

fn entry_data(method: u64, raw: &[u8]) -> (r: Result<Vec<u8>, ScanErr>)
    requires
        raw@.len() + 65540 < usize::MAX,
    ensures
        match entry_content(method as int, raw@) {
            Ok(c) => r matches Ok(v) && v@ == c,
            Err(ZipFault::Msg(m)) => r matches Err(ScanErr::Msg(x)) && x@ == m,
            Err(ZipFault::Slice) => false,
        },
{
    if method == 0 {
        let v = slice_vec(raw, 0, raw.len());
        assert(raw@.subrange(0, raw@.len() as int) =~= raw@);
        Ok(v)
    } else if method == 8 {
        match inflate(raw) {
            Ok(v) => Ok(v),
            Err(e) => Err(ScanErr::Msg(e)),
        }
    } else {
        Err(ScanErr::Msg(method_msg(method)))
    }
}

/// Reads the archive (see `parse_zip_spec`), reporting where the reading
/// would slice past the end.
fn zip_scan(data: &[u8]) -> (r: Result<Vec<(String, Vec<u8>)>, ScanErr>)
    requires
        data@.len() + 65540 < usize::MAX,
    ensures
        scan_rel(r, parse_zip_spec(data@)),
{
    let ghost d = data@;
    let n = data.len();
    if n < 22 {
        return Err(ScanErr::Msg("ज़िप: फ़ाइल बहुत छोटी".to_owned()));
    }
    let lo = if n > 65557 { n - 65557 } else { 0 };
    let mut i = n - 22;
    let mut found: Option<usize> = None;
    let ghost want = find_eocd(d, (n - 22) as int, lo as int);
    loop
        invariant_except_break
            found is None,
        invariant
            d == data@,
            n == d.len(),
            n >= 22,
            lo <= n - 22,
            i <= n - 22,
            i + 1 >= lo,
            want == find_eocd(d, (n - 22) as int, lo as int),
            find_eocd(d, i as int, lo as int) == want || (i + 1 == lo && want is None),
        ensures
            want == match found {
                Some(e) => Some(e as int),
                None => None::<int>,
            },
            found matches Some(e) ==> e <= n - 22,
        decreases i + 1 - lo,
    {
        if i < lo {
            break;
        }
        if sig(data, i as u64, 0x05, 0x06) {
            found = Some(i);
            break;
        }
        if i == 0 {
            assert(find_eocd(d, -1, lo as int) is None);
            break;
        }
        i = i - 1;
    }
    let e = match found {
        None => {
            return Err(ScanErr::Msg("ज़िप: EOCD नहीं मिला (अमान्य ज़िप)".to_owned()));
        },
        Some(e) => e,
    };
    let count = rd16(data, (e + 10) as u64);
    let mut cd = rd32(data, (e + 16) as u64);
    let ghost total = entries_spec(d, cd as int, count as nat);
    let mut entries: Vec<(String, Vec<u8>)> = Vec::new();
    let mut k: u64 = 0;
    proof {
        match total {
            Ok(x) => {
                assert(files_view(entries@) + x =~= x);
            },
            Err(_) => {},
        }
    }
    while k < count
        invariant
            d == data@,
            n == d.len(),
            n + 65540 < usize::MAX,
            k <= count,
            count < 65536,
            cd <= 0x1_0000_0000 + k * 0x40000,
            total == parse_zip_spec(d),
            match entries_spec(d, cd as int, (count - k) as nat) {
                Ok(rest) => total == Ok::<Seq<(Seq<char>, Seq<u8>)>, ZipFault>(files_view(entries@) + rest),
                Err(f) => total == Err::<Seq<(Seq<char>, Seq<u8>)>, ZipFault>(f),
            },
        decreases count - k,
    {
        let nn = n as u64;
        if cd + 46 > nn || !sig(data, cd, 0x01, 0x02) {
            return Err(ScanErr::Msg("ज़िप: central directory भ्रष्ट".to_owned()));
        }
        let method = rd16(data, cd + 10);
        let comp = rd32(data, cd + 20);
        let name_len = rd16(data, cd + 28);
        let extra_len = rd16(data, cd + 30);
        let comment_len = rd16(data, cd + 32);
        let lho = rd32(data, cd + 42);
        if cd + 46 + name_len > nn {
            return Err(ScanErr::Slice);
        }
        if lho + 30 > nn || !sig(data, lho, 0x03, 0x04) {
            return Err(ScanErr::Msg("ज़िप: local header भ्रष्ट".to_owned()));
        }
        let l_name = rd16(data, lho + 26);
        let l_extra = rd16(data, lho + 28);
        let data_start = lho + 30 + l_name + l_extra;
        if data_start + comp > nn {
            return Err(ScanErr::Slice);
        }
        let name = string_from_utf8_lossy(&data[(cd + 46) as usize..(cd + 46 + name_len) as usize]);
        let content = match entry_data(method, &data[data_start as usize..(data_start + comp) as usize]) {
            Ok(c) => c,
            Err(e) => {
                return Err(e);
            },
        };
        let ghost before = files_view(entries@);
        entries.push((name, content));
        proof {
            assert(files_view(entries@) =~= before + seq![(name@, content@)]);
            match entries_spec(d, (cd + 46 + name_len + extra_len + comment_len) as int, (count - k - 1) as nat) {
                Ok(rest) => {
                    assert(before + (seq![(name@, content@)] + rest) =~= files_view(entries@) + rest);
                },
                Err(_) => {},
            }
        }
        cd = cd + 46 + name_len + extra_len + comment_len;
        k = k + 1;
    }
    proof {
        assert(files_view(entries@) + seq![] =~= files_view(entries@));
    }
    Ok(entries)
}

/// Reads an archive: each entry's name and content (see `parse_zip_spec`).
/// It is called only on archives whose records lie within the data
/// (`zip_in_range`).
pub fn parse_zip(data: &[u8]) -> (r: Result<Vec<(String, Vec<u8>)>, String>)
    requires
        data@.len() + 65540 < usize::MAX,
        !(parse_zip_spec(data@) matches Err(ZipFault::Slice)),
    ensures
        match parse_zip_spec(data@) {
            Ok(fs) => r matches Ok(v) && files_view(v@) == fs,
            Err(ZipFault::Msg(m)) => r matches Err(x) && x@ == m,
            Err(ZipFault::Slice) => false,
        },
{
    match zip_scan(data) {
        Ok(v) => Ok(v),
        Err(ScanErr::Msg(m)) => Err(m),
        Err(ScanErr::Slice) => Err(String::new()),
    }
}

/// Whether reading the archive stays within its data (every name and
/// content it points at lies inside).
pub fn zip_in_range(data: &[u8]) -> (b: bool)
    requires
        data@.len() + 65540 < usize::MAX,
    ensures
        b == !(parse_zip_spec(data@) matches Err(ZipFault::Slice)),
{
    match zip_scan(data) {
        Err(ScanErr::Slice) => false,
        _ => true,
    }
}

// ── Writing then reading ─────────────────────────────────────────────────────

proof fn lemma_le16(x: int)
    requires
        0 <= x < 65536,
    ensures
        b0(x) + 256 * b1(x) == x,
{
    assert(x % 256 + 256 * ((x / 256) % 256) == x) by (nonlinear_arith)
        requires
            0 <= x < 65536,
    ;
}

proof fn lemma_le32(x: int)
    requires
        0 <= x < 0x1_0000_0000,
    ensures
        b0(x) + 256 * b1(x) + 65536 * b2(x) + 16777216 * b3(x) == x,
{
    assert(x % 256 + 256 * ((x / 256) % 256) + 65536 * ((x / 65536) % 256) + 16777216 * ((x / 16777216) % 256) == x)
        by (nonlinear_arith)
        requires
            0 <= x < 0x1_0000_0000,
    ;
}

/// `r` sits at `a` in `big` when `q + r` (with `q` of length `a`) is a prefix of it.
proof fn lemma_at(big: Seq<u8>, q: Seq<u8>, r: Seq<u8>)
    requires
        (q + r).len() <= big.len(),
        big.subrange(0, (q + r).len() as int) == q + r,
    ensures
        big.subrange(q.len() as int, (q.len() + r.len()) as int) == r,
{
    let n = (q + r).len() as int;
    assert forall|k: int| 0 <= k < r.len() implies big[q.len() + k] == r[k] by {
        assert((q + r)[q.len() + k] == r[k]);
        assert(big.subrange(0, n)[q.len() + k] == big[q.len() + k]);
    }
    assert(big.subrange(q.len() as int, (q.len() + r.len()) as int) =~= r);
}

proof fn lemma_locals_prefix(es: Seq<(Seq<u8>, Seq<u8>)>, j: int, m: int)
    requires
        0 <= j <= m <= es.len(),
    ensures
        locals(es.take(j)).len() <= locals(es.take(m)).len(),
        locals(es.take(m)).subrange(0, locals(es.take(j)).len() as int) == locals(es.take(j)),
    decreases m - j,
{
    if j < m {
        lemma_locals_prefix(es, j, m - 1);
        assert(es.take(m).drop_last() =~= es.take(m - 1));
        let a = locals(es.take(j));
        let b = locals(es.take(m - 1));
        let c = locals(es.take(m));
        assert(c == b + local_record(es.take(m).last().0, es.take(m).last().1));
        assert(c.subrange(0, a.len() as int) =~= b.subrange(0, a.len() as int));
    } else {
        assert(locals(es.take(m)).subrange(0, locals(es.take(m)).len() as int) =~= locals(es.take(m)));
    }
}

proof fn lemma_centrals_prefix(es: Seq<(Seq<u8>, Seq<u8>)>, j: int, m: int)
    requires
        0 <= j <= m <= es.len(),
    ensures
        centrals(es.take(j)).len() <= centrals(es.take(m)).len(),
        centrals(es.take(m)).subrange(0, centrals(es.take(j)).len() as int) == centrals(es.take(j)),
    decreases m - j,
{
    if j < m {
        lemma_centrals_prefix(es, j, m - 1);
        assert(es.take(m).drop_last() =~= es.take(m - 1));
        let a = centrals(es.take(j));
        let b = centrals(es.take(m - 1));
        let c = centrals(es.take(m));
        assert(c.subrange(0, a.len() as int) =~= b.subrange(0, a.len() as int));
    } else {
        assert(centrals(es.take(m)).subrange(0, centrals(es.take(m)).len() as int) =~= centrals(es.take(m)));
    }
}

/// Entry `j`'s local record and central record, where they sit in the archive.
proof fn lemma_records(es: Seq<(Seq<u8>, Seq<u8>)>, j: int)
    requires
        0 <= j < es.len(),
    ensures
        ({
            let d = zip_bytes(es);
            let off = locals(es.take(j)).len() as int;
            let cpos = (locals(es).len() + centrals(es.take(j)).len()) as int;
            let lr = local_record(es[j].0, es[j].1);
            let cr = central_record(es[j].0, es[j].1, off);
            &&& off + lr.len() <= locals(es).len()
            &&& d.subrange(off, off + lr.len()) == lr
            &&& cpos + cr.len() <= locals(es).len() + centrals(es).len()
            &&& d.subrange(cpos, cpos + cr.len()) == cr
            &&& centrals(es.take(j + 1)).len() == centrals(es.take(j)).len() + cr.len()
        }),
{
    let d = zip_bytes(es);
    reveal(zip_bytes);
    let ll = locals(es);
    let cc = centrals(es);
    let off = locals(es.take(j)).len() as int;
    let lr = local_record(es[j].0, es[j].1);
    let cr = central_record(es[j].0, es[j].1, off);
    assert(es.take(j + 1).drop_last() =~= es.take(j));
    assert(es.take(j + 1).last() == es[j]);
    assert(es.take(es.len() as int) =~= es);
    lemma_locals_prefix(es, j + 1, es.len() as int);
    lemma_centrals_prefix(es, j + 1, es.len() as int);
    let lp = locals(es.take(j + 1));
    assert(lp == locals(es.take(j)) + lr);
    assert(d.subrange(0, lp.len() as int) =~= ll.subrange(0, lp.len() as int));
    lemma_at(d, locals(es.take(j)), lr);
    let cp = centrals(es.take(j + 1));
    assert(cp == centrals(es.take(j)) + cr);
    let pre = ll + centrals(es.take(j));
    assert(d.subrange(0, (pre + cr).len() as int) =~= pre + cr) by {
        assert forall|k: int| 0 <= k < (pre + cr).len() implies d[k] == (pre + cr)[k] by {
            if k >= ll.len() {
                assert(cc.subrange(0, cp.len() as int)[k - ll.len()] == cp[k - ll.len()]);
            }
        }
    }
    lemma_at(d, pre, cr);
}

/// The archive's end record.
proof fn lemma_end(es: Seq<(Seq<u8>, Seq<u8>)>)
    ensures
        ({
            let d = zip_bytes(es);
            let e = (d.len() - 22) as int;
            let er = eocd_record(es.len() as int, centrals(es).len() as int, locals(es).len() as int);
            &&& e == locals(es).len() + centrals(es).len()
            &&& d.subrange(e, e + 22) == er
        }),
{
    reveal(zip_bytes);
    reveal(eocd_record);
    let d = zip_bytes(es);
    let er = eocd_record(es.len() as int, centrals(es).len() as int, locals(es).len() as int);
    let e = (locals(es).len() + centrals(es).len()) as int;
    assert(d.len() == e + 22);
    assert(d.subrange(e, e + 22) =~= er);
}

proof fn lemma_central_fields(d: Seq<u8>, cpos: int, nb: Seq<u8>, c: Seq<u8>, off: int)
    requires
        0 <= cpos,
        cpos + central_record(nb, c, off).len() <= d.len(),
        d.subrange(cpos, cpos + central_record(nb, c, off).len()) == central_record(nb, c, off),
        nb.len() < 65536,
        c.len() < 0x1_0000_0000,
        0 <= off < 0x1_0000_0000,
    ensures
        sig_at(d, cpos, 1, 2),
        u16_at(d, cpos + 10) == 0,
        u32_at(d, cpos + 20) == c.len(),
        u16_at(d, cpos + 28) == nb.len(),
        u16_at(d, cpos + 30) == 0,
        u16_at(d, cpos + 32) == 0,
        u32_at(d, cpos + 42) == off,
        d.subrange(cpos + 46, cpos + 46 + nb.len()) == nb,
{
    let cr = central_record(nb, c, off);
    lemma_le16(nb.len() as int);
    lemma_le16(0);
    lemma_le32(c.len() as int);
    lemma_le32(off);
    assert forall|k: int| 0 <= k < cr.len() implies d[cpos + k] == cr[k] by {
        assert(d.subrange(cpos, cpos + cr.len())[k] == cr[k]);
    }
    let h = central_header(nb.len() as int, c.len() as int, crc32_spec(c) as int, off);
    reveal(central_header);
    assert(d[cpos + 0] == cr[0] && cr[0] == h[0]);
    assert(d[cpos + 1] == cr[1] && cr[1] == h[1]);
    assert(d[cpos + 2] == cr[2] && cr[2] == h[2]);
    assert(d[cpos + 3] == cr[3] && cr[3] == h[3]);
    assert(d[cpos + 10] == cr[10] && cr[10] == h[10]);
    assert(d[cpos + 11] == cr[11] && cr[11] == h[11]);
    assert(d[cpos + 20] == cr[20] && cr[20] == h[20]);
    assert(d[cpos + 21] == cr[21] && cr[21] == h[21]);
    assert(d[cpos + 22] == cr[22] && cr[22] == h[22]);
    assert(d[cpos + 23] == cr[23] && cr[23] == h[23]);
    assert(d[cpos + 28] == cr[28] && cr[28] == h[28]);
    assert(d[cpos + 29] == cr[29] && cr[29] == h[29]);
    assert(d[cpos + 30] == cr[30] && cr[30] == h[30]);
    assert(d[cpos + 31] == cr[31] && cr[31] == h[31]);
    assert(d[cpos + 32] == cr[32] && cr[32] == h[32]);
    assert(d[cpos + 33] == cr[33] && cr[33] == h[33]);
    assert(d[cpos + 42] == cr[42] && cr[42] == h[42]);
    assert(d[cpos + 43] == cr[43] && cr[43] == h[43]);
    assert(d[cpos + 44] == cr[44] && cr[44] == h[44]);
    assert(d[cpos + 45] == cr[45] && cr[45] == h[45]);
    assert(d.subrange(cpos + 46, cpos + 46 + nb.len()) =~= nb) by {
        assert forall|k: int| 0 <= k < nb.len() implies d[cpos + 46 + k] == nb[k] by {
            assert(d[cpos + 46 + k] == cr[46 + k]);
        }
    }
}

proof fn lemma_local_fields(d: Seq<u8>, off: int, nb: Seq<u8>, c: Seq<u8>)
    requires
        0 <= off,
        off + local_record(nb, c).len() <= d.len(),
        d.subrange(off, off + local_record(nb, c).len()) == local_record(nb, c),
        nb.len() < 65536,
    ensures
        sig_at(d, off, 3, 4),
        u16_at(d, off + 26) == nb.len(),
        u16_at(d, off + 28) == 0,
        d.subrange(off + 30 + nb.len(), off + 30 + nb.len() + c.len()) == c,
{
    let lr = local_record(nb, c);
    lemma_le16(nb.len() as int);
    lemma_le16(0);
    assert forall|k: int| 0 <= k < lr.len() implies d[off + k] == lr[k] by {
        assert(d.subrange(off, off + lr.len())[k] == lr[k]);
    }
    let h = local_header(nb.len() as int, c.len() as int, crc32_spec(c) as int);
    reveal(local_header);
    assert(d[off + 0] == lr[0] && lr[0] == h[0]);
    assert(d[off + 1] == lr[1] && lr[1] == h[1]);
    assert(d[off + 2] == lr[2] && lr[2] == h[2]);
    assert(d[off + 3] == lr[3] && lr[3] == h[3]);
    assert(d[off + 26] == lr[26] && lr[26] == h[26]);
    assert(d[off + 27] == lr[27] && lr[27] == h[27]);
    assert(d[off + 28] == lr[28] && lr[28] == h[28]);
    assert(d[off + 29] == lr[29] && lr[29] == h[29]);
    let ds = off + 30 + nb.len();
    assert(d.subrange(ds, ds + c.len()) =~= c) by {
        assert forall|k: int| 0 <= k < c.len() implies d[ds + k] == c[k] by {
            assert(d[off + 30 + nb.len() + k] == lr[30 + nb.len() + k]);
        }
    }
}

/// Entry `(nb, c)`'s central record at `cpos`, pointing at its local record at `off`.
#[verifier::opaque]
pub open spec fn entry_at(d: Seq<u8>, cpos: int, off: int, nb: Seq<u8>, c: Seq<u8>) -> bool {
    &&& 0 <= cpos
    &&& 0 <= off
    &&& cpos + 46 + nb.len() <= d.len()
    &&& off + 30 + nb.len() + c.len() <= d.len()
    &&& sig_at(d, cpos, 1, 2)
    &&& u16_at(d, cpos + 10) == 0
    &&& u32_at(d, cpos + 20) == c.len()
    &&& u16_at(d, cpos + 28) == nb.len()
    &&& u16_at(d, cpos + 30) == 0
    &&& u16_at(d, cpos + 32) == 0
    &&& u32_at(d, cpos + 42) == off
    &&& d.subrange(cpos + 46, cpos + 46 + nb.len()) == nb
    &&& sig_at(d, off, 3, 4)
    &&& u16_at(d, off + 26) == nb.len()
    &&& u16_at(d, off + 28) == 0
    &&& d.subrange(off + 30 + nb.len(), off + 30 + nb.len() + c.len()) == c
}

proof fn lemma_entry_step(d: Seq<u8>, cpos: int, off: int, nb: Seq<u8>, c: Seq<u8>, k: nat, rest: Seq<(Seq<char>, Seq<u8>)>)
    requires
        k > 0,
        entry_at(d, cpos, off, nb, c),
        entries_spec(d, cpos + 46 + nb.len(), (k - 1) as nat) == Ok::<Seq<(Seq<char>, Seq<u8>)>, ZipFault>(rest),
    ensures
        entries_spec(d, cpos, k) == Ok::<Seq<(Seq<char>, Seq<u8>)>, ZipFault>(seq![(lossy_text(nb), c)] + rest),
{
    reveal(entry_at);
}

/// Where entry `j` of a written archive sits, and where the next central record begins.
proof fn lemma_entry_at(es: Seq<(Seq<u8>, Seq<u8>)>, j: int)
    requires
        0 <= j < es.len(),
        es[j].0.len() < 65536,
        zip_bytes(es).len() < 0x1_0000_0000,
    ensures
        entry_at(
            zip_bytes(es),
            (locals(es).len() + centrals(es.take(j)).len()) as int,
            locals(es.take(j)).len() as int,
            es[j].0,
            es[j].1,
        ),
        centrals(es.take(j + 1)).len() == centrals(es.take(j)).len() + 46 + es[j].0.len(),
{
    let d = zip_bytes(es);
    lemma_records(es, j);
    lemma_end(es);
    let nb = es[j].0;
    let c = es[j].1;
    let off = locals(es.take(j)).len() as int;
    let cpos = (locals(es).len() + centrals(es.take(j)).len()) as int;
    lemma_header_lens(nb.len() as int, c.len() as int, crc32_spec(c) as int, off);
    lemma_central_fields(d, cpos, nb, c, off);
    lemma_local_fields(d, off, nb, c);
    reveal(entry_at);
}

proof fn lemma_header_lens(nlen: int, size: int, crc: int, off: int)
    ensures
        local_header(nlen, size, crc).len() == 30,
        central_header(nlen, size, crc, off).len() == 46,
{
    reveal(local_header);
    reveal(central_header);
}

proof fn lemma_walk(es: Seq<(Seq<u8>, Seq<u8>)>, out: Seq<(Seq<char>, Seq<u8>)>, j: int)
    requires
        0 <= j <= es.len(),
        out.len() == es.len(),
        forall|i: int| 0 <= i < es.len() ==> (#[trigger] es[i]).0.len() < 65536 && lossy_text(es[i].0) == out[i].0
            && es[i].1 == out[i].1,
        zip_bytes(es).len() < 0x1_0000_0000,
    ensures
        entries_spec(
            zip_bytes(es),
            (locals(es).len() + centrals(es.take(j)).len()) as int,
            (es.len() - j) as nat,
        ) == Ok::<Seq<(Seq<char>, Seq<u8>)>, ZipFault>(out.subrange(j, out.len() as int)),
    decreases es.len() - j,
{
    if j == es.len() {
        assert(out.subrange(j, out.len() as int) =~= Seq::<(Seq<char>, Seq<u8>)>::empty());
    } else {
        lemma_walk(es, out, j + 1);
        lemma_entry_at(es, j);
        let d = zip_bytes(es);
        let cpos = (locals(es).len() + centrals(es.take(j)).len()) as int;
        let off = locals(es.take(j)).len() as int;
        lemma_entry_step(d, cpos, off, es[j].0, es[j].1, (es.len() - j) as nat, out.subrange(j + 1, out.len() as int));
        assert(seq![(lossy_text(es[j].0), es[j].1)] + out.subrange(j + 1, out.len() as int) =~= out.subrange(j, out.len() as int));
    }
}

/// Reading back an archive written by `build_zip` gives the same entries,
/// names and contents, in the same order — whenever the entry count, the
/// name lengths, the sizes and the offsets fit the format's 16- and 32-bit
/// fields.
pub proof fn law_zip_roundtrip(fs: Seq<(Seq<char>, Seq<u8>)>)
    requires
        fs.len() < 65536,
        forall|i: int| 0 <= i < fs.len() ==> encode_utf8(#[trigger] fs[i].0).len() < 65536,
        zip_spec(fs).len() < 0x1_0000_0000,
    ensures
        parse_zip_spec(zip_spec(fs)) == Ok::<Seq<(Seq<char>, Seq<u8>)>, ZipFault>(fs),
{
    let es = raw_entries(fs);
    let d = zip_spec(fs);
    lemma_end(es);
    let e = (d.len() - 22) as int;
    let er = eocd_record(es.len() as int, centrals(es).len() as int, locals(es).len() as int);
    reveal(eocd_record);
    assert forall|k: int| 0 <= k < 22 implies d[e + k] == er[k] by {
        assert(d.subrange(e, e + 22)[k] == er[k]);
    }
    assert(sig_at(d, e, 5, 6));
    lemma_le16(fs.len() as int);
    lemma_le32(locals(es).len() as int);
    assert(u16_at(d, e + 10) == fs.len());
    assert(u32_at(d, e + 16) == locals(es).len());
    assert forall|i: int| 0 <= i < es.len() implies (#[trigger] es[i]).0.len() < 65536 && lossy_text(es[i].0) == fs[i].0
        && es[i].1 == fs[i].1 by {
        assert(es[i] == (encode_utf8(fs[i].0), fs[i].1));
    }
    lemma_walk(es, fs, 0);
    assert(centrals(es.take(0)) =~= Seq::<u8>::empty()) by {
        assert(es.take(0) =~= Seq::<(Seq<u8>, Seq<u8>)>::empty());
    }
    assert(fs.subrange(0, fs.len() as int) =~= fs);
}

} // verus!
