//! LIPI bytecode format (`.libc`): the byte-level encoding of instructions,
//! values and whole programs, with its decoder.
//!
//! File format
//!   [0..4]  b"LIPI"          — magic
//!   [4]     u8 version       — 5 is written; 2..=5 are read
//!   u32 LE                   — function count, then per function:
//!     str name, u8 param count, str per param,
//!     (v3+) per param: u8 flag (1 = default value follows, PUSH-tagged),
//!     u8 vararg flag (+ str name if 1), u64 LE start ip,
//!     (v5) u8 generator flag
//!   (v3+) u32 LE class-parent count, then child/parent str pairs
//!   u32 LE                   — instruction count, then each instruction
//!   (v4+) u32 LE source line per instruction
//! A `str` is a u32 LE byte length followed by the UTF-8 bytes.

use vstd::prelude::*;
use vstd::utf8::*;
use crate::name_table::{NameTable, sorted_insert, sorted_names, name_lt, lemma_insert_greatest};
use crate::opcode::{
    LvmValue, ValModel, FuncDef, FuncModel, Opcode, OpModel, strs_view, vars_view, opt_str_view,
    opt_val_view, defaults_view, CompiledProgram, ProgModel,
};

verus! {

broadcast use {encode_utf8_valid_utf8, encode_utf8_decode_utf8};

// ── Primitive encodings ──────────────────────────────────────────────────────

pub open spec fn le32(v: u32) -> Seq<u8> {
    seq![
        (v & 0xff) as u8,
        ((v >> 8u32) & 0xff) as u8,
        ((v >> 16u32) & 0xff) as u8,
        ((v >> 24u32) & 0xff) as u8,
    ]
}

pub open spec fn from_le32(b0: u8, b1: u8, b2: u8, b3: u8) -> u32 {
    (b0 as u32) | ((b1 as u32) << 8u32) | ((b2 as u32) << 16u32) | ((b3 as u32) << 24u32)
}

pub open spec fn le64(v: u64) -> Seq<u8> {
    seq![
        (v & 0xff) as u8,
        ((v >> 8u64) & 0xff) as u8,
        ((v >> 16u64) & 0xff) as u8,
        ((v >> 24u64) & 0xff) as u8,
        ((v >> 32u64) & 0xff) as u8,
        ((v >> 40u64) & 0xff) as u8,
        ((v >> 48u64) & 0xff) as u8,
        ((v >> 56u64) & 0xff) as u8,
    ]
}

pub open spec fn from_le64(b: Seq<u8>) -> u64 {
    (b[0] as u64) | ((b[1] as u64) << 8u64) | ((b[2] as u64) << 16u64) | ((b[3] as u64)
        << 24u64) | ((b[4] as u64) << 32u64) | ((b[5] as u64) << 40u64) | ((b[6] as u64)
        << 48u64) | ((b[7] as u64) << 56u64)
}

/// A string: u32 LE byte length (truncated to 32 bits), then its UTF-8 bytes.
pub open spec fn enc_str(s: Seq<char>) -> Seq<u8> {
    le32(encode_utf8(s).len() as u32) + encode_utf8(s)
}

pub open spec fn enc_bool(b: bool) -> u8 {
    if b {
        1
    } else {
        0
    }
}

pub open spec fn enc_strs(v: Seq<Seq<char>>) -> Seq<u8>
    decreases v.len(),
{
    if v.len() == 0 {
        Seq::empty()
    } else {
        enc_strs(v.drop_last()) + enc_str(v.last())
    }
}

pub open spec fn enc_vars(v: Seq<(Seq<char>, usize)>) -> Seq<u8>
    decreases v.len(),
{
    if v.len() == 0 {
        Seq::empty()
    } else {
        enc_vars(v.drop_last()) + enc_str(v.last().0) + le32(v.last().1 as u32)
    }
}

pub open spec fn enc_flags(v: Seq<bool>) -> Seq<u8>
    decreases v.len(),
{
    if v.len() == 0 {
        Seq::empty()
    } else {
        enc_flags(v.drop_last()).push(enc_bool(v.last()))
    }
}

/// `Push` constants and parameter defaults share one tagged encoding.
pub open spec fn enc_val(v: ValModel) -> Seq<u8> {
    match v {
        ValModel::Nil => seq![0x00u8],
        ValModel::Bool(false) => seq![0x01u8],
        ValModel::Bool(true) => seq![0x02u8],
        ValModel::Number(bits) => seq![0x03u8] + le64(bits),
        ValModel::Str(s) => seq![0x04u8] + enc_str(s),
    }
}

// ── Primitive decoders (as the reader sees bytes at a position) ─────────────

pub open spec fn dec_u8(d: Seq<u8>, p: int) -> Option<(u8, int)> {
    if 0 <= p < d.len() {
        Some((d[p], p + 1))
    } else {
        None
    }
}

pub open spec fn dec_u32(d: Seq<u8>, p: int) -> Option<(u32, int)> {
    if 0 <= p && p + 4 <= d.len() {
        Some((from_le32(d[p], d[p + 1], d[p + 2], d[p + 3]), p + 4))
    } else {
        None
    }
}

pub open spec fn dec_u64(d: Seq<u8>, p: int) -> Option<(u64, int)> {
    if 0 <= p && p + 8 <= d.len() {
        Some((from_le64(d.subrange(p, p + 8)), p + 8))
    } else {
        None
    }
}

pub open spec fn dec_str(d: Seq<u8>, p: int) -> Option<(Seq<char>, int)> {
    match dec_u32(d, p) {
        Some((n, p1)) => if p1 + n <= d.len() && valid_utf8(d.subrange(p1, p1 + n)) {
            Some((decode_utf8(d.subrange(p1, p1 + n)), p1 + n))
        } else {
            None
        },
        None => None,
    }
}

pub open spec fn dec_strs(d: Seq<u8>, p: int, n: nat) -> Option<(Seq<Seq<char>>, int)>
    decreases n,
{
    if n == 0 {
        Some((Seq::empty(), p))
    } else {
        match dec_strs(d, p, (n - 1) as nat) {
            Some((v, p1)) => match dec_str(d, p1) {
                Some((s, p2)) => Some((v.push(s), p2)),
                None => None,
            },
            None => None,
        }
    }
}

pub open spec fn dec_vars(d: Seq<u8>, p: int, n: nat) -> Option<(Seq<(Seq<char>, usize)>, int)>
    decreases n,
{
    if n == 0 {
        Some((Seq::empty(), p))
    } else {
        match dec_vars(d, p, (n - 1) as nat) {
            Some((v, p1)) => match dec_str(d, p1) {
                Some((s, p2)) => match dec_u32(d, p2) {
                    Some((a, p3)) => Some((v.push((s, a as usize)), p3)),
                    None => None,
                },
                None => None,
            },
            None => None,
        }
    }
}

pub open spec fn dec_flags(d: Seq<u8>, p: int, n: nat) -> Option<(Seq<bool>, int)>
    decreases n,
{
    if n == 0 {
        Some((Seq::empty(), p))
    } else {
        match dec_flags(d, p, (n - 1) as nat) {
            Some((v, p1)) => match dec_u8(d, p1) {
                Some((b, p2)) => Some((v.push(b != 0), p2)),
                None => None,
            },
            None => None,
        }
    }
}

pub open spec fn dec_val(d: Seq<u8>, p: int) -> Option<(ValModel, int)> {
    match dec_u8(d, p) {
        Some((tag, p1)) => if tag == 0 {
            Some((ValModel::Nil, p1))
        } else if tag == 1 {
            Some((ValModel::Bool(false), p1))
        } else if tag == 2 {
            Some((ValModel::Bool(true), p1))
        } else if tag == 3 {
            match dec_u64(d, p1) {
                Some((b, p2)) => Some((ValModel::Number(b), p2)),
                None => None,
            }
        } else if tag == 4 {
            match dec_str(d, p1) {
                Some((s, p2)) => Some((ValModel::Str(s), p2)),
                None => None,
            }
        } else {
            None
        },
        None => None,
    }
}

// ── Byte-level lemmas ────────────────────────────────────────────────────────

pub proof fn lemma_le32_roundtrip(v: u32)
    ensures
        from_le32(le32(v)[0], le32(v)[1], le32(v)[2], le32(v)[3]) == v,
        le32(v).len() == 4,
{
    assert(from_le32(
        (v & 0xff) as u8,
        ((v >> 8u32) & 0xff) as u8,
        ((v >> 16u32) & 0xff) as u8,
        ((v >> 24u32) & 0xff) as u8,
    ) == v) by (bit_vector);
}

pub proof fn lemma_le64_roundtrip(v: u64)
    ensures
        from_le64(le64(v)) == v,
        le64(v).len() == 8,
{
    let b = le64(v);
    assert((((v & 0xff) as u8) as u64) | (((((v >> 8u64) & 0xff) as u8) as u64) << 8u64) | ((
    (((v >> 16u64) & 0xff) as u8) as u64) << 16u64) | (((((v >> 24u64) & 0xff) as u8) as u64)
        << 24u64) | (((((v >> 32u64) & 0xff) as u8) as u64) << 32u64) | (((((v >> 40u64)
        & 0xff) as u8) as u64) << 40u64) | (((((v >> 48u64) & 0xff) as u8) as u64) << 48u64)
        | (((((v >> 56u64) & 0xff) as u8) as u64) << 56u64) == v) by (bit_vector);
}

/// Reading a u32 where one was written gives it back.
pub proof fn lemma_dec_u32_le32(d: Seq<u8>, p: int, v: u32)
    requires
        0 <= p,
        p + 4 <= d.len(),
        d.subrange(p, p + 4) == le32(v),
    ensures
        dec_u32(d, p) == Some((v, p + 4)),
{
    lemma_le32_roundtrip(v);
    assert(d[p] == d.subrange(p, p + 4)[0]);
    assert(d[p + 1] == d.subrange(p, p + 4)[1]);
    assert(d[p + 2] == d.subrange(p, p + 4)[2]);
    assert(d[p + 3] == d.subrange(p, p + 4)[3]);
}

/// Reading a string where one was written gives it back (if its UTF-8 length fits 32 bits).
pub proof fn lemma_dec_str_enc(d: Seq<u8>, p: int, s: Seq<char>)
    requires
        0 <= p,
        p + enc_str(s).len() <= d.len(),
        d.subrange(p, p + enc_str(s).len()) == enc_str(s),
        encode_utf8(s).len() <= u32::MAX,
    ensures
        dec_str(d, p) == Some((s, p + enc_str(s).len())),
{
    let e = encode_utf8(s);
    let n = e.len() as u32;
    assert(d.subrange(p, p + 4) =~= d.subrange(p, p + enc_str(s).len()).subrange(0, 4));
    assert(enc_str(s).subrange(0, 4) =~= le32(n));
    lemma_dec_u32_le32(d, p, n);
    assert(d.subrange(p + 4, p + 4 + n) =~= d.subrange(p, p + enc_str(s).len()).subrange(
        4,
        4 + n as int,
    ));
    assert(enc_str(s).subrange(4, 4 + n as int) =~= e);
}


// ── Exec primitives ──────────────────────────────────────────────────────────

/// The UTF-8 decoding of `v` (std `String::from_utf8`), or `None` when `v` is
/// not valid UTF-8. Trusted: std accepts exactly the well-formed UTF-8 byte
/// sequences (`valid_utf8`) and then holds the decoded characters.
#[verifier::external_body]
pub(crate) fn string_from_utf8(v: Vec<u8>) -> (r: Option<String>)
    ensures
        r is Some <==> valid_utf8(v@),
        r matches Some(s) ==> s@ == decode_utf8(v@),
{
    String::from_utf8(v).ok()
}

fn write_u8(buf: &mut Vec<u8>, v: u8)
    ensures
        final(buf)@ == old(buf)@.push(v),
{
    buf.push(v);
}

fn write_u32(buf: &mut Vec<u8>, v: u32)
    ensures
        final(buf)@ == old(buf)@ + le32(v),
{
    buf.push((v & 0xff) as u8);
    buf.push(((v >> 8u32) & 0xff) as u8);
    buf.push(((v >> 16u32) & 0xff) as u8);
    buf.push(((v >> 24u32) & 0xff) as u8);
    assert(buf@ =~= old(buf)@ + le32(v));
}

fn write_u64(buf: &mut Vec<u8>, v: u64)
    ensures
        final(buf)@ == old(buf)@ + le64(v),
{
    buf.push((v & 0xff) as u8);
    buf.push(((v >> 8u64) & 0xff) as u8);
    buf.push(((v >> 16u64) & 0xff) as u8);
    buf.push(((v >> 24u64) & 0xff) as u8);
    buf.push(((v >> 32u64) & 0xff) as u8);
    buf.push(((v >> 40u64) & 0xff) as u8);
    buf.push(((v >> 48u64) & 0xff) as u8);
    buf.push(((v >> 56u64) & 0xff) as u8);
    assert(buf@ =~= old(buf)@ + le64(v));
}

fn push_bytes(buf: &mut Vec<u8>, b: &[u8])
    ensures
        final(buf)@ == old(buf)@ + b@,
{
    let ghost start = buf@;
    let mut i: usize = 0;
    while i < b.len()
        invariant
            i <= b@.len(),
            buf@ == start + b@.subrange(0, i as int),
        decreases b.len() - i,
    {
        buf.push(b[i]);
        i = i + 1;
        assert(buf@ =~= start + b@.subrange(0, i as int));
    }
    assert(b@ =~= b@.subrange(0, i as int));
}

fn write_str(buf: &mut Vec<u8>, s: &str)
    ensures
        final(buf)@ == old(buf)@ + enc_str(s@),
{
    let bytes = s.as_bytes();
    write_u32(buf, bytes.len() as u32);
    push_bytes(buf, bytes);
    assert(buf@ =~= old(buf)@ + enc_str(s@));
}

fn write_strs(buf: &mut Vec<u8>, v: &Vec<String>)
    ensures
        final(buf)@ == old(buf)@ + enc_strs(strs_view(v@)),
{
    let ghost start = buf@;
    let mut i: usize = 0;
    while i < v.len()
        invariant
            i <= v@.len(),
            buf@ == start + enc_strs(strs_view(v@.subrange(0, i as int))),
        decreases v.len() - i,
    {
        write_str(buf, v[i].as_str());
        i = i + 1;
        assert(strs_view(v@.subrange(0, i as int)).drop_last() =~= strs_view(
            v@.subrange(0, i - 1),
        ));
        assert(buf@ =~= start + enc_strs(strs_view(v@.subrange(0, i as int))));
    }
    assert(v@ =~= v@.subrange(0, i as int));
}

fn write_vars(buf: &mut Vec<u8>, v: &Vec<(String, usize)>)
    ensures
        final(buf)@ == old(buf)@ + enc_vars(vars_view(v@)),
{
    let ghost start = buf@;
    let mut i: usize = 0;
    while i < v.len()
        invariant
            i <= v@.len(),
            buf@ == start + enc_vars(vars_view(v@.subrange(0, i as int))),
        decreases v.len() - i,
    {
        write_str(buf, v[i].0.as_str());
        write_u32(buf, v[i].1 as u32);
        i = i + 1;
        assert(vars_view(v@.subrange(0, i as int)).drop_last() =~= vars_view(
            v@.subrange(0, i - 1),
        ));
        assert(buf@ =~= start + enc_vars(vars_view(v@.subrange(0, i as int))));
    }
    assert(v@ =~= v@.subrange(0, i as int));
}

fn write_flags(buf: &mut Vec<u8>, v: &Vec<bool>)
    ensures
        final(buf)@ == old(buf)@ + enc_flags(v@),
{
    let ghost start = buf@;
    let mut i: usize = 0;
    while i < v.len()
        invariant
            i <= v@.len(),
            buf@ == start + enc_flags(v@.subrange(0, i as int)),
        decreases v.len() - i,
    {
        write_u8(buf, if v[i] { 1 } else { 0 });
        i = i + 1;
        assert(v@.subrange(0, i as int).drop_last() =~= v@.subrange(0, i - 1));
        assert(buf@ =~= start + enc_flags(v@.subrange(0, i as int)));
    }
    assert(v@ =~= v@.subrange(0, i as int));
}

fn write_lvm_value(buf: &mut Vec<u8>, v: &LvmValue)
    ensures
        final(buf)@ == old(buf)@ + enc_val(v@),
{
    match v {
        LvmValue::Nil => write_u8(buf, 0x00),
        LvmValue::Bool(false) => write_u8(buf, 0x01),
        LvmValue::Bool(true) => write_u8(buf, 0x02),
        LvmValue::Number(n) => {
            write_u8(buf, 0x03);
            write_u64(buf, *n);
        },
        LvmValue::Str(s) => {
            write_u8(buf, 0x04);
            write_str(buf, s.as_str());
        },
    }
    assert(buf@ =~= old(buf)@ + enc_val(v@));
}

fn read_u8(data: &[u8], pos: &mut usize) -> (r: Result<u8, String>)
    requires
        *old(pos) <= data@.len(),
    ensures
        *final(pos) <= data@.len(),
        match (r, dec_u8(data@, *old(pos) as int)) {
            (Ok(v), Some((w, p))) => v == w && *final(pos) == p,
            (Err(_), None) => true,
            _ => false,
        },
{
    if *pos < data.len() {
        let v = data[*pos];
        *pos = *pos + 1;
        Ok(v)
    } else {
        Err("bytecode अपूर्ण (u8 read)".to_owned())
    }
}

fn read_u32(data: &[u8], pos: &mut usize) -> (r: Result<u32, String>)
    requires
        *old(pos) <= data@.len(),
    ensures
        *final(pos) <= data@.len(),
        match (r, dec_u32(data@, *old(pos) as int)) {
            (Ok(v), Some((w, p))) => v == w && *final(pos) == p,
            (Err(_), None) => true,
            _ => false,
        },
{
    if data.len() - *pos < 4 {
        return Err("bytecode अपूर्ण (u32 read)".to_owned());
    }
    let p = *pos;
    let v = (data[p] as u32) | ((data[p + 1] as u32) << 8u32) | ((data[p + 2] as u32) << 16u32)
        | ((data[p + 3] as u32) << 24u32);
    *pos = p + 4;
    Ok(v)
}

fn read_u64(data: &[u8], pos: &mut usize) -> (r: Result<u64, String>)
    requires
        *old(pos) <= data@.len(),
    ensures
        *final(pos) <= data@.len(),
        match (r, dec_u64(data@, *old(pos) as int)) {
            (Ok(v), Some((w, p))) => v == w && *final(pos) == p,
            (Err(_), None) => true,
            _ => false,
        },
{
    if data.len() - *pos < 8 {
        return Err("bytecode अपूर्ण (u64 read)".to_owned());
    }
    let p = *pos;
    let ghost b = data@.subrange(p as int, p + 8);
    assert(b[0] == data@[p as int] && b[1] == data@[p + 1] && b[2] == data@[p + 2] && b[3]
        == data@[p + 3] && b[4] == data@[p + 4] && b[5] == data@[p + 5] && b[6] == data@[p + 6]
        && b[7] == data@[p + 7]);
    let v = (data[p] as u64) | ((data[p + 1] as u64) << 8u64) | ((data[p + 2] as u64) << 16u64)
        | ((data[p + 3] as u64) << 24u64) | ((data[p + 4] as u64) << 32u64) | ((data[p + 5] as u64)
        << 40u64) | ((data[p + 6] as u64) << 48u64) | ((data[p + 7] as u64) << 56u64);
    *pos = p + 8;
    Ok(v)
}

fn read_str(data: &[u8], pos: &mut usize) -> (r: Result<String, String>)
    requires
        *old(pos) <= data@.len(),
    ensures
        *final(pos) <= data@.len(),
        match (r, dec_str(data@, *old(pos) as int)) {
            (Ok(v), Some((w, p))) => v@ == w && *final(pos) == p,
            (Err(_), None) => true,
            _ => false,
        },
{
    let len = read_u32(data, pos)?;
    let len = len as usize;
    if data.len() - *pos < len {
        return Err("bytecode अपूर्ण (str read)".to_owned());
    }
    let p = *pos;
    let bytes = vstd::slice::slice_to_vec(vstd::slice::slice_subrange(data, p, p + len));
    assert(bytes@ == data@.subrange(p as int, p + len));
    match string_from_utf8(bytes) {
        Some(s) => {
            *pos = p + len;
            Ok(s)
        },
        None => Err("invalid UTF-8 in bytecode".to_owned()),
    }
}

fn read_strs(data: &[u8], pos: &mut usize, n: usize) -> (r: Result<Vec<String>, String>)
    requires
        *old(pos) <= data@.len(),
    ensures
        *final(pos) <= data@.len(),
        match (r, dec_strs(data@, *old(pos) as int, n as nat)) {
            (Ok(v), Some((w, p))) => strs_view(v@) == w && *final(pos) == p,
            (Err(_), None) => true,
            _ => false,
        },
{
    let mut v: Vec<String> = Vec::new();
    let mut i: usize = 0;
    while i < n
        invariant
            i <= n,
            *pos <= data@.len(),
            dec_strs(data@, *old(pos) as int, i as nat) == Some((strs_view(v@), *pos as int)),
        decreases n - i,
    {
        let ghost before = *pos;
        match read_str(data, pos) {
            Ok(s) => {
                v.push(s);
                i = i + 1;
                assert(strs_view(v@) =~= strs_view(v@.drop_last()).push(v@.last()@));
            },
            Err(e) => {
                proof {
                    lemma_dec_strs_fail_later(data@, *old(pos) as int, i as nat, n as nat);
                }
                return Err(e);
            },
        }
    }
    Ok(v)
}

proof fn lemma_dec_strs_fail_later(d: Seq<u8>, p: int, i: nat, n: nat)
    requires
        i < n,
        dec_strs(d, p, i) matches Some((_, q)) && dec_str(d, q) is None,
    ensures
        dec_strs(d, p, n) is None,
    decreases n - i,
{
    if i + 1 < n {
        lemma_dec_strs_fail_later(d, p, i, (n - 1) as nat);
    }
}

fn read_vars(data: &[u8], pos: &mut usize, n: usize) -> (r: Result<Vec<(String, usize)>, String>)
    requires
        *old(pos) <= data@.len(),
    ensures
        *final(pos) <= data@.len(),
        match (r, dec_vars(data@, *old(pos) as int, n as nat)) {
            (Ok(v), Some((w, p))) => vars_view(v@) == w && *final(pos) == p,
            (Err(_), None) => true,
            _ => false,
        },
{
    let mut v: Vec<(String, usize)> = Vec::new();
    let mut i: usize = 0;
    while i < n
        invariant
            i <= n,
            *pos <= data@.len(),
            dec_vars(data@, *old(pos) as int, i as nat) == Some((vars_view(v@), *pos as int)),
        decreases n - i,
    {
        let ghost before = *pos;
        let s = match read_str(data, pos) {
            Ok(s) => s,
            Err(e) => {
                proof {
                    lemma_dec_vars_fail_later(data@, *old(pos) as int, i as nat, n as nat);
                }
                return Err(e);
            },
        };
        let a = match read_u32(data, pos) {
            Ok(a) => a,
            Err(e) => {
                proof {
                    lemma_dec_vars_fail_later(data@, *old(pos) as int, i as nat, n as nat);
                }
                return Err(e);
            },
        };
        v.push((s, a as usize));
        i = i + 1;
        assert(vars_view(v@) =~= vars_view(v@.drop_last()).push((v@.last().0@, v@.last().1)));
    }
    Ok(v)
}

proof fn lemma_dec_vars_fail_later(d: Seq<u8>, p: int, i: nat, n: nat)
    requires
        i < n,
        dec_vars(d, p, i) matches Some((_, q)) && (dec_str(d, q) is None || dec_u32(
            d,
            dec_str(d, q).unwrap().1,
        ) is None),
    ensures
        dec_vars(d, p, n) is None,
    decreases n - i,
{
    if i + 1 < n {
        lemma_dec_vars_fail_later(d, p, i, (n - 1) as nat);
    }
}

fn read_flags(data: &[u8], pos: &mut usize, n: usize) -> (r: Result<Vec<bool>, String>)
    requires
        *old(pos) <= data@.len(),
    ensures
        *final(pos) <= data@.len(),
        match (r, dec_flags(data@, *old(pos) as int, n as nat)) {
            (Ok(v), Some((w, p))) => v@ == w && *final(pos) == p,
            (Err(_), None) => true,
            _ => false,
        },
{
    let mut v: Vec<bool> = Vec::new();
    let mut i: usize = 0;
    while i < n
        invariant
            i <= n,
            *pos <= data@.len(),
            dec_flags(data@, *old(pos) as int, i as nat) == Some((v@, *pos as int)),
        decreases n - i,
    {
        match read_u8(data, pos) {
            Ok(b) => {
                v.push(b != 0);
                i = i + 1;
            },
            Err(e) => {
                proof {
                    lemma_dec_flags_fail_later(data@, *old(pos) as int, i as nat, n as nat);
                }
                return Err(e);
            },
        }
    }
    Ok(v)
}

proof fn lemma_dec_flags_fail_later(d: Seq<u8>, p: int, i: nat, n: nat)
    requires
        i < n,
        dec_flags(d, p, i) matches Some((_, q)) && dec_u8(d, q) is None,
    ensures
        dec_flags(d, p, n) is None,
    decreases n - i,
{
    if i + 1 < n {
        lemma_dec_flags_fail_later(d, p, i, (n - 1) as nat);
    }
}

fn read_lvm_value(data: &[u8], pos: &mut usize) -> (r: Result<LvmValue, String>)
    requires
        *old(pos) <= data@.len(),
    ensures
        *final(pos) <= data@.len(),
        match (r, dec_val(data@, *old(pos) as int)) {
            (Ok(v), Some((w, p))) => v@ == w && *final(pos) == p,
            (Err(_), None) => true,
            _ => false,
        },
{
    let tag = read_u8(data, pos)?;
    if tag == 0 {
        Ok(LvmValue::Nil)
    } else if tag == 1 {
        Ok(LvmValue::Bool(false))
    } else if tag == 2 {
        Ok(LvmValue::Bool(true))
    } else if tag == 3 {
        Ok(LvmValue::Number(read_u64(data, pos)?))
    } else if tag == 4 {
        Ok(LvmValue::Str(read_str(data, pos)?))
    } else {
        Err(tag_message("अमान्य डिफ़ॉल्ट मान tag", tag))
    }
}


/// The uppercase hexadecimal digit of a value below 16.
pub open spec fn upper_hex_digit(d: u8) -> char {
    if d < 10 { (48 + d) as char } else { (55 + d) as char }
}

/// `what` followed by `0x` and the byte in two uppercase hexadecimal digits.
fn tag_message(what: &str, b: u8) -> (r: String)
    ensures
        r@ == what@ + ": 0x"@ + seq![upper_hex_digit(b / 16), upper_hex_digit(b % 16)],
{
    let hi = b / 16;
    let lo = b % 16;
    let mut r = what.to_owned();
    crate::text::push_str(&mut r, ": 0x");
    crate::text::push_char(&mut r, if hi < 10 { ((48u8) + hi) as char } else { ((55u8) + hi) as char });
    crate::text::push_char(&mut r, if lo < 10 { ((48u8) + lo) as char } else { ((55u8) + lo) as char });
    r
}

/// `what` followed by `: ` and the number in decimal.
fn number_message(what: &str, n: u8) -> (r: String)
    ensures
        r@ == what@ + ": "@ + crate::text::decimal_spec(n as nat),
{
    let mut r = what.to_owned();
    crate::text::push_str(&mut r, ": ");
    let d = crate::text::decimal(n as u64);
    crate::text::push_chars(&mut r, d.as_slice(), 0, d.len());
    r
}

/// Optional string: flag byte 1 and the string, or flag byte 0.
pub open spec fn enc_opt_str(o: Option<Seq<char>>) -> Seq<u8> {
    match o {
        Some(s) => seq![1u8] + enc_str(s),
        None => seq![0u8],
    }
}

/// The bytes written for one instruction: its tag byte, then its operands.
/// Counts written as one byte (argument counts, list lengths) keep their low
/// 8 bits; counts and addresses written as u32 keep their low 32 bits.
pub open spec fn enc_op(op: OpModel) -> Seq<u8> {
    match op {
        OpModel::Push(v) => enc_val(v),
        OpModel::Pop => seq![0x05u8],
        OpModel::Dup => seq![0x06u8],
        OpModel::LoadVar(s) => seq![0x07u8] + enc_str(s),
        OpModel::StoreVar(s) => seq![0x08u8] + enc_str(s),
        OpModel::Add => seq![0x09u8],
        OpModel::Sub => seq![0x0au8],
        OpModel::Mul => seq![0x0bu8],
        OpModel::Div => seq![0x0cu8],
        OpModel::Mod => seq![0x0du8],
        OpModel::Eq => seq![0x0eu8],
        OpModel::NotEq => seq![0x0fu8],
        OpModel::Gt => seq![0x10u8],
        OpModel::Lt => seq![0x11u8],
        OpModel::GtEq => seq![0x12u8],
        OpModel::LtEq => seq![0x13u8],
        OpModel::And => seq![0x14u8],
        OpModel::Or => seq![0x15u8],
        OpModel::Not => seq![0x16u8],
        OpModel::Jump(a) => seq![0x17u8] + le32(a as u32),
        OpModel::JumpIfFalse(a) => seq![0x18u8] + le32(a as u32),
        OpModel::JumpIfTrue(a) => seq![0x19u8] + le32(a as u32),
        OpModel::Call(n, c) => seq![0x1au8] + enc_str(n) + seq![c as u8],
        OpModel::CallNative(n, c) => seq![0x1bu8] + enc_str(n) + seq![c as u8],
        OpModel::Return => seq![0x1cu8],
        OpModel::Print => seq![0x1du8],
        OpModel::KarakaCheck(a, b) => seq![0x1eu8] + enc_str(a) + enc_str(b),
        OpModel::Import(s) => seq![0x1fu8] + enc_str(s),
        OpModel::AadhaarVerify => seq![0x20u8],
        OpModel::UpiSend => seq![0x21u8],
        OpModel::GstAdd => seq![0x22u8],
        OpModel::LakhParse => seq![0x23u8],
        OpModel::RupeeFormat => seq![0x24u8],
        OpModel::MethodCall(n, c) => seq![0x25u8] + enc_str(n) + seq![c as u8],
        OpModel::MakeList(n) => seq![0x26u8] + le32(n as u32),
        OpModel::MakeDict(n) => seq![0x27u8] + le32(n as u32),
        OpModel::GetIndex => seq![0x28u8],
        OpModel::SetIndex => seq![0x29u8],
        OpModel::MakeInstance(s) => seq![0x2au8] + enc_str(s),
        OpModel::GetAttr(s) => seq![0x2bu8] + enc_str(s),
        OpModel::SetAttr(s) => seq![0x2cu8] + enc_str(s),
        OpModel::PrintInline => seq![0x2du8],
        OpModel::TryStart(a) => seq![0x2eu8] + le32(a as u32),
        OpModel::TryEnd => seq![0x2fu8],
        OpModel::ImportFile(s) => seq![0x30u8] + enc_str(s),
        OpModel::MakeClosure(s) => seq![0x31u8] + enc_str(s),
        OpModel::GetIterLen => seq![0x32u8],
        OpModel::GetIterItem => seq![0x33u8],
        OpModel::BitAnd => seq![0x34u8],
        OpModel::BitOr => seq![0x35u8],
        OpModel::BitXor => seq![0x36u8],
        OpModel::BitNot => seq![0x37u8],
        OpModel::LShift => seq![0x38u8],
        OpModel::RShift => seq![0x39u8],
        OpModel::DeclareGlobal(s) => seq![0x3au8] + enc_str(s),
        OpModel::DefineEnum(n, v) => seq![0x3bu8] + enc_str(n) + le32(v.len() as u32) + enc_vars(v),
        OpModel::MatchVariant(s) => seq![0x3cu8] + enc_str(s),
        OpModel::EnumUnpack(v) => seq![0x3du8] + le32(v.len() as u32) + enc_strs(v),
        OpModel::TailCall(n, c) => seq![0x3eu8] + enc_str(n) + seq![c as u8],
        OpModel::Assert(m) => seq![0x3fu8] + enc_opt_str(m),
        OpModel::DeclareConst(s) => seq![0x40u8] + enc_str(s),
        OpModel::CallKw(n, c, k) => seq![0x41u8] + enc_str(n) + seq![c as u8] + seq![k.len() as u8] + enc_strs(k),
        OpModel::FloorDiv => seq![0x42u8],
        OpModel::UnpackList(n) => seq![0x43u8] + seq![n as u8],
        OpModel::Slice => seq![0x44u8],
        OpModel::Contains => seq![0x45u8],
        OpModel::MakeListSp(f) => seq![0x46u8] + seq![f.len() as u8] + enc_flags(f),
        OpModel::Throw => seq![0x47u8],
        OpModel::MatchErrClass(s) => seq![0x48u8] + enc_str(s),
        OpModel::IterNext(a, b) => seq![0x49u8] + enc_str(a) + enc_str(b),
        OpModel::Yield => seq![0x4au8],
        OpModel::IterStep { loop_var, container_var, idx_var } => seq![0x4bu8] + enc_str(loop_var) + enc_str(container_var) + enc_str(idx_var),
        OpModel::MethodCallKw { method, pos_argc, kwnames } => seq![0x4cu8] + enc_str(method) + seq![pos_argc as u8] + seq![kwnames.len() as u8] + enc_strs(kwnames),
        OpModel::SetSlice => seq![0x4du8],
    }
}

/// Instructions the encoder refuses: a jump target that does not fit in 32 bits.
pub open spec fn addr_overflow(op: OpModel) -> bool {
    match op {
        OpModel::Jump(a) | OpModel::JumpIfFalse(a) | OpModel::JumpIfTrue(a) => a > u32::MAX,
        _ => false,
    }
}

/// The tag byte the encoder writes first.
pub open spec fn op_tag(op: OpModel) -> u8 {
    enc_op(op)[0]
}

pub open spec fn dec_opt_str(d: Seq<u8>, p: int) -> Option<(Option<Seq<char>>, int)> {
    match dec_u8(d, p) {
        Some((h, p1)) => if h == 1 {
            match dec_str(d, p1) {
                Some((s, p2)) => Some((Some(s), p2)),
                None => None,
            }
        } else {
            Some((None, p1))
        },
        None => None,
    }
}

/// What the reader makes of the bytes after an instruction's tag byte.
pub open spec fn dec_op_body(tag: u8, d: Seq<u8>, p: int) -> Option<(OpModel, int)> {
    if tag == 0x05 {
        Some((OpModel::Pop, p))
    } else if tag == 0x06 {
        Some((OpModel::Dup, p))
    } else if tag == 0x07 {
        match dec_str(d, p) { Some((x0, q0)) => Some((OpModel::LoadVar(x0), q0)), None => None }
    } else if tag == 0x08 {
        match dec_str(d, p) { Some((x0, q0)) => Some((OpModel::StoreVar(x0), q0)), None => None }
    } else if tag == 0x09 {
        Some((OpModel::Add, p))
    } else if tag == 0x0a {
        Some((OpModel::Sub, p))
    } else if tag == 0x0b {
        Some((OpModel::Mul, p))
    } else if tag == 0x0c {
        Some((OpModel::Div, p))
    } else if tag == 0x0d {
        Some((OpModel::Mod, p))
    } else if tag == 0x0e {
        Some((OpModel::Eq, p))
    } else if tag == 0x0f {
        Some((OpModel::NotEq, p))
    } else if tag == 0x10 {
        Some((OpModel::Gt, p))
    } else if tag == 0x11 {
        Some((OpModel::Lt, p))
    } else if tag == 0x12 {
        Some((OpModel::GtEq, p))
    } else if tag == 0x13 {
        Some((OpModel::LtEq, p))
    } else if tag == 0x14 {
        Some((OpModel::And, p))
    } else if tag == 0x15 {
        Some((OpModel::Or, p))
    } else if tag == 0x16 {
        Some((OpModel::Not, p))
    } else if tag == 0x17 {
        match dec_u32(d, p) { Some((x0, q0)) => Some((OpModel::Jump((x0 as usize)), q0)), None => None }
    } else if tag == 0x18 {
        match dec_u32(d, p) { Some((x0, q0)) => Some((OpModel::JumpIfFalse((x0 as usize)), q0)), None => None }
    } else if tag == 0x19 {
        match dec_u32(d, p) { Some((x0, q0)) => Some((OpModel::JumpIfTrue((x0 as usize)), q0)), None => None }
    } else if tag == 0x1a {
        match dec_str(d, p) { Some((x0, q0)) => match dec_u8(d, q0) { Some((x1, q1)) => Some((OpModel::Call(x0, (x1 as usize)), q1)), None => None }, None => None }
    } else if tag == 0x1b {
        match dec_str(d, p) { Some((x0, q0)) => match dec_u8(d, q0) { Some((x1, q1)) => Some((OpModel::CallNative(x0, (x1 as usize)), q1)), None => None }, None => None }
    } else if tag == 0x1c {
        Some((OpModel::Return, p))
    } else if tag == 0x1d {
        Some((OpModel::Print, p))
    } else if tag == 0x1e {
        match dec_str(d, p) { Some((x0, q0)) => match dec_str(d, q0) { Some((x1, q1)) => Some((OpModel::KarakaCheck(x0, x1), q1)), None => None }, None => None }
    } else if tag == 0x1f {
        match dec_str(d, p) { Some((x0, q0)) => Some((OpModel::Import(x0), q0)), None => None }
    } else if tag == 0x20 {
        Some((OpModel::AadhaarVerify, p))
    } else if tag == 0x21 {
        Some((OpModel::UpiSend, p))
    } else if tag == 0x22 {
        Some((OpModel::GstAdd, p))
    } else if tag == 0x23 {
        Some((OpModel::LakhParse, p))
    } else if tag == 0x24 {
        Some((OpModel::RupeeFormat, p))
    } else if tag == 0x25 {
        match dec_str(d, p) { Some((x0, q0)) => match dec_u8(d, q0) { Some((x1, q1)) => Some((OpModel::MethodCall(x0, (x1 as usize)), q1)), None => None }, None => None }
    } else if tag == 0x26 {
        match dec_u32(d, p) { Some((x0, q0)) => Some((OpModel::MakeList((x0 as usize)), q0)), None => None }
    } else if tag == 0x27 {
        match dec_u32(d, p) { Some((x0, q0)) => Some((OpModel::MakeDict((x0 as usize)), q0)), None => None }
    } else if tag == 0x28 {
        Some((OpModel::GetIndex, p))
    } else if tag == 0x29 {
        Some((OpModel::SetIndex, p))
    } else if tag == 0x2a {
        match dec_str(d, p) { Some((x0, q0)) => Some((OpModel::MakeInstance(x0), q0)), None => None }
    } else if tag == 0x2b {
        match dec_str(d, p) { Some((x0, q0)) => Some((OpModel::GetAttr(x0), q0)), None => None }
    } else if tag == 0x2c {
        match dec_str(d, p) { Some((x0, q0)) => Some((OpModel::SetAttr(x0), q0)), None => None }
    } else if tag == 0x2d {
        Some((OpModel::PrintInline, p))
    } else if tag == 0x2e {
        match dec_u32(d, p) { Some((x0, q0)) => Some((OpModel::TryStart((x0 as usize)), q0)), None => None }
    } else if tag == 0x2f {
        Some((OpModel::TryEnd, p))
    } else if tag == 0x30 {
        match dec_str(d, p) { Some((x0, q0)) => Some((OpModel::ImportFile(x0), q0)), None => None }
    } else if tag == 0x31 {
        match dec_str(d, p) { Some((x0, q0)) => Some((OpModel::MakeClosure(x0), q0)), None => None }
    } else if tag == 0x32 {
        Some((OpModel::GetIterLen, p))
    } else if tag == 0x33 {
        Some((OpModel::GetIterItem, p))
    } else if tag == 0x34 {
        Some((OpModel::BitAnd, p))
    } else if tag == 0x35 {
        Some((OpModel::BitOr, p))
    } else if tag == 0x36 {
        Some((OpModel::BitXor, p))
    } else if tag == 0x37 {
        Some((OpModel::BitNot, p))
    } else if tag == 0x38 {
        Some((OpModel::LShift, p))
    } else if tag == 0x39 {
        Some((OpModel::RShift, p))
    } else if tag == 0x3a {
        match dec_str(d, p) { Some((x0, q0)) => Some((OpModel::DeclareGlobal(x0), q0)), None => None }
    } else if tag == 0x3b {
        match dec_str(d, p) { Some((x0, q0)) => match dec_u32(d, q0) { Some((c1, r1)) => match dec_vars(d, r1, c1 as nat) { Some((x1, q1)) => Some((OpModel::DefineEnum(x0, x1), q1)), None => None }, None => None }, None => None }
    } else if tag == 0x3c {
        match dec_str(d, p) { Some((x0, q0)) => Some((OpModel::MatchVariant(x0), q0)), None => None }
    } else if tag == 0x3d {
        match dec_u32(d, p) { Some((c0, r0)) => match dec_strs(d, r0, c0 as nat) { Some((x0, q0)) => Some((OpModel::EnumUnpack(x0), q0)), None => None }, None => None }
    } else if tag == 0x3e {
        match dec_str(d, p) { Some((x0, q0)) => match dec_u8(d, q0) { Some((x1, q1)) => Some((OpModel::TailCall(x0, (x1 as usize)), q1)), None => None }, None => None }
    } else if tag == 0x3f {
        match dec_opt_str(d, p) { Some((x0, q0)) => Some((OpModel::Assert(x0), q0)), None => None }
    } else if tag == 0x40 {
        match dec_str(d, p) { Some((x0, q0)) => Some((OpModel::DeclareConst(x0), q0)), None => None }
    } else if tag == 0x41 {
        match dec_str(d, p) { Some((x0, q0)) => match dec_u8(d, q0) { Some((x1, q1)) => match dec_u8(d, q1) { Some((c2, r2)) => match dec_strs(d, r2, c2 as nat) { Some((x2, q2)) => Some((OpModel::CallKw(x0, (x1 as usize), x2), q2)), None => None }, None => None }, None => None }, None => None }
    } else if tag == 0x42 {
        Some((OpModel::FloorDiv, p))
    } else if tag == 0x43 {
        match dec_u8(d, p) { Some((x0, q0)) => Some((OpModel::UnpackList((x0 as usize)), q0)), None => None }
    } else if tag == 0x44 {
        Some((OpModel::Slice, p))
    } else if tag == 0x45 {
        Some((OpModel::Contains, p))
    } else if tag == 0x46 {
        match dec_u8(d, p) { Some((c0, r0)) => match dec_flags(d, r0, c0 as nat) { Some((x0, q0)) => Some((OpModel::MakeListSp(x0), q0)), None => None }, None => None }
    } else if tag == 0x47 {
        Some((OpModel::Throw, p))
    } else if tag == 0x48 {
        match dec_str(d, p) { Some((x0, q0)) => Some((OpModel::MatchErrClass(x0), q0)), None => None }
    } else if tag == 0x49 {
        match dec_str(d, p) { Some((x0, q0)) => match dec_str(d, q0) { Some((x1, q1)) => Some((OpModel::IterNext(x0, x1), q1)), None => None }, None => None }
    } else if tag == 0x4a {
        Some((OpModel::Yield, p))
    } else if tag == 0x4b {
        match dec_str(d, p) { Some((x0, q0)) => match dec_str(d, q0) { Some((x1, q1)) => match dec_str(d, q1) { Some((x2, q2)) => Some((OpModel::IterStep { loop_var: x0, container_var: x1, idx_var: x2 }, q2)), None => None }, None => None }, None => None }
    } else if tag == 0x4c {
        match dec_str(d, p) { Some((x0, q0)) => match dec_u8(d, q0) { Some((x1, q1)) => match dec_u8(d, q1) { Some((c2, r2)) => match dec_strs(d, r2, c2 as nat) { Some((x2, q2)) => Some((OpModel::MethodCallKw { method: x0, pos_argc: (x1 as usize), kwnames: x2 }, q2)), None => None }, None => None }, None => None }, None => None }
    } else if tag == 0x4d {
        Some((OpModel::SetSlice, p))
    } else {
        None
    }
}

/// The instruction the reader decodes at position `p`, and the position after it.
pub open spec fn dec_op(d: Seq<u8>, p: int) -> Option<(OpModel, int)> {
    match dec_u8(d, p) {
        Some((tag, p1)) => if tag <= 4 {
            match dec_val(d, p) {
                Some((v, q)) => Some((OpModel::Push(v), q)),
                None => None,
            }
        } else {
            dec_op_body(tag, d, p1)
        },
        None => None,
    }
}

/// Appends the encoding of one instruction. A jump target beyond `u32::MAX`
/// is refused after the tag byte has been written.
#[verifier::rlimit(100)]
pub fn encode_op(buf: &mut Vec<u8>, op: &Opcode) -> (r: Result<(), String>)
    ensures
        r is Ok <==> !addr_overflow(op@),
        r is Ok ==> final(buf)@ == old(buf)@ + enc_op(op@),
        r is Err ==> final(buf)@ == old(buf)@.push(op_tag(op@)),
{
    match op {
        Opcode::Push(v) => {
            write_lvm_value(buf, v);
            assert(buf@ =~= old(buf)@ + enc_op(op@));
        },
        Opcode::Pop => {
            write_u8(buf, 0x05);
            assert(buf@ =~= old(buf)@ + enc_op(op@));
        },
        Opcode::Dup => {
            write_u8(buf, 0x06);
            assert(buf@ =~= old(buf)@ + enc_op(op@));
        },
        Opcode::LoadVar(s) => {
            write_u8(buf, 0x07);
            write_str(buf, s.as_str());
            assert(buf@ =~= old(buf)@ + enc_op(op@));
        },
        Opcode::StoreVar(s) => {
            write_u8(buf, 0x08);
            write_str(buf, s.as_str());
            assert(buf@ =~= old(buf)@ + enc_op(op@));
        },
        Opcode::Add => {
            write_u8(buf, 0x09);
            assert(buf@ =~= old(buf)@ + enc_op(op@));
        },
        Opcode::Sub => {
            write_u8(buf, 0x0a);
            assert(buf@ =~= old(buf)@ + enc_op(op@));
        },
        Opcode::Mul => {
            write_u8(buf, 0x0b);
            assert(buf@ =~= old(buf)@ + enc_op(op@));
        },
        Opcode::Div => {
            write_u8(buf, 0x0c);
            assert(buf@ =~= old(buf)@ + enc_op(op@));
        },
        Opcode::Mod => {
            write_u8(buf, 0x0d);
            assert(buf@ =~= old(buf)@ + enc_op(op@));
        },
        Opcode::Eq => {
            write_u8(buf, 0x0e);
            assert(buf@ =~= old(buf)@ + enc_op(op@));
        },
        Opcode::NotEq => {
            write_u8(buf, 0x0f);
            assert(buf@ =~= old(buf)@ + enc_op(op@));
        },
        Opcode::Gt => {
            write_u8(buf, 0x10);
            assert(buf@ =~= old(buf)@ + enc_op(op@));
        },
        Opcode::Lt => {
            write_u8(buf, 0x11);
            assert(buf@ =~= old(buf)@ + enc_op(op@));
        },
        Opcode::GtEq => {
            write_u8(buf, 0x12);
            assert(buf@ =~= old(buf)@ + enc_op(op@));
        },
        Opcode::LtEq => {
            write_u8(buf, 0x13);
            assert(buf@ =~= old(buf)@ + enc_op(op@));
        },
        Opcode::And => {
            write_u8(buf, 0x14);
            assert(buf@ =~= old(buf)@ + enc_op(op@));
        },
        Opcode::Or => {
            write_u8(buf, 0x15);
            assert(buf@ =~= old(buf)@ + enc_op(op@));
        },
        Opcode::Not => {
            write_u8(buf, 0x16);
            assert(buf@ =~= old(buf)@ + enc_op(op@));
        },
        Opcode::Jump(a) => {
            write_u8(buf, 0x17);
            let a = match addr32(*a) {
                Ok(a) => a,
                Err(e) => {
                    assert(buf@ =~= old(buf)@.push(op_tag(op@)));
                    return Err(e);
                },
            };
            write_u32(buf, a);
            assert(buf@ =~= old(buf)@ + enc_op(op@));
        },
        Opcode::JumpIfFalse(a) => {
            write_u8(buf, 0x18);
            let a = match addr32(*a) {
                Ok(a) => a,
                Err(e) => {
                    assert(buf@ =~= old(buf)@.push(op_tag(op@)));
                    return Err(e);
                },
            };
            write_u32(buf, a);
            assert(buf@ =~= old(buf)@ + enc_op(op@));
        },
        Opcode::JumpIfTrue(a) => {
            write_u8(buf, 0x19);
            let a = match addr32(*a) {
                Ok(a) => a,
                Err(e) => {
                    assert(buf@ =~= old(buf)@.push(op_tag(op@)));
                    return Err(e);
                },
            };
            write_u32(buf, a);
            assert(buf@ =~= old(buf)@ + enc_op(op@));
        },
        Opcode::Call(n, c) => {
            write_u8(buf, 0x1a);
            write_str(buf, n.as_str());
            write_u8(buf, *c as u8);
            assert(buf@ =~= old(buf)@ + enc_op(op@));
        },
        Opcode::CallNative(n, c) => {
            write_u8(buf, 0x1b);
            write_str(buf, n.as_str());
            write_u8(buf, *c as u8);
            assert(buf@ =~= old(buf)@ + enc_op(op@));
        },
        Opcode::Return => {
            write_u8(buf, 0x1c);
            assert(buf@ =~= old(buf)@ + enc_op(op@));
        },
        Opcode::Print => {
            write_u8(buf, 0x1d);
            assert(buf@ =~= old(buf)@ + enc_op(op@));
        },
        Opcode::KarakaCheck(a, b) => {
            write_u8(buf, 0x1e);
            write_str(buf, a.as_str());
            write_str(buf, b.as_str());
            assert(buf@ =~= old(buf)@ + enc_op(op@));
        },
        Opcode::Import(s) => {
            write_u8(buf, 0x1f);
            write_str(buf, s.as_str());
            assert(buf@ =~= old(buf)@ + enc_op(op@));
        },
        Opcode::AadhaarVerify => {
            write_u8(buf, 0x20);
            assert(buf@ =~= old(buf)@ + enc_op(op@));
        },
        Opcode::UpiSend => {
            write_u8(buf, 0x21);
            assert(buf@ =~= old(buf)@ + enc_op(op@));
        },
        Opcode::GstAdd => {
            write_u8(buf, 0x22);
            assert(buf@ =~= old(buf)@ + enc_op(op@));
        },
        Opcode::LakhParse => {
            write_u8(buf, 0x23);
            assert(buf@ =~= old(buf)@ + enc_op(op@));
        },
        Opcode::RupeeFormat => {
            write_u8(buf, 0x24);
            assert(buf@ =~= old(buf)@ + enc_op(op@));
        },
        Opcode::MethodCall(n, c) => {
            write_u8(buf, 0x25);
            write_str(buf, n.as_str());
            write_u8(buf, *c as u8);
            assert(buf@ =~= old(buf)@ + enc_op(op@));
        },
        Opcode::MakeList(n) => {
            write_u8(buf, 0x26);
            write_u32(buf, *n as u32);
            assert(buf@ =~= old(buf)@ + enc_op(op@));
        },
        Opcode::MakeDict(n) => {
            write_u8(buf, 0x27);
            write_u32(buf, *n as u32);
            assert(buf@ =~= old(buf)@ + enc_op(op@));
        },
        Opcode::GetIndex => {
            write_u8(buf, 0x28);
            assert(buf@ =~= old(buf)@ + enc_op(op@));
        },
        Opcode::SetIndex => {
            write_u8(buf, 0x29);
            assert(buf@ =~= old(buf)@ + enc_op(op@));
        },
        Opcode::MakeInstance(s) => {
            write_u8(buf, 0x2a);
            write_str(buf, s.as_str());
            assert(buf@ =~= old(buf)@ + enc_op(op@));
        },
        Opcode::GetAttr(s) => {
            write_u8(buf, 0x2b);
            write_str(buf, s.as_str());
            assert(buf@ =~= old(buf)@ + enc_op(op@));
        },
        Opcode::SetAttr(s) => {
            write_u8(buf, 0x2c);
            write_str(buf, s.as_str());
            assert(buf@ =~= old(buf)@ + enc_op(op@));
        },
        Opcode::PrintInline => {
            write_u8(buf, 0x2d);
            assert(buf@ =~= old(buf)@ + enc_op(op@));
        },
        Opcode::TryStart(a) => {
            write_u8(buf, 0x2e);
            write_u32(buf, *a as u32);
            assert(buf@ =~= old(buf)@ + enc_op(op@));
        },
        Opcode::TryEnd => {
            write_u8(buf, 0x2f);
            assert(buf@ =~= old(buf)@ + enc_op(op@));
        },
        Opcode::ImportFile(s) => {
            write_u8(buf, 0x30);
            write_str(buf, s.as_str());
            assert(buf@ =~= old(buf)@ + enc_op(op@));
        },
        Opcode::MakeClosure(s) => {
            write_u8(buf, 0x31);
            write_str(buf, s.as_str());
            assert(buf@ =~= old(buf)@ + enc_op(op@));
        },
        Opcode::GetIterLen => {
            write_u8(buf, 0x32);
            assert(buf@ =~= old(buf)@ + enc_op(op@));
        },
        Opcode::GetIterItem => {
            write_u8(buf, 0x33);
            assert(buf@ =~= old(buf)@ + enc_op(op@));
        },
        Opcode::BitAnd => {
            write_u8(buf, 0x34);
            assert(buf@ =~= old(buf)@ + enc_op(op@));
        },
        Opcode::BitOr => {
            write_u8(buf, 0x35);
            assert(buf@ =~= old(buf)@ + enc_op(op@));
        },
        Opcode::BitXor => {
            write_u8(buf, 0x36);
            assert(buf@ =~= old(buf)@ + enc_op(op@));
        },
        Opcode::BitNot => {
            write_u8(buf, 0x37);
            assert(buf@ =~= old(buf)@ + enc_op(op@));
        },
        Opcode::LShift => {
            write_u8(buf, 0x38);
            assert(buf@ =~= old(buf)@ + enc_op(op@));
        },
        Opcode::RShift => {
            write_u8(buf, 0x39);
            assert(buf@ =~= old(buf)@ + enc_op(op@));
        },
        Opcode::DeclareGlobal(s) => {
            write_u8(buf, 0x3a);
            write_str(buf, s.as_str());
            assert(buf@ =~= old(buf)@ + enc_op(op@));
        },
        Opcode::DefineEnum(n, v) => {
            write_u8(buf, 0x3b);
            write_str(buf, n.as_str());
            write_u32(buf, v.len() as u32);
            write_vars(buf, v);
            assert(buf@ =~= old(buf)@ + enc_op(op@));
        },
        Opcode::MatchVariant(s) => {
            write_u8(buf, 0x3c);
            write_str(buf, s.as_str());
            assert(buf@ =~= old(buf)@ + enc_op(op@));
        },
        Opcode::EnumUnpack(v) => {
            write_u8(buf, 0x3d);
            write_u32(buf, v.len() as u32);
            write_strs(buf, v);
            assert(buf@ =~= old(buf)@ + enc_op(op@));
        },
        Opcode::TailCall(n, c) => {
            write_u8(buf, 0x3e);
            write_str(buf, n.as_str());
            write_u8(buf, *c as u8);
            assert(buf@ =~= old(buf)@ + enc_op(op@));
        },
        Opcode::Assert(m) => {
            write_u8(buf, 0x3f);
            match m {
                Some(s) => { write_u8(buf, 1); write_str(buf, s.as_str()); },
                None => { write_u8(buf, 0); },
            }
            assert(buf@ =~= old(buf)@ + enc_op(op@));
        },
        Opcode::DeclareConst(s) => {
            write_u8(buf, 0x40);
            write_str(buf, s.as_str());
            assert(buf@ =~= old(buf)@ + enc_op(op@));
        },
        Opcode::CallKw(n, c, k) => {
            write_u8(buf, 0x41);
            write_str(buf, n.as_str());
            write_u8(buf, *c as u8);
            write_u8(buf, k.len() as u8);
            write_strs(buf, k);
            assert(buf@ =~= old(buf)@ + enc_op(op@));
        },
        Opcode::FloorDiv => {
            write_u8(buf, 0x42);
            assert(buf@ =~= old(buf)@ + enc_op(op@));
        },
        Opcode::UnpackList(n) => {
            write_u8(buf, 0x43);
            write_u8(buf, *n as u8);
            assert(buf@ =~= old(buf)@ + enc_op(op@));
        },
        Opcode::Slice => {
            write_u8(buf, 0x44);
            assert(buf@ =~= old(buf)@ + enc_op(op@));
        },
        Opcode::Contains => {
            write_u8(buf, 0x45);
            assert(buf@ =~= old(buf)@ + enc_op(op@));
        },
        Opcode::MakeListSp(f) => {
            write_u8(buf, 0x46);
            write_u8(buf, f.len() as u8);
            write_flags(buf, f);
            assert(buf@ =~= old(buf)@ + enc_op(op@));
        },
        Opcode::Throw => {
            write_u8(buf, 0x47);
            assert(buf@ =~= old(buf)@ + enc_op(op@));
        },
        Opcode::MatchErrClass(s) => {
            write_u8(buf, 0x48);
            write_str(buf, s.as_str());
            assert(buf@ =~= old(buf)@ + enc_op(op@));
        },
        Opcode::IterNext(a, b) => {
            write_u8(buf, 0x49);
            write_str(buf, a.as_str());
            write_str(buf, b.as_str());
            assert(buf@ =~= old(buf)@ + enc_op(op@));
        },
        Opcode::Yield => {
            write_u8(buf, 0x4a);
            assert(buf@ =~= old(buf)@ + enc_op(op@));
        },
        Opcode::IterStep { loop_var, container_var, idx_var } => {
            write_u8(buf, 0x4b);
            write_str(buf, loop_var.as_str());
            write_str(buf, container_var.as_str());
            write_str(buf, idx_var.as_str());
            assert(buf@ =~= old(buf)@ + enc_op(op@));
        },
        Opcode::MethodCallKw { method, pos_argc, kwnames } => {
            write_u8(buf, 0x4c);
            write_str(buf, method.as_str());
            write_u8(buf, *pos_argc as u8);
            write_u8(buf, kwnames.len() as u8);
            write_strs(buf, kwnames);
            assert(buf@ =~= old(buf)@ + enc_op(op@));
        },
        Opcode::SetSlice => {
            write_u8(buf, 0x4d);
            assert(buf@ =~= old(buf)@ + enc_op(op@));
        },
    }
    Ok(())
}

fn addr32(a: usize) -> (r: Result<u32, String>)
    ensures
        match r {
            Ok(v) => a <= u32::MAX && v == a,
            Err(_) => a > u32::MAX,
        },
{
    if a <= 0xFFFF_FFFFusize {
        Ok(a as u32)
    } else {
        Err("jump address > u32::MAX".to_owned())
    }
}

/// Decodes the instruction body for a tag above the `Push` tags.
#[verifier::rlimit(60)]
fn decode_op_body(tag: u8, data: &[u8], pos: &mut usize) -> (r: Result<Opcode, String>)
    requires
        *old(pos) <= data@.len(),
    ensures
        *final(pos) <= data@.len(),
        match (r, dec_op_body(tag, data@, *old(pos) as int)) {
            (Ok(op), Some((m, p))) => op@ == m && *final(pos) == p,
            (Err(_), None) => true,
            _ => false,
        },
{
    Ok(
    if tag == 0x05 {
        Opcode::Pop
    } else if tag == 0x06 {
        Opcode::Dup
    } else if tag == 0x07 {
        let x0 = read_str(data, pos)?;
        Opcode::LoadVar(x0)
    } else if tag == 0x08 {
        let x0 = read_str(data, pos)?;
        Opcode::StoreVar(x0)
    } else if tag == 0x09 {
        Opcode::Add
    } else if tag == 0x0a {
        Opcode::Sub
    } else if tag == 0x0b {
        Opcode::Mul
    } else if tag == 0x0c {
        Opcode::Div
    } else if tag == 0x0d {
        Opcode::Mod
    } else if tag == 0x0e {
        Opcode::Eq
    } else if tag == 0x0f {
        Opcode::NotEq
    } else if tag == 0x10 {
        Opcode::Gt
    } else if tag == 0x11 {
        Opcode::Lt
    } else if tag == 0x12 {
        Opcode::GtEq
    } else if tag == 0x13 {
        Opcode::LtEq
    } else if tag == 0x14 {
        Opcode::And
    } else if tag == 0x15 {
        Opcode::Or
    } else if tag == 0x16 {
        Opcode::Not
    } else if tag == 0x17 {
        let x0 = read_u32(data, pos)? as usize;
        Opcode::Jump(x0)
    } else if tag == 0x18 {
        let x0 = read_u32(data, pos)? as usize;
        Opcode::JumpIfFalse(x0)
    } else if tag == 0x19 {
        let x0 = read_u32(data, pos)? as usize;
        Opcode::JumpIfTrue(x0)
    } else if tag == 0x1a {
        let x0 = read_str(data, pos)?;
        let x1 = read_u8(data, pos)? as usize;
        Opcode::Call(x0, x1)
    } else if tag == 0x1b {
        let x0 = read_str(data, pos)?;
        let x1 = read_u8(data, pos)? as usize;
        Opcode::CallNative(x0, x1)
    } else if tag == 0x1c {
        Opcode::Return
    } else if tag == 0x1d {
        Opcode::Print
    } else if tag == 0x1e {
        let x0 = read_str(data, pos)?;
        let x1 = read_str(data, pos)?;
        Opcode::KarakaCheck(x0, x1)
    } else if tag == 0x1f {
        let x0 = read_str(data, pos)?;
        Opcode::Import(x0)
    } else if tag == 0x20 {
        Opcode::AadhaarVerify
    } else if tag == 0x21 {
        Opcode::UpiSend
    } else if tag == 0x22 {
        Opcode::GstAdd
    } else if tag == 0x23 {
        Opcode::LakhParse
    } else if tag == 0x24 {
        Opcode::RupeeFormat
    } else if tag == 0x25 {
        let x0 = read_str(data, pos)?;
        let x1 = read_u8(data, pos)? as usize;
        Opcode::MethodCall(x0, x1)
    } else if tag == 0x26 {
        let x0 = read_u32(data, pos)? as usize;
        Opcode::MakeList(x0)
    } else if tag == 0x27 {
        let x0 = read_u32(data, pos)? as usize;
        Opcode::MakeDict(x0)
    } else if tag == 0x28 {
        Opcode::GetIndex
    } else if tag == 0x29 {
        Opcode::SetIndex
    } else if tag == 0x2a {
        let x0 = read_str(data, pos)?;
        Opcode::MakeInstance(x0)
    } else if tag == 0x2b {
        let x0 = read_str(data, pos)?;
        Opcode::GetAttr(x0)
    } else if tag == 0x2c {
        let x0 = read_str(data, pos)?;
        Opcode::SetAttr(x0)
    } else if tag == 0x2d {
        Opcode::PrintInline
    } else if tag == 0x2e {
        let x0 = read_u32(data, pos)? as usize;
        Opcode::TryStart(x0)
    } else if tag == 0x2f {
        Opcode::TryEnd
    } else if tag == 0x30 {
        let x0 = read_str(data, pos)?;
        Opcode::ImportFile(x0)
    } else if tag == 0x31 {
        let x0 = read_str(data, pos)?;
        Opcode::MakeClosure(x0)
    } else if tag == 0x32 {
        Opcode::GetIterLen
    } else if tag == 0x33 {
        Opcode::GetIterItem
    } else if tag == 0x34 {
        Opcode::BitAnd
    } else if tag == 0x35 {
        Opcode::BitOr
    } else if tag == 0x36 {
        Opcode::BitXor
    } else if tag == 0x37 {
        Opcode::BitNot
    } else if tag == 0x38 {
        Opcode::LShift
    } else if tag == 0x39 {
        Opcode::RShift
    } else if tag == 0x3a {
        let x0 = read_str(data, pos)?;
        Opcode::DeclareGlobal(x0)
    } else if tag == 0x3b {
        let x0 = read_str(data, pos)?;
        let c1 = read_u32(data, pos)?; let x1 = read_vars(data, pos, c1 as usize)?;
        Opcode::DefineEnum(x0, x1)
    } else if tag == 0x3c {
        let x0 = read_str(data, pos)?;
        Opcode::MatchVariant(x0)
    } else if tag == 0x3d {
        let c0 = read_u32(data, pos)?; let x0 = read_strs(data, pos, c0 as usize)?;
        Opcode::EnumUnpack(x0)
    } else if tag == 0x3e {
        let x0 = read_str(data, pos)?;
        let x1 = read_u8(data, pos)? as usize;
        Opcode::TailCall(x0, x1)
    } else if tag == 0x3f {
        let h0 = read_u8(data, pos)?; let x0 = if h0 == 1 { Some(read_str(data, pos)?) } else { None };
        Opcode::Assert(x0)
    } else if tag == 0x40 {
        let x0 = read_str(data, pos)?;
        Opcode::DeclareConst(x0)
    } else if tag == 0x41 {
        let x0 = read_str(data, pos)?;
        let x1 = read_u8(data, pos)? as usize;
        let c2 = read_u8(data, pos)?; let x2 = read_strs(data, pos, c2 as usize)?;
        Opcode::CallKw(x0, x1, x2)
    } else if tag == 0x42 {
        Opcode::FloorDiv
    } else if tag == 0x43 {
        let x0 = read_u8(data, pos)? as usize;
        Opcode::UnpackList(x0)
    } else if tag == 0x44 {
        Opcode::Slice
    } else if tag == 0x45 {
        Opcode::Contains
    } else if tag == 0x46 {
        let c0 = read_u8(data, pos)?; let x0 = read_flags(data, pos, c0 as usize)?;
        Opcode::MakeListSp(x0)
    } else if tag == 0x47 {
        Opcode::Throw
    } else if tag == 0x48 {
        let x0 = read_str(data, pos)?;
        Opcode::MatchErrClass(x0)
    } else if tag == 0x49 {
        let x0 = read_str(data, pos)?;
        let x1 = read_str(data, pos)?;
        Opcode::IterNext(x0, x1)
    } else if tag == 0x4a {
        Opcode::Yield
    } else if tag == 0x4b {
        let x0 = read_str(data, pos)?;
        let x1 = read_str(data, pos)?;
        let x2 = read_str(data, pos)?;
        Opcode::IterStep { loop_var: x0, container_var: x1, idx_var: x2 }
    } else if tag == 0x4c {
        let x0 = read_str(data, pos)?;
        let x1 = read_u8(data, pos)? as usize;
        let c2 = read_u8(data, pos)?; let x2 = read_strs(data, pos, c2 as usize)?;
        Opcode::MethodCallKw { method: x0, pos_argc: x1, kwnames: x2 }
    } else if tag == 0x4d {
        Opcode::SetSlice
    } else {
        return Err(tag_message("अज्ञात opcode tag", tag));
    })
}

/// Decodes one instruction at `*pos`, advancing `*pos` past it.
pub fn decode_op(data: &[u8], pos: &mut usize) -> (r: Result<Opcode, String>)
    requires
        *old(pos) <= data@.len(),
    ensures
        *final(pos) <= data@.len(),
        match (r, dec_op(data@, *old(pos) as int)) {
            (Ok(op), Some((m, p))) => op@ == m && *final(pos) == p,
            (Err(_), None) => true,
            _ => false,
        },
{
    let start = *pos;
    let tag = read_u8(data, pos)?;
    if tag <= 4 {
        *pos = start;
        let v = read_lvm_value(data, pos)?;
        Ok(Opcode::Push(v))
    } else {
        decode_op_body(tag, data, pos)
    }
}


// ── Round-trip lemmas: reading what was written ──────────────────────────────

pub open spec fn str_fits(s: Seq<char>) -> bool {
    encode_utf8(s).len() <= u32::MAX
}

pub open spec fn strs_fit(v: Seq<Seq<char>>) -> bool {
    forall|i: int| 0 <= i < v.len() ==> str_fits(#[trigger] v[i])
}

pub open spec fn vars_fit(v: Seq<(Seq<char>, usize)>) -> bool {
    forall|i: int| 0 <= i < v.len() ==> str_fits(#[trigger] v[i].0) && v[i].1 <= u32::MAX
}

pub open spec fn val_fits(v: ValModel) -> bool {
    match v {
        ValModel::Str(s) => str_fits(s),
        _ => true,
    }
}

/// Splitting a written run `a + b` into its two parts.
pub proof fn lemma_split(d: Seq<u8>, p: int, a: Seq<u8>, b: Seq<u8>)
    requires
        0 <= p,
        p + a.len() + b.len() <= d.len(),
        d.subrange(p, p + (a + b).len()) == a + b,
    ensures
        d.subrange(p, p + a.len()) == a,
        d.subrange(p + a.len(), p + a.len() + b.len()) == b,
{
    assert(d.subrange(p, p + a.len()) =~= (a + b).subrange(0, a.len() as int));
    assert(d.subrange(p + a.len(), p + a.len() + b.len()) =~= (a + b).subrange(
        a.len() as int,
        (a.len() + b.len()) as int,
    ));
}

pub proof fn lemma_dec_u8_byte(d: Seq<u8>, p: int, b: u8)
    requires
        0 <= p,
        p + 1 <= d.len(),
        d.subrange(p, p + 1) == seq![b],
    ensures
        dec_u8(d, p) == Some((b, p + 1)),
{
    assert(d[p] == d.subrange(p, p + 1)[0]);
}

pub proof fn lemma_dec_u64_le64(d: Seq<u8>, p: int, v: u64)
    requires
        0 <= p,
        p + 8 <= d.len(),
        d.subrange(p, p + 8) == le64(v),
    ensures
        dec_u64(d, p) == Some((v, p + 8)),
{
    lemma_le64_roundtrip(v);
}

pub proof fn lemma_dec_strs_enc(d: Seq<u8>, p: int, v: Seq<Seq<char>>)
    requires
        0 <= p,
        p + enc_strs(v).len() <= d.len(),
        d.subrange(p, p + enc_strs(v).len()) == enc_strs(v),
        strs_fit(v),
    ensures
        dec_strs(d, p, v.len()) == Some((v, p + enc_strs(v).len())),
    decreases v.len(),
{
    if v.len() > 0 {
        let a = enc_strs(v.drop_last());
        let b = enc_str(v.last());
        lemma_split(d, p, a, b);
        assert(strs_fit(v.drop_last())) by {
            assert forall|i: int| 0 <= i < v.drop_last().len() implies str_fits(
                #[trigger] v.drop_last()[i],
            ) by {
                assert(v.drop_last()[i] == v[i]);
            }
        }
        lemma_dec_strs_enc(d, p, v.drop_last());
        assert(str_fits(v[v.len() - 1]));
        lemma_dec_str_enc(d, p + a.len(), v.last());
        assert(v.drop_last().push(v.last()) =~= v);
    }
}

pub proof fn lemma_dec_vars_enc(d: Seq<u8>, p: int, v: Seq<(Seq<char>, usize)>)
    requires
        0 <= p,
        p + enc_vars(v).len() <= d.len(),
        d.subrange(p, p + enc_vars(v).len()) == enc_vars(v),
        vars_fit(v),
    ensures
        dec_vars(d, p, v.len()) == Some((v, p + enc_vars(v).len())),
    decreases v.len(),
{
    if v.len() > 0 {
        let a = enc_vars(v.drop_last());
        let b = enc_str(v.last().0);
        let c = le32(v.last().1 as u32);
        lemma_split(d, p, a + b, c);
        lemma_split(d, p, a, b);
        assert(vars_fit(v.drop_last())) by {
            assert forall|i: int| 0 <= i < v.drop_last().len() implies str_fits(
                #[trigger] v.drop_last()[i].0,
            ) && v.drop_last()[i].1 <= u32::MAX by {
                assert(v.drop_last()[i] == v[i]);
            }
        }
        lemma_dec_vars_enc(d, p, v.drop_last());
        assert(str_fits(v[v.len() - 1].0));
        lemma_dec_str_enc(d, p + a.len(), v.last().0);
        lemma_dec_u32_le32(d, p + a.len() + b.len(), v.last().1 as u32);
        assert(v.drop_last().push((v.last().0, (v.last().1 as u32) as usize)) =~= v);
    }
}

pub proof fn lemma_dec_flags_enc(d: Seq<u8>, p: int, v: Seq<bool>)
    requires
        0 <= p,
        p + enc_flags(v).len() <= d.len(),
        d.subrange(p, p + enc_flags(v).len()) == enc_flags(v),
    ensures
        dec_flags(d, p, v.len()) == Some((v, p + enc_flags(v).len())),
    decreases v.len(),
{
    if v.len() > 0 {
        let a = enc_flags(v.drop_last());
        let b = seq![enc_bool(v.last())];
        assert(enc_flags(v) =~= a + b);
        lemma_split(d, p, a, b);
        lemma_dec_flags_enc(d, p, v.drop_last());
        lemma_dec_u8_byte(d, p + a.len(), enc_bool(v.last()));
        assert(v.drop_last().push(enc_bool(v.last()) != 0) =~= v);
    }
}

pub proof fn lemma_dec_val_enc(d: Seq<u8>, p: int, v: ValModel)
    requires
        0 <= p,
        p + enc_val(v).len() <= d.len(),
        d.subrange(p, p + enc_val(v).len()) == enc_val(v),
        val_fits(v),
    ensures
        dec_val(d, p) == Some((v, p + enc_val(v).len())),
{
    match v {
        ValModel::Number(b) => {
            lemma_split(d, p, seq![0x03u8], le64(b));
            lemma_dec_u8_byte(d, p, 0x03u8);
            lemma_dec_u64_le64(d, p + 1, b);
        },
        ValModel::Str(s) => {
            lemma_split(d, p, seq![0x04u8], enc_str(s));
            lemma_dec_u8_byte(d, p, 0x04u8);
            lemma_dec_str_enc(d, p + 1, s);
        },
        _ => {
            assert(d[p] == d.subrange(p, p + 1)[0]);
        },
    }
}

pub proof fn lemma_dec_opt_str_enc(d: Seq<u8>, p: int, o: Option<Seq<char>>)
    requires
        0 <= p,
        p + enc_opt_str(o).len() <= d.len(),
        d.subrange(p, p + enc_opt_str(o).len()) == enc_opt_str(o),
        o matches Some(s) ==> str_fits(s),
    ensures
        dec_opt_str(d, p) == Some((o, p + enc_opt_str(o).len())),
{
    match o {
        Some(s) => {
            lemma_split(d, p, seq![1u8], enc_str(s));
            lemma_dec_u8_byte(d, p, 1u8);
            lemma_dec_str_enc(d, p + 1, s);
        },
        None => {
            lemma_dec_u8_byte(d, p, 0u8);
        },
    }
}
/// Instructions whose every operand survives the encoding: one-byte counts
/// below 256, 32-bit counts and addresses within `u32::MAX`, string byte
/// lengths within `u32::MAX`.
pub open spec fn op_fits(op: OpModel) -> bool {
    match op {
        OpModel::Push(v) => val_fits(v),
        OpModel::Pop => true,
        OpModel::Dup => true,
        OpModel::LoadVar(s) => str_fits(s),
        OpModel::StoreVar(s) => str_fits(s),
        OpModel::Add => true,
        OpModel::Sub => true,
        OpModel::Mul => true,
        OpModel::Div => true,
        OpModel::Mod => true,
        OpModel::Eq => true,
        OpModel::NotEq => true,
        OpModel::Gt => true,
        OpModel::Lt => true,
        OpModel::GtEq => true,
        OpModel::LtEq => true,
        OpModel::And => true,
        OpModel::Or => true,
        OpModel::Not => true,
        OpModel::Jump(a) => a <= u32::MAX,
        OpModel::JumpIfFalse(a) => a <= u32::MAX,
        OpModel::JumpIfTrue(a) => a <= u32::MAX,
        OpModel::Call(n, c) => str_fits(n) && c < 256,
        OpModel::CallNative(n, c) => str_fits(n) && c < 256,
        OpModel::Return => true,
        OpModel::Print => true,
        OpModel::KarakaCheck(a, b) => str_fits(a) && str_fits(b),
        OpModel::Import(s) => str_fits(s),
        OpModel::AadhaarVerify => true,
        OpModel::UpiSend => true,
        OpModel::GstAdd => true,
        OpModel::LakhParse => true,
        OpModel::RupeeFormat => true,
        OpModel::MethodCall(n, c) => str_fits(n) && c < 256,
        OpModel::MakeList(n) => n <= u32::MAX,
        OpModel::MakeDict(n) => n <= u32::MAX,
        OpModel::GetIndex => true,
        OpModel::SetIndex => true,
        OpModel::MakeInstance(s) => str_fits(s),
        OpModel::GetAttr(s) => str_fits(s),
        OpModel::SetAttr(s) => str_fits(s),
        OpModel::PrintInline => true,
        OpModel::TryStart(a) => a <= u32::MAX,
        OpModel::TryEnd => true,
        OpModel::ImportFile(s) => str_fits(s),
        OpModel::MakeClosure(s) => str_fits(s),
        OpModel::GetIterLen => true,
        OpModel::GetIterItem => true,
        OpModel::BitAnd => true,
        OpModel::BitOr => true,
        OpModel::BitXor => true,
        OpModel::BitNot => true,
        OpModel::LShift => true,
        OpModel::RShift => true,
        OpModel::DeclareGlobal(s) => str_fits(s),
        OpModel::DefineEnum(n, v) => str_fits(n) && v.len() <= u32::MAX && vars_fit(v),
        OpModel::MatchVariant(s) => str_fits(s),
        OpModel::EnumUnpack(v) => v.len() <= u32::MAX && strs_fit(v),
        OpModel::TailCall(n, c) => str_fits(n) && c < 256,
        OpModel::Assert(m) => (m matches Some(s) ==> str_fits(s)),
        OpModel::DeclareConst(s) => str_fits(s),
        OpModel::CallKw(n, c, k) => str_fits(n) && c < 256 && k.len() < 256 && strs_fit(k),
        OpModel::FloorDiv => true,
        OpModel::UnpackList(n) => n < 256,
        OpModel::Slice => true,
        OpModel::Contains => true,
        OpModel::MakeListSp(f) => f.len() < 256,
        OpModel::Throw => true,
        OpModel::MatchErrClass(s) => str_fits(s),
        OpModel::IterNext(a, b) => str_fits(a) && str_fits(b),
        OpModel::Yield => true,
        OpModel::IterStep { loop_var, container_var, idx_var } => str_fits(loop_var) && str_fits(container_var) && str_fits(idx_var),
        OpModel::MethodCallKw { method, pos_argc, kwnames } => str_fits(method) && pos_argc < 256 && kwnames.len() < 256 && strs_fit(kwnames),
        OpModel::SetSlice => true,
    }
}

/// Reading an instruction where one was written gives it back, with the
/// position just past its encoding.
pub proof fn lemma_dec_op_enc(d: Seq<u8>, p: int, op: OpModel)
    requires
        0 <= p,
        p + enc_op(op).len() <= d.len(),
        d.subrange(p, p + enc_op(op).len()) == enc_op(op),
        op_fits(op),
    ensures
        dec_op(d, p) == Some((op, p + enc_op(op).len())),
{
    match op {
        OpModel::Push(v) => {
            lemma_dec_val_enc(d, p, v);
            assert(enc_val(v)[0] == d[p]);
            assert(d[p] == d.subrange(p, p + enc_op(op).len())[0]);
        },
        OpModel::Pop => lemma_dec_op_enc_pop(d, p, op),
        OpModel::Dup => lemma_dec_op_enc_dup(d, p, op),
        OpModel::LoadVar(..) => lemma_dec_op_enc_loadvar(d, p, op),
        OpModel::StoreVar(..) => lemma_dec_op_enc_storevar(d, p, op),
        OpModel::Add => lemma_dec_op_enc_add(d, p, op),
        OpModel::Sub => lemma_dec_op_enc_sub(d, p, op),
        OpModel::Mul => lemma_dec_op_enc_mul(d, p, op),
        OpModel::Div => lemma_dec_op_enc_div(d, p, op),
        OpModel::Mod => lemma_dec_op_enc_mod(d, p, op),
        OpModel::Eq => lemma_dec_op_enc_eq(d, p, op),
        OpModel::NotEq => lemma_dec_op_enc_noteq(d, p, op),
        OpModel::Gt => lemma_dec_op_enc_gt(d, p, op),
        OpModel::Lt => lemma_dec_op_enc_lt(d, p, op),
        OpModel::GtEq => lemma_dec_op_enc_gteq(d, p, op),
        OpModel::LtEq => lemma_dec_op_enc_lteq(d, p, op),
        OpModel::And => lemma_dec_op_enc_and(d, p, op),
        OpModel::Or => lemma_dec_op_enc_or(d, p, op),
        OpModel::Not => lemma_dec_op_enc_not(d, p, op),
        OpModel::Jump(..) => lemma_dec_op_enc_jump(d, p, op),
        OpModel::JumpIfFalse(..) => lemma_dec_op_enc_jumpiffalse(d, p, op),
        OpModel::JumpIfTrue(..) => lemma_dec_op_enc_jumpiftrue(d, p, op),
        OpModel::Call(..) => lemma_dec_op_enc_call(d, p, op),
        OpModel::CallNative(..) => lemma_dec_op_enc_callnative(d, p, op),
        OpModel::Return => lemma_dec_op_enc_return(d, p, op),
        OpModel::Print => lemma_dec_op_enc_print(d, p, op),
        OpModel::KarakaCheck(..) => lemma_dec_op_enc_karakacheck(d, p, op),
        OpModel::Import(..) => lemma_dec_op_enc_import(d, p, op),
        OpModel::AadhaarVerify => lemma_dec_op_enc_aadhaarverify(d, p, op),
        OpModel::UpiSend => lemma_dec_op_enc_upisend(d, p, op),
        OpModel::GstAdd => lemma_dec_op_enc_gstadd(d, p, op),
        OpModel::LakhParse => lemma_dec_op_enc_lakhparse(d, p, op),
        OpModel::RupeeFormat => lemma_dec_op_enc_rupeeformat(d, p, op),
        OpModel::MethodCall(..) => lemma_dec_op_enc_methodcall(d, p, op),
        OpModel::MakeList(..) => lemma_dec_op_enc_makelist(d, p, op),
        OpModel::MakeDict(..) => lemma_dec_op_enc_makedict(d, p, op),
        OpModel::GetIndex => lemma_dec_op_enc_getindex(d, p, op),
        OpModel::SetIndex => lemma_dec_op_enc_setindex(d, p, op),
        OpModel::MakeInstance(..) => lemma_dec_op_enc_makeinstance(d, p, op),
        OpModel::GetAttr(..) => lemma_dec_op_enc_getattr(d, p, op),
        OpModel::SetAttr(..) => lemma_dec_op_enc_setattr(d, p, op),
        OpModel::PrintInline => lemma_dec_op_enc_printinline(d, p, op),
        OpModel::TryStart(..) => lemma_dec_op_enc_trystart(d, p, op),
        OpModel::TryEnd => lemma_dec_op_enc_tryend(d, p, op),
        OpModel::ImportFile(..) => lemma_dec_op_enc_importfile(d, p, op),
        OpModel::MakeClosure(..) => lemma_dec_op_enc_makeclosure(d, p, op),
        OpModel::GetIterLen => lemma_dec_op_enc_getiterlen(d, p, op),
        OpModel::GetIterItem => lemma_dec_op_enc_getiteritem(d, p, op),
        OpModel::BitAnd => lemma_dec_op_enc_bitand(d, p, op),
        OpModel::BitOr => lemma_dec_op_enc_bitor(d, p, op),
        OpModel::BitXor => lemma_dec_op_enc_bitxor(d, p, op),
        OpModel::BitNot => lemma_dec_op_enc_bitnot(d, p, op),
        OpModel::LShift => lemma_dec_op_enc_lshift(d, p, op),
        OpModel::RShift => lemma_dec_op_enc_rshift(d, p, op),
        OpModel::DeclareGlobal(..) => lemma_dec_op_enc_declareglobal(d, p, op),
        OpModel::DefineEnum(..) => lemma_dec_op_enc_defineenum(d, p, op),
        OpModel::MatchVariant(..) => lemma_dec_op_enc_matchvariant(d, p, op),
        OpModel::EnumUnpack(..) => lemma_dec_op_enc_enumunpack(d, p, op),
        OpModel::TailCall(..) => lemma_dec_op_enc_tailcall(d, p, op),
        OpModel::Assert(..) => lemma_dec_op_enc_assert(d, p, op),
        OpModel::DeclareConst(..) => lemma_dec_op_enc_declareconst(d, p, op),
        OpModel::CallKw(..) => lemma_dec_op_enc_callkw(d, p, op),
        OpModel::FloorDiv => lemma_dec_op_enc_floordiv(d, p, op),
        OpModel::UnpackList(..) => lemma_dec_op_enc_unpacklist(d, p, op),
        OpModel::Slice => lemma_dec_op_enc_slice(d, p, op),
        OpModel::Contains => lemma_dec_op_enc_contains(d, p, op),
        OpModel::MakeListSp(..) => lemma_dec_op_enc_makelistsp(d, p, op),
        OpModel::Throw => lemma_dec_op_enc_throw(d, p, op),
        OpModel::MatchErrClass(..) => lemma_dec_op_enc_matcherrclass(d, p, op),
        OpModel::IterNext(..) => lemma_dec_op_enc_iternext(d, p, op),
        OpModel::Yield => lemma_dec_op_enc_yield(d, p, op),
        OpModel::IterStep { .. } => lemma_dec_op_enc_iterstep(d, p, op),
        OpModel::MethodCallKw { .. } => lemma_dec_op_enc_methodcallkw(d, p, op),
        OpModel::SetSlice => lemma_dec_op_enc_setslice(d, p, op),
    }
}

proof fn lemma_dec_op_enc_pop(d: Seq<u8>, p: int, op: OpModel)
    requires
        op is Pop,
        0 <= p,
        p + enc_op(op).len() <= d.len(),
        d.subrange(p, p + enc_op(op).len()) == enc_op(op),
        op_fits(op),
    ensures
        dec_op(d, p) == Some((op, p + enc_op(op).len())),
{
    match op {
        OpModel::Pop => {
            let ghost e0 = seq![0x05u8];
            assert(enc_op(op) =~= e0);
            lemma_dec_u8_byte(d, p, 0x05u8);
        },
        _ => {},
    }
}

proof fn lemma_dec_op_enc_dup(d: Seq<u8>, p: int, op: OpModel)
    requires
        op is Dup,
        0 <= p,
        p + enc_op(op).len() <= d.len(),
        d.subrange(p, p + enc_op(op).len()) == enc_op(op),
        op_fits(op),
    ensures
        dec_op(d, p) == Some((op, p + enc_op(op).len())),
{
    match op {
        OpModel::Dup => {
            let ghost e0 = seq![0x06u8];
            assert(enc_op(op) =~= e0);
            lemma_dec_u8_byte(d, p, 0x06u8);
        },
        _ => {},
    }
}

proof fn lemma_dec_op_enc_loadvar(d: Seq<u8>, p: int, op: OpModel)
    requires
        op is LoadVar,
        0 <= p,
        p + enc_op(op).len() <= d.len(),
        d.subrange(p, p + enc_op(op).len()) == enc_op(op),
        op_fits(op),
    ensures
        dec_op(d, p) == Some((op, p + enc_op(op).len())),
{
    match op {
        OpModel::LoadVar(s) => {
            let ghost e0 = seq![0x07u8];
            let ghost a1 = enc_str(s);
            let ghost e1 = e0 + a1;
            assert(enc_op(op) =~= e1);
            lemma_split(d, p, e0, a1);
            lemma_dec_u8_byte(d, p, 0x07u8);
            lemma_dec_str_enc(d, p + e0.len(), s);
        },
        _ => {},
    }
}

proof fn lemma_dec_op_enc_storevar(d: Seq<u8>, p: int, op: OpModel)
    requires
        op is StoreVar,
        0 <= p,
        p + enc_op(op).len() <= d.len(),
        d.subrange(p, p + enc_op(op).len()) == enc_op(op),
        op_fits(op),
    ensures
        dec_op(d, p) == Some((op, p + enc_op(op).len())),
{
    match op {
        OpModel::StoreVar(s) => {
            let ghost e0 = seq![0x08u8];
            let ghost a1 = enc_str(s);
            let ghost e1 = e0 + a1;
            assert(enc_op(op) =~= e1);
            lemma_split(d, p, e0, a1);
            lemma_dec_u8_byte(d, p, 0x08u8);
            lemma_dec_str_enc(d, p + e0.len(), s);
        },
        _ => {},
    }
}

proof fn lemma_dec_op_enc_add(d: Seq<u8>, p: int, op: OpModel)
    requires
        op is Add,
        0 <= p,
        p + enc_op(op).len() <= d.len(),
        d.subrange(p, p + enc_op(op).len()) == enc_op(op),
        op_fits(op),
    ensures
        dec_op(d, p) == Some((op, p + enc_op(op).len())),
{
    match op {
        OpModel::Add => {
            let ghost e0 = seq![0x09u8];
            assert(enc_op(op) =~= e0);
            lemma_dec_u8_byte(d, p, 0x09u8);
        },
        _ => {},
    }
}

proof fn lemma_dec_op_enc_sub(d: Seq<u8>, p: int, op: OpModel)
    requires
        op is Sub,
        0 <= p,
        p + enc_op(op).len() <= d.len(),
        d.subrange(p, p + enc_op(op).len()) == enc_op(op),
        op_fits(op),
    ensures
        dec_op(d, p) == Some((op, p + enc_op(op).len())),
{
    match op {
        OpModel::Sub => {
            let ghost e0 = seq![0x0au8];
            assert(enc_op(op) =~= e0);
            lemma_dec_u8_byte(d, p, 0x0au8);
        },
        _ => {},
    }
}

proof fn lemma_dec_op_enc_mul(d: Seq<u8>, p: int, op: OpModel)
    requires
        op is Mul,
        0 <= p,
        p + enc_op(op).len() <= d.len(),
        d.subrange(p, p + enc_op(op).len()) == enc_op(op),
        op_fits(op),
    ensures
        dec_op(d, p) == Some((op, p + enc_op(op).len())),
{
    match op {
        OpModel::Mul => {
            let ghost e0 = seq![0x0bu8];
            assert(enc_op(op) =~= e0);
            lemma_dec_u8_byte(d, p, 0x0bu8);
        },
        _ => {},
    }
}

proof fn lemma_dec_op_enc_div(d: Seq<u8>, p: int, op: OpModel)
    requires
        op is Div,
        0 <= p,
        p + enc_op(op).len() <= d.len(),
        d.subrange(p, p + enc_op(op).len()) == enc_op(op),
        op_fits(op),
    ensures
        dec_op(d, p) == Some((op, p + enc_op(op).len())),
{
    match op {
        OpModel::Div => {
            let ghost e0 = seq![0x0cu8];
            assert(enc_op(op) =~= e0);
            lemma_dec_u8_byte(d, p, 0x0cu8);
        },
        _ => {},
    }
}

proof fn lemma_dec_op_enc_mod(d: Seq<u8>, p: int, op: OpModel)
    requires
        op is Mod,
        0 <= p,
        p + enc_op(op).len() <= d.len(),
        d.subrange(p, p + enc_op(op).len()) == enc_op(op),
        op_fits(op),
    ensures
        dec_op(d, p) == Some((op, p + enc_op(op).len())),
{
    match op {
        OpModel::Mod => {
            let ghost e0 = seq![0x0du8];
            assert(enc_op(op) =~= e0);
            lemma_dec_u8_byte(d, p, 0x0du8);
        },
        _ => {},
    }
}

proof fn lemma_dec_op_enc_eq(d: Seq<u8>, p: int, op: OpModel)
    requires
        op is Eq,
        0 <= p,
        p + enc_op(op).len() <= d.len(),
        d.subrange(p, p + enc_op(op).len()) == enc_op(op),
        op_fits(op),
    ensures
        dec_op(d, p) == Some((op, p + enc_op(op).len())),
{
    match op {
        OpModel::Eq => {
            let ghost e0 = seq![0x0eu8];
            assert(enc_op(op) =~= e0);
            lemma_dec_u8_byte(d, p, 0x0eu8);
        },
        _ => {},
    }
}

proof fn lemma_dec_op_enc_noteq(d: Seq<u8>, p: int, op: OpModel)
    requires
        op is NotEq,
        0 <= p,
        p + enc_op(op).len() <= d.len(),
        d.subrange(p, p + enc_op(op).len()) == enc_op(op),
        op_fits(op),
    ensures
        dec_op(d, p) == Some((op, p + enc_op(op).len())),
{
    match op {
        OpModel::NotEq => {
            let ghost e0 = seq![0x0fu8];
            assert(enc_op(op) =~= e0);
            lemma_dec_u8_byte(d, p, 0x0fu8);
        },
        _ => {},
    }
}

proof fn lemma_dec_op_enc_gt(d: Seq<u8>, p: int, op: OpModel)
    requires
        op is Gt,
        0 <= p,
        p + enc_op(op).len() <= d.len(),
        d.subrange(p, p + enc_op(op).len()) == enc_op(op),
        op_fits(op),
    ensures
        dec_op(d, p) == Some((op, p + enc_op(op).len())),
{
    match op {
        OpModel::Gt => {
            let ghost e0 = seq![0x10u8];
            assert(enc_op(op) =~= e0);
            lemma_dec_u8_byte(d, p, 0x10u8);
        },
        _ => {},
    }
}

proof fn lemma_dec_op_enc_lt(d: Seq<u8>, p: int, op: OpModel)
    requires
        op is Lt,
        0 <= p,
        p + enc_op(op).len() <= d.len(),
        d.subrange(p, p + enc_op(op).len()) == enc_op(op),
        op_fits(op),
    ensures
        dec_op(d, p) == Some((op, p + enc_op(op).len())),
{
    match op {
        OpModel::Lt => {
            let ghost e0 = seq![0x11u8];
            assert(enc_op(op) =~= e0);
            lemma_dec_u8_byte(d, p, 0x11u8);
        },
        _ => {},
    }
}

proof fn lemma_dec_op_enc_gteq(d: Seq<u8>, p: int, op: OpModel)
    requires
        op is GtEq,
        0 <= p,
        p + enc_op(op).len() <= d.len(),
        d.subrange(p, p + enc_op(op).len()) == enc_op(op),
        op_fits(op),
    ensures
        dec_op(d, p) == Some((op, p + enc_op(op).len())),
{
    match op {
        OpModel::GtEq => {
            let ghost e0 = seq![0x12u8];
            assert(enc_op(op) =~= e0);
            lemma_dec_u8_byte(d, p, 0x12u8);
        },
        _ => {},
    }
}

proof fn lemma_dec_op_enc_lteq(d: Seq<u8>, p: int, op: OpModel)
    requires
        op is LtEq,
        0 <= p,
        p + enc_op(op).len() <= d.len(),
        d.subrange(p, p + enc_op(op).len()) == enc_op(op),
        op_fits(op),
    ensures
        dec_op(d, p) == Some((op, p + enc_op(op).len())),
{
    match op {
        OpModel::LtEq => {
            let ghost e0 = seq![0x13u8];
            assert(enc_op(op) =~= e0);
            lemma_dec_u8_byte(d, p, 0x13u8);
        },
        _ => {},
    }
}

proof fn lemma_dec_op_enc_and(d: Seq<u8>, p: int, op: OpModel)
    requires
        op is And,
        0 <= p,
        p + enc_op(op).len() <= d.len(),
        d.subrange(p, p + enc_op(op).len()) == enc_op(op),
        op_fits(op),
    ensures
        dec_op(d, p) == Some((op, p + enc_op(op).len())),
{
    match op {
        OpModel::And => {
            let ghost e0 = seq![0x14u8];
            assert(enc_op(op) =~= e0);
            lemma_dec_u8_byte(d, p, 0x14u8);
        },
        _ => {},
    }
}

proof fn lemma_dec_op_enc_or(d: Seq<u8>, p: int, op: OpModel)
    requires
        op is Or,
        0 <= p,
        p + enc_op(op).len() <= d.len(),
        d.subrange(p, p + enc_op(op).len()) == enc_op(op),
        op_fits(op),
    ensures
        dec_op(d, p) == Some((op, p + enc_op(op).len())),
{
    match op {
        OpModel::Or => {
            let ghost e0 = seq![0x15u8];
            assert(enc_op(op) =~= e0);
            lemma_dec_u8_byte(d, p, 0x15u8);
        },
        _ => {},
    }
}

proof fn lemma_dec_op_enc_not(d: Seq<u8>, p: int, op: OpModel)
    requires
        op is Not,
        0 <= p,
        p + enc_op(op).len() <= d.len(),
        d.subrange(p, p + enc_op(op).len()) == enc_op(op),
        op_fits(op),
    ensures
        dec_op(d, p) == Some((op, p + enc_op(op).len())),
{
    match op {
        OpModel::Not => {
            let ghost e0 = seq![0x16u8];
            assert(enc_op(op) =~= e0);
            lemma_dec_u8_byte(d, p, 0x16u8);
        },
        _ => {},
    }
}

proof fn lemma_dec_op_enc_jump(d: Seq<u8>, p: int, op: OpModel)
    requires
        op is Jump,
        0 <= p,
        p + enc_op(op).len() <= d.len(),
        d.subrange(p, p + enc_op(op).len()) == enc_op(op),
        op_fits(op),
    ensures
        dec_op(d, p) == Some((op, p + enc_op(op).len())),
{
    match op {
        OpModel::Jump(a) => {
            let ghost e0 = seq![0x17u8];
            let ghost a1 = le32(a as u32);
            let ghost e1 = e0 + a1;
            assert(enc_op(op) =~= e1);
            lemma_split(d, p, e0, a1);
            lemma_dec_u8_byte(d, p, 0x17u8);
            lemma_dec_u32_le32(d, p + e0.len(), a as u32);
        },
        _ => {},
    }
}

proof fn lemma_dec_op_enc_jumpiffalse(d: Seq<u8>, p: int, op: OpModel)
    requires
        op is JumpIfFalse,
        0 <= p,
        p + enc_op(op).len() <= d.len(),
        d.subrange(p, p + enc_op(op).len()) == enc_op(op),
        op_fits(op),
    ensures
        dec_op(d, p) == Some((op, p + enc_op(op).len())),
{
    match op {
        OpModel::JumpIfFalse(a) => {
            let ghost e0 = seq![0x18u8];
            let ghost a1 = le32(a as u32);
            let ghost e1 = e0 + a1;
            assert(enc_op(op) =~= e1);
            lemma_split(d, p, e0, a1);
            lemma_dec_u8_byte(d, p, 0x18u8);
            lemma_dec_u32_le32(d, p + e0.len(), a as u32);
        },
        _ => {},
    }
}

proof fn lemma_dec_op_enc_jumpiftrue(d: Seq<u8>, p: int, op: OpModel)
    requires
        op is JumpIfTrue,
        0 <= p,
        p + enc_op(op).len() <= d.len(),
        d.subrange(p, p + enc_op(op).len()) == enc_op(op),
        op_fits(op),
    ensures
        dec_op(d, p) == Some((op, p + enc_op(op).len())),
{
    match op {
        OpModel::JumpIfTrue(a) => {
            let ghost e0 = seq![0x19u8];
            let ghost a1 = le32(a as u32);
            let ghost e1 = e0 + a1;
            assert(enc_op(op) =~= e1);
            lemma_split(d, p, e0, a1);
            lemma_dec_u8_byte(d, p, 0x19u8);
            lemma_dec_u32_le32(d, p + e0.len(), a as u32);
        },
        _ => {},
    }
}

proof fn lemma_dec_op_enc_call(d: Seq<u8>, p: int, op: OpModel)
    requires
        op is Call,
        0 <= p,
        p + enc_op(op).len() <= d.len(),
        d.subrange(p, p + enc_op(op).len()) == enc_op(op),
        op_fits(op),
    ensures
        dec_op(d, p) == Some((op, p + enc_op(op).len())),
{
    match op {
        OpModel::Call(n, c) => {
            let ghost e0 = seq![0x1au8];
            let ghost a1 = enc_str(n);
            let ghost e1 = e0 + a1;
            let ghost a2 = seq![c as u8];
            let ghost e2 = e1 + a2;
            assert(enc_op(op) =~= e2);
            lemma_split(d, p, e1, a2);
            lemma_split(d, p, e0, a1);
            lemma_dec_u8_byte(d, p, 0x1au8);
            lemma_dec_str_enc(d, p + e0.len(), n);
            lemma_dec_u8_byte(d, p + e1.len(), c as u8);
        },
        _ => {},
    }
}

proof fn lemma_dec_op_enc_callnative(d: Seq<u8>, p: int, op: OpModel)
    requires
        op is CallNative,
        0 <= p,
        p + enc_op(op).len() <= d.len(),
        d.subrange(p, p + enc_op(op).len()) == enc_op(op),
        op_fits(op),
    ensures
        dec_op(d, p) == Some((op, p + enc_op(op).len())),
{
    match op {
        OpModel::CallNative(n, c) => {
            let ghost e0 = seq![0x1bu8];
            let ghost a1 = enc_str(n);
            let ghost e1 = e0 + a1;
            let ghost a2 = seq![c as u8];
            let ghost e2 = e1 + a2;
            assert(enc_op(op) =~= e2);
            lemma_split(d, p, e1, a2);
            lemma_split(d, p, e0, a1);
            lemma_dec_u8_byte(d, p, 0x1bu8);
            lemma_dec_str_enc(d, p + e0.len(), n);
            lemma_dec_u8_byte(d, p + e1.len(), c as u8);
        },
        _ => {},
    }
}

proof fn lemma_dec_op_enc_return(d: Seq<u8>, p: int, op: OpModel)
    requires
        op is Return,
        0 <= p,
        p + enc_op(op).len() <= d.len(),
        d.subrange(p, p + enc_op(op).len()) == enc_op(op),
        op_fits(op),
    ensures
        dec_op(d, p) == Some((op, p + enc_op(op).len())),
{
    match op {
        OpModel::Return => {
            let ghost e0 = seq![0x1cu8];
            assert(enc_op(op) =~= e0);
            lemma_dec_u8_byte(d, p, 0x1cu8);
        },
        _ => {},
    }
}

proof fn lemma_dec_op_enc_print(d: Seq<u8>, p: int, op: OpModel)
    requires
        op is Print,
        0 <= p,
        p + enc_op(op).len() <= d.len(),
        d.subrange(p, p + enc_op(op).len()) == enc_op(op),
        op_fits(op),
    ensures
        dec_op(d, p) == Some((op, p + enc_op(op).len())),
{
    match op {
        OpModel::Print => {
            let ghost e0 = seq![0x1du8];
            assert(enc_op(op) =~= e0);
            lemma_dec_u8_byte(d, p, 0x1du8);
        },
        _ => {},
    }
}

proof fn lemma_dec_op_enc_karakacheck(d: Seq<u8>, p: int, op: OpModel)
    requires
        op is KarakaCheck,
        0 <= p,
        p + enc_op(op).len() <= d.len(),
        d.subrange(p, p + enc_op(op).len()) == enc_op(op),
        op_fits(op),
    ensures
        dec_op(d, p) == Some((op, p + enc_op(op).len())),
{
    match op {
        OpModel::KarakaCheck(a, b) => {
            let ghost e0 = seq![0x1eu8];
            let ghost a1 = enc_str(a);
            let ghost e1 = e0 + a1;
            let ghost a2 = enc_str(b);
            let ghost e2 = e1 + a2;
            assert(enc_op(op) =~= e2);
            lemma_split(d, p, e1, a2);
            lemma_split(d, p, e0, a1);
            lemma_dec_u8_byte(d, p, 0x1eu8);
            lemma_dec_str_enc(d, p + e0.len(), a);
            lemma_dec_str_enc(d, p + e1.len(), b);
        },
        _ => {},
    }
}

proof fn lemma_dec_op_enc_import(d: Seq<u8>, p: int, op: OpModel)
    requires
        op is Import,
        0 <= p,
        p + enc_op(op).len() <= d.len(),
        d.subrange(p, p + enc_op(op).len()) == enc_op(op),
        op_fits(op),
    ensures
        dec_op(d, p) == Some((op, p + enc_op(op).len())),
{
    match op {
        OpModel::Import(s) => {
            let ghost e0 = seq![0x1fu8];
            let ghost a1 = enc_str(s);
            let ghost e1 = e0 + a1;
            assert(enc_op(op) =~= e1);
            lemma_split(d, p, e0, a1);
            lemma_dec_u8_byte(d, p, 0x1fu8);
            lemma_dec_str_enc(d, p + e0.len(), s);
        },
        _ => {},
    }
}

proof fn lemma_dec_op_enc_aadhaarverify(d: Seq<u8>, p: int, op: OpModel)
    requires
        op is AadhaarVerify,
        0 <= p,
        p + enc_op(op).len() <= d.len(),
        d.subrange(p, p + enc_op(op).len()) == enc_op(op),
        op_fits(op),
    ensures
        dec_op(d, p) == Some((op, p + enc_op(op).len())),
{
    match op {
        OpModel::AadhaarVerify => {
            let ghost e0 = seq![0x20u8];
            assert(enc_op(op) =~= e0);
            lemma_dec_u8_byte(d, p, 0x20u8);
        },
        _ => {},
    }
}

proof fn lemma_dec_op_enc_upisend(d: Seq<u8>, p: int, op: OpModel)
    requires
        op is UpiSend,
        0 <= p,
        p + enc_op(op).len() <= d.len(),
        d.subrange(p, p + enc_op(op).len()) == enc_op(op),
        op_fits(op),
    ensures
        dec_op(d, p) == Some((op, p + enc_op(op).len())),
{
    match op {
        OpModel::UpiSend => {
            let ghost e0 = seq![0x21u8];
            assert(enc_op(op) =~= e0);
            lemma_dec_u8_byte(d, p, 0x21u8);
        },
        _ => {},
    }
}

proof fn lemma_dec_op_enc_gstadd(d: Seq<u8>, p: int, op: OpModel)
    requires
        op is GstAdd,
        0 <= p,
        p + enc_op(op).len() <= d.len(),
        d.subrange(p, p + enc_op(op).len()) == enc_op(op),
        op_fits(op),
    ensures
        dec_op(d, p) == Some((op, p + enc_op(op).len())),
{
    match op {
        OpModel::GstAdd => {
            let ghost e0 = seq![0x22u8];
            assert(enc_op(op) =~= e0);
            lemma_dec_u8_byte(d, p, 0x22u8);
        },
        _ => {},
    }
}

proof fn lemma_dec_op_enc_lakhparse(d: Seq<u8>, p: int, op: OpModel)
    requires
        op is LakhParse,
        0 <= p,
        p + enc_op(op).len() <= d.len(),
        d.subrange(p, p + enc_op(op).len()) == enc_op(op),
        op_fits(op),
    ensures
        dec_op(d, p) == Some((op, p + enc_op(op).len())),
{
    match op {
        OpModel::LakhParse => {
            let ghost e0 = seq![0x23u8];
            assert(enc_op(op) =~= e0);
            lemma_dec_u8_byte(d, p, 0x23u8);
        },
        _ => {},
    }
}

proof fn lemma_dec_op_enc_rupeeformat(d: Seq<u8>, p: int, op: OpModel)
    requires
        op is RupeeFormat,
        0 <= p,
        p + enc_op(op).len() <= d.len(),
        d.subrange(p, p + enc_op(op).len()) == enc_op(op),
        op_fits(op),
    ensures
        dec_op(d, p) == Some((op, p + enc_op(op).len())),
{
    match op {
        OpModel::RupeeFormat => {
            let ghost e0 = seq![0x24u8];
            assert(enc_op(op) =~= e0);
            lemma_dec_u8_byte(d, p, 0x24u8);
        },
        _ => {},
    }
}

proof fn lemma_dec_op_enc_methodcall(d: Seq<u8>, p: int, op: OpModel)
    requires
        op is MethodCall,
        0 <= p,
        p + enc_op(op).len() <= d.len(),
        d.subrange(p, p + enc_op(op).len()) == enc_op(op),
        op_fits(op),
    ensures
        dec_op(d, p) == Some((op, p + enc_op(op).len())),
{
    match op {
        OpModel::MethodCall(n, c) => {
            let ghost e0 = seq![0x25u8];
            let ghost a1 = enc_str(n);
            let ghost e1 = e0 + a1;
            let ghost a2 = seq![c as u8];
            let ghost e2 = e1 + a2;
            assert(enc_op(op) =~= e2);
            lemma_split(d, p, e1, a2);
            lemma_split(d, p, e0, a1);
            lemma_dec_u8_byte(d, p, 0x25u8);
            lemma_dec_str_enc(d, p + e0.len(), n);
            lemma_dec_u8_byte(d, p + e1.len(), c as u8);
        },
        _ => {},
    }
}

proof fn lemma_dec_op_enc_makelist(d: Seq<u8>, p: int, op: OpModel)
    requires
        op is MakeList,
        0 <= p,
        p + enc_op(op).len() <= d.len(),
        d.subrange(p, p + enc_op(op).len()) == enc_op(op),
        op_fits(op),
    ensures
        dec_op(d, p) == Some((op, p + enc_op(op).len())),
{
    match op {
        OpModel::MakeList(n) => {
            let ghost e0 = seq![0x26u8];
            let ghost a1 = le32(n as u32);
            let ghost e1 = e0 + a1;
            assert(enc_op(op) =~= e1);
            lemma_split(d, p, e0, a1);
            lemma_dec_u8_byte(d, p, 0x26u8);
            lemma_dec_u32_le32(d, p + e0.len(), n as u32);
        },
        _ => {},
    }
}

proof fn lemma_dec_op_enc_makedict(d: Seq<u8>, p: int, op: OpModel)
    requires
        op is MakeDict,
        0 <= p,
        p + enc_op(op).len() <= d.len(),
        d.subrange(p, p + enc_op(op).len()) == enc_op(op),
        op_fits(op),
    ensures
        dec_op(d, p) == Some((op, p + enc_op(op).len())),
{
    match op {
        OpModel::MakeDict(n) => {
            let ghost e0 = seq![0x27u8];
            let ghost a1 = le32(n as u32);
            let ghost e1 = e0 + a1;
            assert(enc_op(op) =~= e1);
            lemma_split(d, p, e0, a1);
            lemma_dec_u8_byte(d, p, 0x27u8);
            lemma_dec_u32_le32(d, p + e0.len(), n as u32);
        },
        _ => {},
    }
}

proof fn lemma_dec_op_enc_getindex(d: Seq<u8>, p: int, op: OpModel)
    requires
        op is GetIndex,
        0 <= p,
        p + enc_op(op).len() <= d.len(),
        d.subrange(p, p + enc_op(op).len()) == enc_op(op),
        op_fits(op),
    ensures
        dec_op(d, p) == Some((op, p + enc_op(op).len())),
{
    match op {
        OpModel::GetIndex => {
            let ghost e0 = seq![0x28u8];
            assert(enc_op(op) =~= e0);
            lemma_dec_u8_byte(d, p, 0x28u8);
        },
        _ => {},
    }
}

proof fn lemma_dec_op_enc_setindex(d: Seq<u8>, p: int, op: OpModel)
    requires
        op is SetIndex,
        0 <= p,
        p + enc_op(op).len() <= d.len(),
        d.subrange(p, p + enc_op(op).len()) == enc_op(op),
        op_fits(op),
    ensures
        dec_op(d, p) == Some((op, p + enc_op(op).len())),
{
    match op {
        OpModel::SetIndex => {
            let ghost e0 = seq![0x29u8];
            assert(enc_op(op) =~= e0);
            lemma_dec_u8_byte(d, p, 0x29u8);
        },
        _ => {},
    }
}

proof fn lemma_dec_op_enc_makeinstance(d: Seq<u8>, p: int, op: OpModel)
    requires
        op is MakeInstance,
        0 <= p,
        p + enc_op(op).len() <= d.len(),
        d.subrange(p, p + enc_op(op).len()) == enc_op(op),
        op_fits(op),
    ensures
        dec_op(d, p) == Some((op, p + enc_op(op).len())),
{
    match op {
        OpModel::MakeInstance(s) => {
            let ghost e0 = seq![0x2au8];
            let ghost a1 = enc_str(s);
            let ghost e1 = e0 + a1;
            assert(enc_op(op) =~= e1);
            lemma_split(d, p, e0, a1);
            lemma_dec_u8_byte(d, p, 0x2au8);
            lemma_dec_str_enc(d, p + e0.len(), s);
        },
        _ => {},
    }
}

proof fn lemma_dec_op_enc_getattr(d: Seq<u8>, p: int, op: OpModel)
    requires
        op is GetAttr,
        0 <= p,
        p + enc_op(op).len() <= d.len(),
        d.subrange(p, p + enc_op(op).len()) == enc_op(op),
        op_fits(op),
    ensures
        dec_op(d, p) == Some((op, p + enc_op(op).len())),
{
    match op {
        OpModel::GetAttr(s) => {
            let ghost e0 = seq![0x2bu8];
            let ghost a1 = enc_str(s);
            let ghost e1 = e0 + a1;
            assert(enc_op(op) =~= e1);
            lemma_split(d, p, e0, a1);
            lemma_dec_u8_byte(d, p, 0x2bu8);
            lemma_dec_str_enc(d, p + e0.len(), s);
        },
        _ => {},
    }
}

proof fn lemma_dec_op_enc_setattr(d: Seq<u8>, p: int, op: OpModel)
    requires
        op is SetAttr,
        0 <= p,
        p + enc_op(op).len() <= d.len(),
        d.subrange(p, p + enc_op(op).len()) == enc_op(op),
        op_fits(op),
    ensures
        dec_op(d, p) == Some((op, p + enc_op(op).len())),
{
    match op {
        OpModel::SetAttr(s) => {
            let ghost e0 = seq![0x2cu8];
            let ghost a1 = enc_str(s);
            let ghost e1 = e0 + a1;
            assert(enc_op(op) =~= e1);
            lemma_split(d, p, e0, a1);
            lemma_dec_u8_byte(d, p, 0x2cu8);
            lemma_dec_str_enc(d, p + e0.len(), s);
        },
        _ => {},
    }
}

proof fn lemma_dec_op_enc_printinline(d: Seq<u8>, p: int, op: OpModel)
    requires
        op is PrintInline,
        0 <= p,
        p + enc_op(op).len() <= d.len(),
        d.subrange(p, p + enc_op(op).len()) == enc_op(op),
        op_fits(op),
    ensures
        dec_op(d, p) == Some((op, p + enc_op(op).len())),
{
    match op {
        OpModel::PrintInline => {
            let ghost e0 = seq![0x2du8];
            assert(enc_op(op) =~= e0);
            lemma_dec_u8_byte(d, p, 0x2du8);
        },
        _ => {},
    }
}

proof fn lemma_dec_op_enc_trystart(d: Seq<u8>, p: int, op: OpModel)
    requires
        op is TryStart,
        0 <= p,
        p + enc_op(op).len() <= d.len(),
        d.subrange(p, p + enc_op(op).len()) == enc_op(op),
        op_fits(op),
    ensures
        dec_op(d, p) == Some((op, p + enc_op(op).len())),
{
    match op {
        OpModel::TryStart(a) => {
            let ghost e0 = seq![0x2eu8];
            let ghost a1 = le32(a as u32);
            let ghost e1 = e0 + a1;
            assert(enc_op(op) =~= e1);
            lemma_split(d, p, e0, a1);
            lemma_dec_u8_byte(d, p, 0x2eu8);
            lemma_dec_u32_le32(d, p + e0.len(), a as u32);
        },
        _ => {},
    }
}

proof fn lemma_dec_op_enc_tryend(d: Seq<u8>, p: int, op: OpModel)
    requires
        op is TryEnd,
        0 <= p,
        p + enc_op(op).len() <= d.len(),
        d.subrange(p, p + enc_op(op).len()) == enc_op(op),
        op_fits(op),
    ensures
        dec_op(d, p) == Some((op, p + enc_op(op).len())),
{
    match op {
        OpModel::TryEnd => {
            let ghost e0 = seq![0x2fu8];
            assert(enc_op(op) =~= e0);
            lemma_dec_u8_byte(d, p, 0x2fu8);
        },
        _ => {},
    }
}

proof fn lemma_dec_op_enc_importfile(d: Seq<u8>, p: int, op: OpModel)
    requires
        op is ImportFile,
        0 <= p,
        p + enc_op(op).len() <= d.len(),
        d.subrange(p, p + enc_op(op).len()) == enc_op(op),
        op_fits(op),
    ensures
        dec_op(d, p) == Some((op, p + enc_op(op).len())),
{
    match op {
        OpModel::ImportFile(s) => {
            let ghost e0 = seq![0x30u8];
            let ghost a1 = enc_str(s);
            let ghost e1 = e0 + a1;
            assert(enc_op(op) =~= e1);
            lemma_split(d, p, e0, a1);
            lemma_dec_u8_byte(d, p, 0x30u8);
            lemma_dec_str_enc(d, p + e0.len(), s);
        },
        _ => {},
    }
}

proof fn lemma_dec_op_enc_makeclosure(d: Seq<u8>, p: int, op: OpModel)
    requires
        op is MakeClosure,
        0 <= p,
        p + enc_op(op).len() <= d.len(),
        d.subrange(p, p + enc_op(op).len()) == enc_op(op),
        op_fits(op),
    ensures
        dec_op(d, p) == Some((op, p + enc_op(op).len())),
{
    match op {
        OpModel::MakeClosure(s) => {
            let ghost e0 = seq![0x31u8];
            let ghost a1 = enc_str(s);
            let ghost e1 = e0 + a1;
            assert(enc_op(op) =~= e1);
            lemma_split(d, p, e0, a1);
            lemma_dec_u8_byte(d, p, 0x31u8);
            lemma_dec_str_enc(d, p + e0.len(), s);
        },
        _ => {},
    }
}

proof fn lemma_dec_op_enc_getiterlen(d: Seq<u8>, p: int, op: OpModel)
    requires
        op is GetIterLen,
        0 <= p,
        p + enc_op(op).len() <= d.len(),
        d.subrange(p, p + enc_op(op).len()) == enc_op(op),
        op_fits(op),
    ensures
        dec_op(d, p) == Some((op, p + enc_op(op).len())),
{
    match op {
        OpModel::GetIterLen => {
            let ghost e0 = seq![0x32u8];
            assert(enc_op(op) =~= e0);
            lemma_dec_u8_byte(d, p, 0x32u8);
        },
        _ => {},
    }
}

proof fn lemma_dec_op_enc_getiteritem(d: Seq<u8>, p: int, op: OpModel)
    requires
        op is GetIterItem,
        0 <= p,
        p + enc_op(op).len() <= d.len(),
        d.subrange(p, p + enc_op(op).len()) == enc_op(op),
        op_fits(op),
    ensures
        dec_op(d, p) == Some((op, p + enc_op(op).len())),
{
    match op {
        OpModel::GetIterItem => {
            let ghost e0 = seq![0x33u8];
            assert(enc_op(op) =~= e0);
            lemma_dec_u8_byte(d, p, 0x33u8);
        },
        _ => {},
    }
}

proof fn lemma_dec_op_enc_bitand(d: Seq<u8>, p: int, op: OpModel)
    requires
        op is BitAnd,
        0 <= p,
        p + enc_op(op).len() <= d.len(),
        d.subrange(p, p + enc_op(op).len()) == enc_op(op),
        op_fits(op),
    ensures
        dec_op(d, p) == Some((op, p + enc_op(op).len())),
{
    match op {
        OpModel::BitAnd => {
            let ghost e0 = seq![0x34u8];
            assert(enc_op(op) =~= e0);
            lemma_dec_u8_byte(d, p, 0x34u8);
        },
        _ => {},
    }
}

proof fn lemma_dec_op_enc_bitor(d: Seq<u8>, p: int, op: OpModel)
    requires
        op is BitOr,
        0 <= p,
        p + enc_op(op).len() <= d.len(),
        d.subrange(p, p + enc_op(op).len()) == enc_op(op),
        op_fits(op),
    ensures
        dec_op(d, p) == Some((op, p + enc_op(op).len())),
{
    match op {
        OpModel::BitOr => {
            let ghost e0 = seq![0x35u8];
            assert(enc_op(op) =~= e0);
            lemma_dec_u8_byte(d, p, 0x35u8);
        },
        _ => {},
    }
}

proof fn lemma_dec_op_enc_bitxor(d: Seq<u8>, p: int, op: OpModel)
    requires
        op is BitXor,
        0 <= p,
        p + enc_op(op).len() <= d.len(),
        d.subrange(p, p + enc_op(op).len()) == enc_op(op),
        op_fits(op),
    ensures
        dec_op(d, p) == Some((op, p + enc_op(op).len())),
{
    match op {
        OpModel::BitXor => {
            let ghost e0 = seq![0x36u8];
            assert(enc_op(op) =~= e0);
            lemma_dec_u8_byte(d, p, 0x36u8);
        },
        _ => {},
    }
}

proof fn lemma_dec_op_enc_bitnot(d: Seq<u8>, p: int, op: OpModel)
    requires
        op is BitNot,
        0 <= p,
        p + enc_op(op).len() <= d.len(),
        d.subrange(p, p + enc_op(op).len()) == enc_op(op),
        op_fits(op),
    ensures
        dec_op(d, p) == Some((op, p + enc_op(op).len())),
{
    match op {
        OpModel::BitNot => {
            let ghost e0 = seq![0x37u8];
            assert(enc_op(op) =~= e0);
            lemma_dec_u8_byte(d, p, 0x37u8);
        },
        _ => {},
    }
}

proof fn lemma_dec_op_enc_lshift(d: Seq<u8>, p: int, op: OpModel)
    requires
        op is LShift,
        0 <= p,
        p + enc_op(op).len() <= d.len(),
        d.subrange(p, p + enc_op(op).len()) == enc_op(op),
        op_fits(op),
    ensures
        dec_op(d, p) == Some((op, p + enc_op(op).len())),
{
    match op {
        OpModel::LShift => {
            let ghost e0 = seq![0x38u8];
            assert(enc_op(op) =~= e0);
            lemma_dec_u8_byte(d, p, 0x38u8);
        },
        _ => {},
    }
}

proof fn lemma_dec_op_enc_rshift(d: Seq<u8>, p: int, op: OpModel)
    requires
        op is RShift,
        0 <= p,
        p + enc_op(op).len() <= d.len(),
        d.subrange(p, p + enc_op(op).len()) == enc_op(op),
        op_fits(op),
    ensures
        dec_op(d, p) == Some((op, p + enc_op(op).len())),
{
    match op {
        OpModel::RShift => {
            let ghost e0 = seq![0x39u8];
            assert(enc_op(op) =~= e0);
            lemma_dec_u8_byte(d, p, 0x39u8);
        },
        _ => {},
    }
}

proof fn lemma_dec_op_enc_declareglobal(d: Seq<u8>, p: int, op: OpModel)
    requires
        op is DeclareGlobal,
        0 <= p,
        p + enc_op(op).len() <= d.len(),
        d.subrange(p, p + enc_op(op).len()) == enc_op(op),
        op_fits(op),
    ensures
        dec_op(d, p) == Some((op, p + enc_op(op).len())),
{
    match op {
        OpModel::DeclareGlobal(s) => {
            let ghost e0 = seq![0x3au8];
            let ghost a1 = enc_str(s);
            let ghost e1 = e0 + a1;
            assert(enc_op(op) =~= e1);
            lemma_split(d, p, e0, a1);
            lemma_dec_u8_byte(d, p, 0x3au8);
            lemma_dec_str_enc(d, p + e0.len(), s);
        },
        _ => {},
    }
}

proof fn lemma_dec_op_enc_defineenum(d: Seq<u8>, p: int, op: OpModel)
    requires
        op is DefineEnum,
        0 <= p,
        p + enc_op(op).len() <= d.len(),
        d.subrange(p, p + enc_op(op).len()) == enc_op(op),
        op_fits(op),
    ensures
        dec_op(d, p) == Some((op, p + enc_op(op).len())),
{
    match op {
        OpModel::DefineEnum(n, v) => {
            let ghost e0 = seq![0x3bu8];
            let ghost a1 = enc_str(n);
            let ghost e1 = e0 + a1;
            let ghost a2 = le32(v.len() as u32);
            let ghost e2 = e1 + a2;
            let ghost a3 = enc_vars(v);
            let ghost e3 = e2 + a3;
            assert(enc_op(op) =~= e3);
            lemma_split(d, p, e2, a3);
            lemma_split(d, p, e1, a2);
            lemma_split(d, p, e0, a1);
            lemma_dec_u8_byte(d, p, 0x3bu8);
            lemma_dec_str_enc(d, p + e0.len(), n);
            lemma_dec_u32_le32(d, p + e1.len(), v.len() as u32);
            lemma_dec_vars_enc(d, p + e2.len(), v);
        },
        _ => {},
    }
}

proof fn lemma_dec_op_enc_matchvariant(d: Seq<u8>, p: int, op: OpModel)
    requires
        op is MatchVariant,
        0 <= p,
        p + enc_op(op).len() <= d.len(),
        d.subrange(p, p + enc_op(op).len()) == enc_op(op),
        op_fits(op),
    ensures
        dec_op(d, p) == Some((op, p + enc_op(op).len())),
{
    match op {
        OpModel::MatchVariant(s) => {
            let ghost e0 = seq![0x3cu8];
            let ghost a1 = enc_str(s);
            let ghost e1 = e0 + a1;
            assert(enc_op(op) =~= e1);
            lemma_split(d, p, e0, a1);
            lemma_dec_u8_byte(d, p, 0x3cu8);
            lemma_dec_str_enc(d, p + e0.len(), s);
        },
        _ => {},
    }
}

proof fn lemma_dec_op_enc_enumunpack(d: Seq<u8>, p: int, op: OpModel)
    requires
        op is EnumUnpack,
        0 <= p,
        p + enc_op(op).len() <= d.len(),
        d.subrange(p, p + enc_op(op).len()) == enc_op(op),
        op_fits(op),
    ensures
        dec_op(d, p) == Some((op, p + enc_op(op).len())),
{
    match op {
        OpModel::EnumUnpack(v) => {
            let ghost e0 = seq![0x3du8];
            let ghost a1 = le32(v.len() as u32);
            let ghost e1 = e0 + a1;
            let ghost a2 = enc_strs(v);
            let ghost e2 = e1 + a2;
            assert(enc_op(op) =~= e2);
            lemma_split(d, p, e1, a2);
            lemma_split(d, p, e0, a1);
            lemma_dec_u8_byte(d, p, 0x3du8);
            lemma_dec_u32_le32(d, p + e0.len(), v.len() as u32);
            lemma_dec_strs_enc(d, p + e1.len(), v);
        },
        _ => {},
    }
}

proof fn lemma_dec_op_enc_tailcall(d: Seq<u8>, p: int, op: OpModel)
    requires
        op is TailCall,
        0 <= p,
        p + enc_op(op).len() <= d.len(),
        d.subrange(p, p + enc_op(op).len()) == enc_op(op),
        op_fits(op),
    ensures
        dec_op(d, p) == Some((op, p + enc_op(op).len())),
{
    match op {
        OpModel::TailCall(n, c) => {
            let ghost e0 = seq![0x3eu8];
            let ghost a1 = enc_str(n);
            let ghost e1 = e0 + a1;
            let ghost a2 = seq![c as u8];
            let ghost e2 = e1 + a2;
            assert(enc_op(op) =~= e2);
            lemma_split(d, p, e1, a2);
            lemma_split(d, p, e0, a1);
            lemma_dec_u8_byte(d, p, 0x3eu8);
            lemma_dec_str_enc(d, p + e0.len(), n);
            lemma_dec_u8_byte(d, p + e1.len(), c as u8);
        },
        _ => {},
    }
}

proof fn lemma_dec_op_enc_assert(d: Seq<u8>, p: int, op: OpModel)
    requires
        op is Assert,
        0 <= p,
        p + enc_op(op).len() <= d.len(),
        d.subrange(p, p + enc_op(op).len()) == enc_op(op),
        op_fits(op),
    ensures
        dec_op(d, p) == Some((op, p + enc_op(op).len())),
{
    match op {
        OpModel::Assert(m) => {
            let ghost e0 = seq![0x3fu8];
            let ghost a1 = enc_opt_str(m);
            let ghost e1 = e0 + a1;
            assert(enc_op(op) =~= e1);
            lemma_split(d, p, e0, a1);
            lemma_dec_u8_byte(d, p, 0x3fu8);
            lemma_dec_opt_str_enc(d, p + e0.len(), m);
        },
        _ => {},
    }
}

proof fn lemma_dec_op_enc_declareconst(d: Seq<u8>, p: int, op: OpModel)
    requires
        op is DeclareConst,
        0 <= p,
        p + enc_op(op).len() <= d.len(),
        d.subrange(p, p + enc_op(op).len()) == enc_op(op),
        op_fits(op),
    ensures
        dec_op(d, p) == Some((op, p + enc_op(op).len())),
{
    match op {
        OpModel::DeclareConst(s) => {
            let ghost e0 = seq![0x40u8];
            let ghost a1 = enc_str(s);
            let ghost e1 = e0 + a1;
            assert(enc_op(op) =~= e1);
            lemma_split(d, p, e0, a1);
            lemma_dec_u8_byte(d, p, 0x40u8);
            lemma_dec_str_enc(d, p + e0.len(), s);
        },
        _ => {},
    }
}

proof fn lemma_dec_op_enc_callkw(d: Seq<u8>, p: int, op: OpModel)
    requires
        op is CallKw,
        0 <= p,
        p + enc_op(op).len() <= d.len(),
        d.subrange(p, p + enc_op(op).len()) == enc_op(op),
        op_fits(op),
    ensures
        dec_op(d, p) == Some((op, p + enc_op(op).len())),
{
    match op {
        OpModel::CallKw(n, c, k) => {
            let ghost e0 = seq![0x41u8];
            let ghost a1 = enc_str(n);
            let ghost e1 = e0 + a1;
            let ghost a2 = seq![c as u8];
            let ghost e2 = e1 + a2;
            let ghost a3 = seq![k.len() as u8];
            let ghost e3 = e2 + a3;
            let ghost a4 = enc_strs(k);
            let ghost e4 = e3 + a4;
            assert(enc_op(op) =~= e4);
            lemma_split(d, p, e3, a4);
            lemma_split(d, p, e2, a3);
            lemma_split(d, p, e1, a2);
            lemma_split(d, p, e0, a1);
            lemma_dec_u8_byte(d, p, 0x41u8);
            lemma_dec_str_enc(d, p + e0.len(), n);
            lemma_dec_u8_byte(d, p + e1.len(), c as u8);
            lemma_dec_u8_byte(d, p + e2.len(), k.len() as u8);
            lemma_dec_strs_enc(d, p + e3.len(), k);
        },
        _ => {},
    }
}

proof fn lemma_dec_op_enc_floordiv(d: Seq<u8>, p: int, op: OpModel)
    requires
        op is FloorDiv,
        0 <= p,
        p + enc_op(op).len() <= d.len(),
        d.subrange(p, p + enc_op(op).len()) == enc_op(op),
        op_fits(op),
    ensures
        dec_op(d, p) == Some((op, p + enc_op(op).len())),
{
    match op {
        OpModel::FloorDiv => {
            let ghost e0 = seq![0x42u8];
            assert(enc_op(op) =~= e0);
            lemma_dec_u8_byte(d, p, 0x42u8);
        },
        _ => {},
    }
}

proof fn lemma_dec_op_enc_unpacklist(d: Seq<u8>, p: int, op: OpModel)
    requires
        op is UnpackList,
        0 <= p,
        p + enc_op(op).len() <= d.len(),
        d.subrange(p, p + enc_op(op).len()) == enc_op(op),
        op_fits(op),
    ensures
        dec_op(d, p) == Some((op, p + enc_op(op).len())),
{
    match op {
        OpModel::UnpackList(n) => {
            let ghost e0 = seq![0x43u8];
            let ghost a1 = seq![n as u8];
            let ghost e1 = e0 + a1;
            assert(enc_op(op) =~= e1);
            lemma_split(d, p, e0, a1);
            lemma_dec_u8_byte(d, p, 0x43u8);
            lemma_dec_u8_byte(d, p + e0.len(), n as u8);
        },
        _ => {},
    }
}

proof fn lemma_dec_op_enc_slice(d: Seq<u8>, p: int, op: OpModel)
    requires
        op is Slice,
        0 <= p,
        p + enc_op(op).len() <= d.len(),
        d.subrange(p, p + enc_op(op).len()) == enc_op(op),
        op_fits(op),
    ensures
        dec_op(d, p) == Some((op, p + enc_op(op).len())),
{
    match op {
        OpModel::Slice => {
            let ghost e0 = seq![0x44u8];
            assert(enc_op(op) =~= e0);
            lemma_dec_u8_byte(d, p, 0x44u8);
        },
        _ => {},
    }
}

proof fn lemma_dec_op_enc_contains(d: Seq<u8>, p: int, op: OpModel)
    requires
        op is Contains,
        0 <= p,
        p + enc_op(op).len() <= d.len(),
        d.subrange(p, p + enc_op(op).len()) == enc_op(op),
        op_fits(op),
    ensures
        dec_op(d, p) == Some((op, p + enc_op(op).len())),
{
    match op {
        OpModel::Contains => {
            let ghost e0 = seq![0x45u8];
            assert(enc_op(op) =~= e0);
            lemma_dec_u8_byte(d, p, 0x45u8);
        },
        _ => {},
    }
}

proof fn lemma_dec_op_enc_makelistsp(d: Seq<u8>, p: int, op: OpModel)
    requires
        op is MakeListSp,
        0 <= p,
        p + enc_op(op).len() <= d.len(),
        d.subrange(p, p + enc_op(op).len()) == enc_op(op),
        op_fits(op),
    ensures
        dec_op(d, p) == Some((op, p + enc_op(op).len())),
{
    match op {
        OpModel::MakeListSp(f) => {
            let ghost e0 = seq![0x46u8];
            let ghost a1 = seq![f.len() as u8];
            let ghost e1 = e0 + a1;
            let ghost a2 = enc_flags(f);
            let ghost e2 = e1 + a2;
            assert(enc_op(op) =~= e2);
            lemma_split(d, p, e1, a2);
            lemma_split(d, p, e0, a1);
            lemma_dec_u8_byte(d, p, 0x46u8);
            lemma_dec_u8_byte(d, p + e0.len(), f.len() as u8);
            lemma_dec_flags_enc(d, p + e1.len(), f);
        },
        _ => {},
    }
}

proof fn lemma_dec_op_enc_throw(d: Seq<u8>, p: int, op: OpModel)
    requires
        op is Throw,
        0 <= p,
        p + enc_op(op).len() <= d.len(),
        d.subrange(p, p + enc_op(op).len()) == enc_op(op),
        op_fits(op),
    ensures
        dec_op(d, p) == Some((op, p + enc_op(op).len())),
{
    match op {
        OpModel::Throw => {
            let ghost e0 = seq![0x47u8];
            assert(enc_op(op) =~= e0);
            lemma_dec_u8_byte(d, p, 0x47u8);
        },
        _ => {},
    }
}

proof fn lemma_dec_op_enc_matcherrclass(d: Seq<u8>, p: int, op: OpModel)
    requires
        op is MatchErrClass,
        0 <= p,
        p + enc_op(op).len() <= d.len(),
        d.subrange(p, p + enc_op(op).len()) == enc_op(op),
        op_fits(op),
    ensures
        dec_op(d, p) == Some((op, p + enc_op(op).len())),
{
    match op {
        OpModel::MatchErrClass(s) => {
            let ghost e0 = seq![0x48u8];
            let ghost a1 = enc_str(s);
            let ghost e1 = e0 + a1;
            assert(enc_op(op) =~= e1);
            lemma_split(d, p, e0, a1);
            lemma_dec_u8_byte(d, p, 0x48u8);
            lemma_dec_str_enc(d, p + e0.len(), s);
        },
        _ => {},
    }
}

proof fn lemma_dec_op_enc_iternext(d: Seq<u8>, p: int, op: OpModel)
    requires
        op is IterNext,
        0 <= p,
        p + enc_op(op).len() <= d.len(),
        d.subrange(p, p + enc_op(op).len()) == enc_op(op),
        op_fits(op),
    ensures
        dec_op(d, p) == Some((op, p + enc_op(op).len())),
{
    match op {
        OpModel::IterNext(a, b) => {
            let ghost e0 = seq![0x49u8];
            let ghost a1 = enc_str(a);
            let ghost e1 = e0 + a1;
            let ghost a2 = enc_str(b);
            let ghost e2 = e1 + a2;
            assert(enc_op(op) =~= e2);
            lemma_split(d, p, e1, a2);
            lemma_split(d, p, e0, a1);
            lemma_dec_u8_byte(d, p, 0x49u8);
            lemma_dec_str_enc(d, p + e0.len(), a);
            lemma_dec_str_enc(d, p + e1.len(), b);
        },
        _ => {},
    }
}

proof fn lemma_dec_op_enc_yield(d: Seq<u8>, p: int, op: OpModel)
    requires
        op is Yield,
        0 <= p,
        p + enc_op(op).len() <= d.len(),
        d.subrange(p, p + enc_op(op).len()) == enc_op(op),
        op_fits(op),
    ensures
        dec_op(d, p) == Some((op, p + enc_op(op).len())),
{
    match op {
        OpModel::Yield => {
            let ghost e0 = seq![0x4au8];
            assert(enc_op(op) =~= e0);
            lemma_dec_u8_byte(d, p, 0x4au8);
        },
        _ => {},
    }
}

proof fn lemma_dec_op_enc_iterstep(d: Seq<u8>, p: int, op: OpModel)
    requires
        op is IterStep,
        0 <= p,
        p + enc_op(op).len() <= d.len(),
        d.subrange(p, p + enc_op(op).len()) == enc_op(op),
        op_fits(op),
    ensures
        dec_op(d, p) == Some((op, p + enc_op(op).len())),
{
    match op {
        OpModel::IterStep { loop_var, container_var, idx_var } => {
            let ghost e0 = seq![0x4bu8];
            let ghost a1 = enc_str(loop_var);
            let ghost e1 = e0 + a1;
            let ghost a2 = enc_str(container_var);
            let ghost e2 = e1 + a2;
            let ghost a3 = enc_str(idx_var);
            let ghost e3 = e2 + a3;
            assert(enc_op(op) =~= e3);
            lemma_split(d, p, e2, a3);
            lemma_split(d, p, e1, a2);
            lemma_split(d, p, e0, a1);
            lemma_dec_u8_byte(d, p, 0x4bu8);
            lemma_dec_str_enc(d, p + e0.len(), loop_var);
            lemma_dec_str_enc(d, p + e1.len(), container_var);
            lemma_dec_str_enc(d, p + e2.len(), idx_var);
        },
        _ => {},
    }
}

proof fn lemma_dec_op_enc_methodcallkw(d: Seq<u8>, p: int, op: OpModel)
    requires
        op is MethodCallKw,
        0 <= p,
        p + enc_op(op).len() <= d.len(),
        d.subrange(p, p + enc_op(op).len()) == enc_op(op),
        op_fits(op),
    ensures
        dec_op(d, p) == Some((op, p + enc_op(op).len())),
{
    match op {
        OpModel::MethodCallKw { method, pos_argc, kwnames } => {
            let ghost e0 = seq![0x4cu8];
            let ghost a1 = enc_str(method);
            let ghost e1 = e0 + a1;
            let ghost a2 = seq![pos_argc as u8];
            let ghost e2 = e1 + a2;
            let ghost a3 = seq![kwnames.len() as u8];
            let ghost e3 = e2 + a3;
            let ghost a4 = enc_strs(kwnames);
            let ghost e4 = e3 + a4;
            assert(enc_op(op) =~= e4);
            lemma_split(d, p, e3, a4);
            lemma_split(d, p, e2, a3);
            lemma_split(d, p, e1, a2);
            lemma_split(d, p, e0, a1);
            lemma_dec_u8_byte(d, p, 0x4cu8);
            lemma_dec_str_enc(d, p + e0.len(), method);
            lemma_dec_u8_byte(d, p + e1.len(), pos_argc as u8);
            lemma_dec_u8_byte(d, p + e2.len(), kwnames.len() as u8);
            lemma_dec_strs_enc(d, p + e3.len(), kwnames);
        },
        _ => {},
    }
}

proof fn lemma_dec_op_enc_setslice(d: Seq<u8>, p: int, op: OpModel)
    requires
        op is SetSlice,
        0 <= p,
        p + enc_op(op).len() <= d.len(),
        d.subrange(p, p + enc_op(op).len()) == enc_op(op),
        op_fits(op),
    ensures
        dec_op(d, p) == Some((op, p + enc_op(op).len())),
{
    match op {
        OpModel::SetSlice => {
            let ghost e0 = seq![0x4du8];
            assert(enc_op(op) =~= e0);
            lemma_dec_u8_byte(d, p, 0x4du8);
        },
        _ => {},
    }
}

// ── Whole programs ───────────────────────────────────────────────────────────

pub open spec fn magic() -> Seq<u8> {
    seq![0x4Cu8, 0x49u8, 0x50u8, 0x49u8]
}

/// Per-parameter default flags: 1 and the value, or 0 (also for a parameter
/// past the end of `defaults`).
pub open spec fn enc_defaults(d: Seq<Option<ValModel>>, n: nat) -> Seq<u8>
    decreases n,
{
    if n == 0 {
        Seq::empty()
    } else {
        enc_defaults(d, (n - 1) as nat) + (if n - 1 < d.len() && d[n - 1] is Some {
            seq![1u8] + enc_val(d[n - 1]->0)
        } else {
            seq![0u8]
        })
    }
}

pub open spec fn enc_func(name: Seq<char>, f: FuncModel) -> Seq<u8> {
    enc_str(name) + seq![f.params.len() as u8] + enc_strs(f.params) + enc_defaults(
        f.defaults,
        f.params.len(),
    ) + enc_opt_str(f.vararg) + le64(f.start_ip as u64) + seq![enc_bool(f.is_generator)]
}

pub open spec fn enc_funcs(s: Seq<(Seq<char>, FuncModel)>) -> Seq<u8>
    decreases s.len(),
{
    if s.len() == 0 {
        Seq::empty()
    } else {
        enc_funcs(s.drop_last()) + enc_func(s.last().0, s.last().1)
    }
}

pub open spec fn enc_parents(s: Seq<(Seq<char>, Seq<char>)>) -> Seq<u8>
    decreases s.len(),
{
    if s.len() == 0 {
        Seq::empty()
    } else {
        enc_parents(s.drop_last()) + enc_str(s.last().0) + enc_str(s.last().1)
    }
}

pub open spec fn enc_ops(s: Seq<OpModel>) -> Seq<u8>
    decreases s.len(),
{
    if s.len() == 0 {
        Seq::empty()
    } else {
        enc_ops(s.drop_last()) + enc_op(s.last())
    }
}

/// One u32 line per instruction; a missing line is written as 0.
pub open spec fn enc_lines(l: Seq<u32>, n: nat) -> Seq<u8>
    decreases n,
{
    if n == 0 {
        Seq::empty()
    } else {
        enc_lines(l, (n - 1) as nat) + le32(
            if n - 1 < l.len() {
                l[n - 1]
            } else {
                0
            },
        )
    }
}

/// The bytes of a saved program (format version 5). Tables are written in
/// name order; counts are written as u32 (one byte for parameter counts).
pub open spec fn enc_program(p: ProgModel) -> Seq<u8> {
    magic() + seq![5u8] + le32(p.functions.len() as u32) + enc_funcs(p.functions) + le32(
        p.class_parents.len() as u32,
    ) + enc_parents(p.class_parents) + le32(p.instructions.len() as u32) + enc_ops(
        p.instructions,
    ) + enc_lines(p.lines, p.instructions.len())
}

pub open spec fn any_addr_overflow(s: Seq<OpModel>) -> bool {
    exists|i: int| 0 <= i < s.len() && addr_overflow(#[trigger] s[i])
}

// ── Reading programs ─────────────────────────────────────────────────────────

pub open spec fn dec_defaults(d: Seq<u8>, p: int, n: nat) -> Option<(Seq<Option<ValModel>>, int)>
    decreases n,
{
    if n == 0 {
        Some((Seq::empty(), p))
    } else {
        match dec_defaults(d, p, (n - 1) as nat) {
            Some((v, p1)) => match dec_u8(d, p1) {
                Some((flag, p2)) => if flag == 1 {
                    match dec_val(d, p2) {
                        Some((x, p3)) => Some((v.push(Some(x)), p3)),
                        None => None,
                    }
                } else {
                    Some((v.push(None), p2))
                },
                None => None,
            },
            None => None,
        }
    }
}

/// One function-table entry as a reader of format `ver` sees it: defaults
/// only from version 3, the generator flag only from version 5.
pub open spec fn dec_func(d: Seq<u8>, p: int, ver: u8) -> Option<((Seq<char>, FuncModel), int)> {
    match dec_str(d, p) {
        Some((name, p1)) => match dec_u8(d, p1) {
            Some((pc, p2)) => match dec_strs(d, p2, pc as nat) {
                Some((params, p3)) => match (if ver >= 3 {
                    dec_defaults(d, p3, pc as nat)
                } else {
                    Some((Seq::new(pc as nat, |i: int| None::<ValModel>), p3))
                }) {
                    Some((defaults, p4)) => match dec_opt_str(d, p4) {
                        Some((vararg, p5)) => match dec_u64(d, p5) {
                            Some((ip, p6)) => match (if ver >= 5 {
                                match dec_u8(d, p6) {
                                    Some((g, p7)) => Some((g == 1, p7)),
                                    None => None,
                                }
                            } else {
                                Some((false, p6))
                            }) {
                                Some((generator, p7)) => Some(
                                    (
                                        (
                                            name,
                                            FuncModel {
                                                params,
                                                start_ip: ip as usize,
                                                vararg,
                                                defaults,
                                                is_generator: generator,
                                            },
                                        ),
                                        p7,
                                    ),
                                ),
                                None => None,
                            },
                            None => None,
                        },
                        None => None,
                    },
                    None => None,
                },
                None => None,
            },
            None => None,
        },
        None => None,
    }
}

/// `n` function entries, each set into the table in file order (a later
/// entry for the same name replaces the earlier one).
pub open spec fn dec_funcs(d: Seq<u8>, p: int, n: nat, ver: u8) -> Option<
    (Seq<(Seq<char>, FuncModel)>, int),
>
    decreases n,
{
    if n == 0 {
        Some((Seq::empty(), p))
    } else {
        match dec_funcs(d, p, (n - 1) as nat, ver) {
            Some((t, p1)) => match dec_func(d, p1, ver) {
                Some((e, p2)) => Some((sorted_insert(t, e.0, e.1), p2)),
                None => None,
            },
            None => None,
        }
    }
}

pub open spec fn dec_parents(d: Seq<u8>, p: int, n: nat) -> Option<
    (Seq<(Seq<char>, Seq<char>)>, int),
>
    decreases n,
{
    if n == 0 {
        Some((Seq::empty(), p))
    } else {
        match dec_parents(d, p, (n - 1) as nat) {
            Some((t, p1)) => match dec_str(d, p1) {
                Some((c, p2)) => match dec_str(d, p2) {
                    Some((par, p3)) => Some((sorted_insert(t, c, par), p3)),
                    None => None,
                },
                None => None,
            },
            None => None,
        }
    }
}

pub open spec fn dec_ops(d: Seq<u8>, p: int, n: nat) -> Option<(Seq<OpModel>, int)>
    decreases n,
{
    if n == 0 {
        Some((Seq::empty(), p))
    } else {
        match dec_ops(d, p, (n - 1) as nat) {
            Some((t, p1)) => match dec_op(d, p1) {
                Some((o, p2)) => Some((t.push(o), p2)),
                None => None,
            },
            None => None,
        }
    }
}

pub open spec fn dec_lines(d: Seq<u8>, p: int, n: nat) -> Option<(Seq<u32>, int)>
    decreases n,
{
    if n == 0 {
        Some((Seq::empty(), p))
    } else {
        match dec_lines(d, p, (n - 1) as nat) {
            Some((t, p1)) => match dec_u32(d, p1) {
                Some((x, p2)) => Some((t.push(x), p2)),
                None => None,
            },
            None => None,
        }
    }
}

/// The program a reader makes of a `.libc` file: the magic, a version in
/// 2..=5, then the sections that version has. Class parents only from
/// version 3 and source lines only from version 4; absent lines read as 0.
/// Bytes after the last section are ignored.
pub open spec fn dec_program(d: Seq<u8>) -> Option<ProgModel> {
    if d.len() < 4 || d.subrange(0, 4) != magic() {
        None
    } else {
        match dec_u8(d, 4) {
            Some((ver, p1)) => if ver < 2 || ver > 5 {
                None
            } else {
                match dec_u32(d, p1) {
                    Some((nf, p2)) => match dec_funcs(d, p2, nf as nat, ver) {
                        Some((funcs, p3)) => match (if ver >= 3 {
                            match dec_u32(d, p3) {
                                Some((np, p4)) => dec_parents(d, p4, np as nat),
                                None => None,
                            }
                        } else {
                            Some((Seq::empty(), p3))
                        }) {
                            Some((parents, p5)) => match dec_u32(d, p5) {
                                Some((ni, p6)) => match dec_ops(d, p6, ni as nat) {
                                    Some((ops, p7)) => match (if ver >= 4 {
                                        dec_lines(d, p7, ni as nat)
                                    } else {
                                        Some((Seq::new(ni as nat, |i: int| 0u32), p7))
                                    }) {
                                        Some((lines, _)) => Some(
                                            ProgModel {
                                                instructions: ops,
                                                lines,
                                                functions: funcs,
                                                class_parents: parents,
                                            },
                                        ),
                                        None => None,
                                    },
                                    None => None,
                                },
                                None => None,
                            },
                            None => None,
                        },
                        None => None,
                    },
                    None => None,
                }
            },
            None => None,
        }
    }
}

// ── Writing and reading programs ─────────────────────────────────────────────

fn write_defaults(buf: &mut Vec<u8>, d: &Vec<Option<LvmValue>>, n: usize)
    ensures
        final(buf)@ == old(buf)@ + enc_defaults(defaults_view(d@), n as nat),
{
    let ghost start = buf@;
    let mut i: usize = 0;
    while i < n
        invariant
            i <= n,
            buf@ == start + enc_defaults(defaults_view(d@), i as nat),
        decreases n - i,
    {
        if i < d.len() {
            match &d[i] {
                None => write_u8(buf, 0),
                Some(v) => {
                    write_u8(buf, 1);
                    write_lvm_value(buf, v);
                },
            }
        } else {
            write_u8(buf, 0);
        }
        i = i + 1;
        assert(buf@ =~= start + enc_defaults(defaults_view(d@), i as nat));
    }
}

fn write_func(buf: &mut Vec<u8>, name: &String, def: &FuncDef)
    ensures
        final(buf)@ == old(buf)@ + enc_func(name@, def@),
{
    write_str(buf, name.as_str());
    write_u8(buf, def.params.len() as u8);
    write_strs(buf, &def.params);
    write_defaults(buf, &def.defaults, def.params.len());
    match &def.vararg {
        None => write_u8(buf, 0),
        Some(v) => {
            write_u8(buf, 1);
            write_str(buf, v.as_str());
        },
    }
    write_u64(buf, def.start_ip as u64);
    write_u8(buf, if def.is_generator { 1 } else { 0 });
    assert(buf@ =~= old(buf)@ + enc_func(name@, def@));
}

/// The bytes of a `.libc` file for `program` (format version 5), with the
/// function and class-parent tables in name order. Fails exactly when a jump
/// target does not fit in 32 bits.
pub fn encode_program(program: &CompiledProgram) -> (r: Result<Vec<u8>, String>)
    ensures
        r is Ok <==> !any_addr_overflow(program@.instructions),
        r matches Ok(b) ==> b@ == enc_program(program@),
{
    let mut buf: Vec<u8> = Vec::new();
    buf.push(0x4C);
    buf.push(0x49);
    buf.push(0x50);
    buf.push(0x49);
    write_u8(&mut buf, 5);
    let ghost head = buf@;
    let nf = program.functions.len();
    write_u32(&mut buf, nf as u32);
    let ghost fstart = buf@;
    let mut i: usize = 0;
    while i < nf
        invariant
            nf == program.functions@.len(),
            i <= nf,
            buf@ == fstart + enc_funcs(program.functions@.subrange(0, i as int)),
        decreases nf - i,
    {
        let (name, def) = program.functions.entry(i);
        write_func(&mut buf, name, def);
        i = i + 1;
        assert(program.functions@.subrange(0, i as int).drop_last() =~= program.functions@.subrange(
            0,
            i - 1,
        ));
    }
    assert(program.functions@.subrange(0, nf as int) =~= program.functions@);
    let np = program.class_parents.len();
    write_u32(&mut buf, np as u32);
    let ghost pstart = buf@;
    let mut i: usize = 0;
    while i < np
        invariant
            np == program.class_parents@.len(),
            i <= np,
            buf@ == pstart + enc_parents(program.class_parents@.subrange(0, i as int)),
        decreases np - i,
    {
        let (child, parent) = program.class_parents.entry(i);
        write_str(&mut buf, child.as_str());
        write_str(&mut buf, parent.as_str());
        i = i + 1;
        assert(program.class_parents@.subrange(0, i as int).drop_last()
            =~= program.class_parents@.subrange(0, i - 1));
        assert(buf@ =~= pstart + enc_parents(program.class_parents@.subrange(0, i as int)));
    }
    assert(program.class_parents@.subrange(0, np as int) =~= program.class_parents@);
    let ni = program.instructions.len();
    write_u32(&mut buf, ni as u32);
    let ghost ostart = buf@;
    let ghost ops = program@.instructions;
    let mut i: usize = 0;
    while i < ni
        invariant
            ni == program.instructions@.len(),
            ops == program@.instructions,
            i <= ni,
            buf@ == ostart + enc_ops(ops.subrange(0, i as int)),
            forall|j: int| 0 <= j < i ==> !addr_overflow(#[trigger] ops[j]),
        decreases ni - i,
    {
        match encode_op(&mut buf, &program.instructions[i]) {
            Ok(()) => {},
            Err(e) => {
                assert(addr_overflow(ops[i as int]));
                return Err(e);
            },
        }
        i = i + 1;
        assert(ops.subrange(0, i as int).drop_last() =~= ops.subrange(0, i - 1));
        assert(buf@ =~= ostart + enc_ops(ops.subrange(0, i as int)));
    }
    assert(ops.subrange(0, ni as int) =~= ops);
    let ghost lstart = buf@;
    let mut i: usize = 0;
    while i < ni
        invariant
            ni == program.instructions@.len(),
            i <= ni,
            buf@ == lstart + enc_lines(program.lines@, i as nat),
        decreases ni - i,
    {
        let l: u32 = if i < program.lines.len() {
            program.lines[i]
        } else {
            0
        };
        write_u32(&mut buf, l);
        i = i + 1;
    }
    assert(buf@ =~= enc_program(program@));
    Ok(buf)
}

fn read_defaults(data: &[u8], pos: &mut usize, n: usize) -> (r: Result<Vec<Option<LvmValue>>, String>)
    requires
        *old(pos) <= data@.len(),
    ensures
        *final(pos) <= data@.len(),
        match (r, dec_defaults(data@, *old(pos) as int, n as nat)) {
            (Ok(v), Some((w, p))) => defaults_view(v@) == w && *final(pos) == p,
            (Err(_), None) => true,
            _ => false,
        },
{
    let mut v: Vec<Option<LvmValue>> = Vec::new();
    let mut i: usize = 0;
    while i < n
        invariant
            i <= n,
            *pos <= data@.len(),
            dec_defaults(data@, *old(pos) as int, i as nat) == Some(
                (defaults_view(v@), *pos as int),
            ),
        decreases n - i,
    {
        let flag = match read_u8(data, pos) {
            Ok(f) => f,
            Err(e) => {
                proof {
                    lemma_dec_defaults_fail_later(data@, *old(pos) as int, i as nat, n as nat);
                }
                return Err(e);
            },
        };
        if flag == 1 {
            match read_lvm_value(data, pos) {
                Ok(x) => {
                    v.push(Some(x));
                },
                Err(e) => {
                    proof {
                        lemma_dec_defaults_fail_later(data@, *old(pos) as int, i as nat, n as nat);
                    }
                    return Err(e);
                },
            }
        } else {
            v.push(None);
        }
        i = i + 1;
        assert(defaults_view(v@) =~= defaults_view(v@.drop_last()).push(opt_val_view(v@.last())));
    }
    Ok(v)
}

proof fn lemma_dec_defaults_fail_later(d: Seq<u8>, p: int, i: nat, n: nat)
    requires
        i < n,
        dec_defaults(d, p, i) matches Some((_, q)) && (dec_u8(d, q) is None || (dec_u8(
            d,
            q,
        ).unwrap().0 == 1 && dec_val(d, dec_u8(d, q).unwrap().1) is None)),
    ensures
        dec_defaults(d, p, n) is None,
    decreases n - i,
{
    if i + 1 < n {
        lemma_dec_defaults_fail_later(d, p, i, (n - 1) as nat);
    }
}

fn read_func(data: &[u8], pos: &mut usize, ver: u8) -> (r: Result<(String, FuncDef), String>)
    requires
        *old(pos) <= data@.len(),
    ensures
        *final(pos) <= data@.len(),
        match (r, dec_func(data@, *old(pos) as int, ver)) {
            (Ok(e), Some((w, p))) => e.0@ == w.0 && e.1@ == w.1 && *final(pos) == p,
            (Err(_), None) => true,
            _ => false,
        },
{
    let name = read_str(data, pos)?;
    let pc = read_u8(data, pos)?;
    let params = read_strs(data, pos, pc as usize)?;
    let defaults = if ver >= 3 {
        read_defaults(data, pos, pc as usize)?
    } else {
        let mut d: Vec<Option<LvmValue>> = Vec::new();
        let mut i: usize = 0;
        while i < pc as usize
            invariant
                i <= pc,
                defaults_view(d@) == Seq::new(i as nat, |j: int| None::<ValModel>),
            decreases pc - i,
        {
            let ghost before = d@;
            d.push(None);
            assert(d@ =~= before.push(None));
            assert(defaults_view(d@) =~= defaults_view(before).push(None));
            i = i + 1;
            assert(defaults_view(d@) =~= Seq::new(i as nat, |j: int| None::<ValModel>));
        }
        d
    };
    let flag = read_u8(data, pos)?;
    let vararg = if flag == 1 {
        Some(read_str(data, pos)?)
    } else {
        None
    };
    let start_ip = #[verifier::truncate] (read_u64(data, pos)? as usize);
    let is_generator = if ver >= 5 {
        read_u8(data, pos)? == 1
    } else {
        false
    };
    Ok((name, FuncDef { params, start_ip, vararg, defaults, is_generator }))
}

fn read_funcs(data: &[u8], pos: &mut usize, n: u32, ver: u8) -> (r: Result<NameTable<FuncDef>, String>)
    requires
        *old(pos) <= data@.len(),
    ensures
        *final(pos) <= data@.len(),
        match (r, dec_funcs(data@, *old(pos) as int, n as nat, ver)) {
            (Ok(t), Some((w, p))) => t@ == w && *final(pos) == p,
            (Err(_), None) => true,
            _ => false,
        },
{
    let ghost p0 = *pos as int;
    let mut functions: NameTable<FuncDef> = NameTable::new();
    let mut i: usize = 0;
    while i < n as usize
        invariant
            *pos <= data@.len(),
            i <= n,
            p0 == *old(pos),
            dec_funcs(data@, p0, i as nat, ver) == Some((functions@, *pos as int)),
        decreases n - i,
    {
        match read_func(data, pos, ver) {
            Ok((name, def)) => {
                functions.insert(name, def);
            },
            Err(e) => {
                proof {
                    lemma_dec_funcs_fail_later(data@, p0, i as nat, n as nat, ver);
                }
                return Err(e);
            },
        }
        i = i + 1;
    }
    Ok(functions)
}

fn read_parents(data: &[u8], pos: &mut usize, n: u32) -> (r: Result<NameTable<String>, String>)
    requires
        *old(pos) <= data@.len(),
    ensures
        *final(pos) <= data@.len(),
        match (r, dec_parents(data@, *old(pos) as int, n as nat)) {
            (Ok(t), Some((w, p))) => t@ == w && *final(pos) == p,
            (Err(_), None) => true,
            _ => false,
        },
{
    let ghost p0 = *pos as int;
    let mut class_parents: NameTable<String> = NameTable::new();
    let mut i: usize = 0;
    while i < n as usize
        invariant
            *pos <= data@.len(),
            i <= n,
            p0 == *old(pos),
            dec_parents(data@, p0, i as nat) == Some((class_parents@, *pos as int)),
        decreases n - i,
    {
        let child = match read_str(data, pos) {
            Ok(c) => c,
            Err(e) => {
                proof {
                    lemma_dec_parents_fail_later(data@, p0, i as nat, n as nat);
                }
                return Err(e);
            },
        };
        let parent = match read_str(data, pos) {
            Ok(c) => c,
            Err(e) => {
                proof {
                    lemma_dec_parents_fail_later(data@, p0, i as nat, n as nat);
                }
                return Err(e);
            },
        };
        class_parents.insert(child, parent);
        i = i + 1;
    }
    Ok(class_parents)
}

fn read_ops(data: &[u8], pos: &mut usize, n: u32) -> (r: Result<Vec<Opcode>, String>)
    requires
        *old(pos) <= data@.len(),
    ensures
        *final(pos) <= data@.len(),
        match (r, dec_ops(data@, *old(pos) as int, n as nat)) {
            (Ok(v), Some((w, p))) => v@.map_values(|o: Opcode| o@) == w && *final(pos) == p,
            (Err(_), None) => true,
            _ => false,
        },
{
    let ghost p0 = *pos as int;
    let mut instructions: Vec<Opcode> = Vec::new();
    let mut i: usize = 0;
    while i < n as usize
        invariant
            *pos <= data@.len(),
            i <= n,
            p0 == *old(pos),
            dec_ops(data@, p0, i as nat) == Some(
                (instructions@.map_values(|o: Opcode| o@), *pos as int),
            ),
        decreases n - i,
    {
        match decode_op(data, pos) {
            Ok(op) => {
                let ghost before = instructions@;
                instructions.push(op);
                assert(instructions@ =~= before.push(op));
                assert(instructions@.map_values(|o: Opcode| o@) =~= before.map_values(
                    |o: Opcode| o@,
                ).push(op@));
            },
            Err(e) => {
                proof {
                    lemma_dec_ops_fail_later(data@, p0, i as nat, n as nat);
                }
                return Err(e);
            },
        }
        i = i + 1;
    }
    Ok(instructions)
}

fn read_lines(data: &[u8], pos: &mut usize, n: u32, ver: u8) -> (r: Result<Vec<u32>, String>)
    requires
        *old(pos) <= data@.len(),
    ensures
        *final(pos) <= data@.len(),
        match (r, if ver >= 4 {
            dec_lines(data@, *old(pos) as int, n as nat)
        } else {
            Some((Seq::new(n as nat, |i: int| 0u32), *old(pos) as int))
        }) {
            (Ok(v), Some((w, p))) => v@ == w && *final(pos) == p,
            (Err(_), None) => true,
            _ => false,
        },
{
    let ghost p0 = *pos as int;
    let mut lines: Vec<u32> = Vec::new();
    let mut i: usize = 0;
    while i < n as usize
        invariant
            *pos <= data@.len(),
            i <= n,
            p0 == *old(pos),
            ver >= 4 ==> dec_lines(data@, p0, i as nat) == Some((lines@, *pos as int)),
            ver < 4 ==> lines@ == Seq::new(i as nat, |j: int| 0u32) && *pos == p0,
        decreases n - i,
    {
        if ver >= 4 {
            match read_u32(data, pos) {
                Ok(l) => lines.push(l),
                Err(e) => {
                    proof {
                        lemma_dec_lines_fail_later(data@, p0, i as nat, n as nat);
                    }
                    return Err(e);
                },
            }
        } else {
            lines.push(0);
            assert(lines@ =~= Seq::new((i + 1) as nat, |j: int| 0u32));
        }
        i = i + 1;
    }
    Ok(lines)
}

/// Reads a `.libc` file image (format versions 2 to 5) into a program.
/// Succeeds exactly when the bytes form a program as `dec_program` reads it.
pub fn decode_program(data: &[u8]) -> (r: Result<CompiledProgram, String>)
    ensures
        match (r, dec_program(data@)) {
            (Ok(p), Some(m)) => p@ == m,
            (Err(_), None) => true,
            _ => false,
        },
{
    if data.len() < 4 || data[0] != 0x4C || data[1] != 0x49 || data[2] != 0x50 || data[3] != 0x49 {
        assert(data@.len() >= 4 ==> data@.subrange(0, 4) != magic()) by {
            if data@.len() >= 4 && data@.subrange(0, 4) == magic() {
                assert(data@[0] == data@.subrange(0, 4)[0]);
                assert(data@[1] == data@.subrange(0, 4)[1]);
                assert(data@[2] == data@.subrange(0, 4)[2]);
                assert(data@[3] == data@.subrange(0, 4)[3]);
            }
        }
        return Err("LIPI bytecode नहीं है".to_owned());
    }
    assert(data@.subrange(0, 4) =~= magic());
    let mut pos: usize = 4;
    let ver = read_u8(data, &mut pos)?;
    if ver < 2 || ver > 5 {
        return Err(number_message("असमर्थित bytecode संस्करण", ver));
    }
    let nf = read_u32(data, &mut pos)?;
    let functions = read_funcs(data, &mut pos, nf, ver)?;
    let class_parents = if ver >= 3 {
        let np = read_u32(data, &mut pos)?;
        read_parents(data, &mut pos, np)?
    } else {
        NameTable::new()
    };
    let ni = read_u32(data, &mut pos)?;
    let instructions = read_ops(data, &mut pos, ni)?;
    let lines = read_lines(data, &mut pos, ni, ver)?;
    let p = CompiledProgram { instructions, lines, functions, class_parents };
    Ok(p)
}

proof fn lemma_dec_funcs_fail_later(d: Seq<u8>, p: int, i: nat, n: nat, ver: u8)
    requires
        i < n,
        dec_funcs(d, p, i, ver) matches Some((_, q)) && dec_func(d, q, ver) is None,
    ensures
        dec_funcs(d, p, n, ver) is None,
    decreases n - i,
{
    if i + 1 < n {
        lemma_dec_funcs_fail_later(d, p, i, (n - 1) as nat, ver);
    }
}

proof fn lemma_dec_parents_fail_later(d: Seq<u8>, p: int, i: nat, n: nat)
    requires
        i < n,
        dec_parents(d, p, i) matches Some((_, q)) && (dec_str(d, q) is None || dec_str(
            d,
            dec_str(d, q).unwrap().1,
        ) is None),
    ensures
        dec_parents(d, p, n) is None,
    decreases n - i,
{
    if i + 1 < n {
        lemma_dec_parents_fail_later(d, p, i, (n - 1) as nat);
    }
}

proof fn lemma_dec_ops_fail_later(d: Seq<u8>, p: int, i: nat, n: nat)
    requires
        i < n,
        dec_ops(d, p, i) matches Some((_, q)) && dec_op(d, q) is None,
    ensures
        dec_ops(d, p, n) is None,
    decreases n - i,
{
    if i + 1 < n {
        lemma_dec_ops_fail_later(d, p, i, (n - 1) as nat);
    }
}

proof fn lemma_dec_lines_fail_later(d: Seq<u8>, p: int, i: nat, n: nat)
    requires
        i < n,
        dec_lines(d, p, i) matches Some((_, q)) && dec_u32(d, q) is None,
    ensures
        dec_lines(d, p, n) is None,
    decreases n - i,
{
    if i + 1 < n {
        lemma_dec_lines_fail_later(d, p, i, (n - 1) as nat);
    }
}

// ── Saving then loading gives the program back ───────────────────────────────

pub open spec fn defaults_fit(d: Seq<Option<ValModel>>) -> bool {
    forall|i: int| 0 <= i < d.len() ==> (#[trigger] d[i] matches Some(v) ==> val_fits(v))
}

pub open spec fn func_fits(name: Seq<char>, f: FuncModel) -> bool {
    &&& str_fits(name)
    &&& f.params.len() < 256
    &&& strs_fit(f.params)
    &&& f.defaults.len() == f.params.len()
    &&& defaults_fit(f.defaults)
    &&& (f.vararg matches Some(s) ==> str_fits(s))
}

/// Programs whose every part survives the file format: counts within the
/// widths they are written in, string byte lengths within `u32::MAX`, one
/// default slot per parameter, and one line per instruction.
pub open spec fn prog_fits(p: ProgModel) -> bool {
    &&& p.functions.len() <= u32::MAX
    &&& forall|i: int| 0 <= i < p.functions.len() ==> func_fits(#[trigger] p.functions[i].0, p.functions[i].1)
    &&& p.class_parents.len() <= u32::MAX
    &&& forall|i: int|
        0 <= i < p.class_parents.len() ==> str_fits(#[trigger] p.class_parents[i].0) && str_fits(
            p.class_parents[i].1,
        )
    &&& p.instructions.len() <= u32::MAX
    &&& forall|i: int| 0 <= i < p.instructions.len() ==> op_fits(#[trigger] p.instructions[i])
    &&& p.lines.len() == p.instructions.len()
}

proof fn lemma_dec_defaults_enc(d: Seq<u8>, p: int, v: Seq<Option<ValModel>>, n: nat)
    requires
        0 <= p,
        n <= v.len(),
        p + enc_defaults(v, n).len() <= d.len(),
        d.subrange(p, p + enc_defaults(v, n).len()) == enc_defaults(v, n),
        defaults_fit(v),
    ensures
        dec_defaults(d, p, n) == Some((v.subrange(0, n as int), p + enc_defaults(v, n).len())),
    decreases n,
{
    if n > 0 {
        let a = enc_defaults(v, (n - 1) as nat);
        let last = v[n - 1];
        let b = if last is Some {
            seq![1u8] + enc_val(last->0)
        } else {
            seq![0u8]
        };
        lemma_split(d, p, a, b);
        lemma_dec_defaults_enc(d, p, v, (n - 1) as nat);
        match last {
            Some(x) => {
                lemma_split(d, p + a.len(), seq![1u8], enc_val(x));
                lemma_dec_u8_byte(d, p + a.len(), 1u8);
                assert(val_fits(x));
                lemma_dec_val_enc(d, p + a.len() + 1, x);
            },
            None => {
                lemma_dec_u8_byte(d, p + a.len(), 0u8);
            },
        }
        assert(v.subrange(0, n - 1).push(last) =~= v.subrange(0, n as int));
    } else {
        assert(v.subrange(0, 0) =~= Seq::<Option<ValModel>>::empty());
    }
}

proof fn lemma_dec_func_enc(d: Seq<u8>, p: int, name: Seq<char>, f: FuncModel)
    requires
        0 <= p,
        p + enc_func(name, f).len() <= d.len(),
        d.subrange(p, p + enc_func(name, f).len()) == enc_func(name, f),
        func_fits(name, f),
    ensures
        dec_func(d, p, 5) == Some(((name, f), p + enc_func(name, f).len())),
{
    let e0 = enc_str(name);
    let a1 = seq![f.params.len() as u8];
    let e1 = e0 + a1;
    let a2 = enc_strs(f.params);
    let e2 = e1 + a2;
    let a3 = enc_defaults(f.defaults, f.params.len());
    let e3 = e2 + a3;
    let a4 = enc_opt_str(f.vararg);
    let e4 = e3 + a4;
    let a5 = le64(f.start_ip as u64);
    let e5 = e4 + a5;
    let a6 = seq![enc_bool(f.is_generator)];
    let e6 = e5 + a6;
    assert(enc_func(name, f) =~= e6);
    lemma_split(d, p, e5, a6);
    lemma_split(d, p, e4, a5);
    lemma_split(d, p, e3, a4);
    lemma_split(d, p, e2, a3);
    lemma_split(d, p, e1, a2);
    lemma_split(d, p, e0, a1);
    lemma_dec_str_enc(d, p, name);
    lemma_dec_u8_byte(d, p + e0.len(), f.params.len() as u8);
    lemma_dec_strs_enc(d, p + e1.len(), f.params);
    lemma_dec_defaults_enc(d, p + e2.len(), f.defaults, f.params.len());
    assert(f.defaults.subrange(0, f.params.len() as int) =~= f.defaults);
    lemma_dec_opt_str_enc(d, p + e3.len(), f.vararg);
    lemma_dec_u64_le64(d, p + e4.len(), f.start_ip as u64);
    lemma_dec_u8_byte(d, p + e5.len(), enc_bool(f.is_generator));
}

proof fn lemma_dec_funcs_enc(d: Seq<u8>, p: int, s: Seq<(Seq<char>, FuncModel)>)
    requires
        0 <= p,
        p + enc_funcs(s).len() <= d.len(),
        d.subrange(p, p + enc_funcs(s).len()) == enc_funcs(s),
        sorted_names(s),
        forall|i: int| 0 <= i < s.len() ==> func_fits(#[trigger] s[i].0, s[i].1),
    ensures
        dec_funcs(d, p, s.len(), 5) == Some((s, p + enc_funcs(s).len())),
    decreases s.len(),
{
    if s.len() > 0 {
        let t = s.drop_last();
        let a = enc_funcs(t);
        let b = enc_func(s.last().0, s.last().1);
        lemma_split(d, p, a, b);
        assert(sorted_names(t)) by {
            assert forall|i: int, j: int| 0 <= i < j < t.len() implies name_lt(
                #[trigger] t[i].0,
                #[trigger] t[j].0,
            ) by {
                assert(t[i] == s[i] && t[j] == s[j]);
            }
        }
        assert forall|i: int| 0 <= i < t.len() implies func_fits(#[trigger] t[i].0, t[i].1) by {
            assert(t[i] == s[i]);
        }
        lemma_dec_funcs_enc(d, p, t);
        assert(func_fits(s[s.len() - 1].0, s[s.len() - 1].1));
        lemma_dec_func_enc(d, p + a.len(), s.last().0, s.last().1);
        assert forall|i: int| 0 <= i < t.len() implies name_lt(#[trigger] t[i].0, s.last().0) by {
            assert(t[i] == s[i]);
        }
        lemma_insert_greatest(t, s.last().0, s.last().1);
        assert(t.push(s.last()) =~= s);
    }
}

proof fn lemma_dec_parents_enc(d: Seq<u8>, p: int, s: Seq<(Seq<char>, Seq<char>)>)
    requires
        0 <= p,
        p + enc_parents(s).len() <= d.len(),
        d.subrange(p, p + enc_parents(s).len()) == enc_parents(s),
        sorted_names(s),
        forall|i: int| 0 <= i < s.len() ==> str_fits(#[trigger] s[i].0) && str_fits(s[i].1),
    ensures
        dec_parents(d, p, s.len()) == Some((s, p + enc_parents(s).len())),
    decreases s.len(),
{
    if s.len() > 0 {
        let t = s.drop_last();
        let a = enc_parents(t);
        let b = enc_str(s.last().0);
        let c = enc_str(s.last().1);
        lemma_split(d, p, a + b, c);
        lemma_split(d, p, a, b);
        assert(sorted_names(t)) by {
            assert forall|i: int, j: int| 0 <= i < j < t.len() implies name_lt(
                #[trigger] t[i].0,
                #[trigger] t[j].0,
            ) by {
                assert(t[i] == s[i] && t[j] == s[j]);
            }
        }
        assert forall|i: int| 0 <= i < t.len() implies str_fits(#[trigger] t[i].0) && str_fits(
            t[i].1,
        ) by {
            assert(t[i] == s[i]);
        }
        lemma_dec_parents_enc(d, p, t);
        assert(str_fits(s[s.len() - 1].0) && str_fits(s[s.len() - 1].1));
        lemma_dec_str_enc(d, p + a.len(), s.last().0);
        lemma_dec_str_enc(d, p + a.len() + b.len(), s.last().1);
        assert forall|i: int| 0 <= i < t.len() implies name_lt(#[trigger] t[i].0, s.last().0) by {
            assert(t[i] == s[i]);
        }
        lemma_insert_greatest(t, s.last().0, s.last().1);
        assert(t.push(s.last()) =~= s);
    }
}

proof fn lemma_dec_ops_enc(d: Seq<u8>, p: int, s: Seq<OpModel>)
    requires
        0 <= p,
        p + enc_ops(s).len() <= d.len(),
        d.subrange(p, p + enc_ops(s).len()) == enc_ops(s),
        forall|i: int| 0 <= i < s.len() ==> op_fits(#[trigger] s[i]),
    ensures
        dec_ops(d, p, s.len()) == Some((s, p + enc_ops(s).len())),
    decreases s.len(),
{
    if s.len() > 0 {
        let t = s.drop_last();
        let a = enc_ops(t);
        let b = enc_op(s.last());
        lemma_split(d, p, a, b);
        assert forall|i: int| 0 <= i < t.len() implies op_fits(#[trigger] t[i]) by {
            assert(t[i] == s[i]);
        }
        lemma_dec_ops_enc(d, p, t);
        assert(op_fits(s[s.len() - 1]));
        lemma_dec_op_enc(d, p + a.len(), s.last());
        assert(t.push(s.last()) =~= s);
    }
}

proof fn lemma_dec_lines_enc(d: Seq<u8>, p: int, l: Seq<u32>, n: nat)
    requires
        0 <= p,
        n <= l.len(),
        p + enc_lines(l, n).len() <= d.len(),
        d.subrange(p, p + enc_lines(l, n).len()) == enc_lines(l, n),
    ensures
        dec_lines(d, p, n) == Some((l.subrange(0, n as int), p + enc_lines(l, n).len())),
    decreases n,
{
    if n > 0 {
        let a = enc_lines(l, (n - 1) as nat);
        let b = le32(l[n - 1]);
        lemma_split(d, p, a, b);
        lemma_dec_lines_enc(d, p, l, (n - 1) as nat);
        lemma_dec_u32_le32(d, p + a.len(), l[n - 1]);
        assert(l.subrange(0, n - 1).push(l[n - 1]) =~= l.subrange(0, n as int));
    } else {
        assert(l.subrange(0, 0) =~= Seq::<u32>::empty());
    }
}

proof fn lemma_dec_program_sections(
    d: Seq<u8>,
    nf: u32,
    np: u32,
    ni: u32,
    p3: int,
    p5: int,
    p7: int,
    q: int,
    m: ProgModel,
)
    requires
        d.len() >= 4,
        d.subrange(0, 4) == magic(),
        dec_u8(d, 4) == Some((5u8, 5int)),
        dec_u32(d, 5) == Some((nf, 9int)),
        dec_funcs(d, 9, nf as nat, 5) == Some((m.functions, p3)),
        dec_u32(d, p3) == Some((np, p3 + 4)),
        dec_parents(d, p3 + 4, np as nat) == Some((m.class_parents, p5)),
        dec_u32(d, p5) == Some((ni, p5 + 4)),
        dec_ops(d, p5 + 4, ni as nat) == Some((m.instructions, p7)),
        dec_lines(d, p7, ni as nat) == Some((m.lines, q)),
    ensures
        dec_program(d) == Some(m),
{
}

#[verifier::spinoff_prover]
#[verifier::rlimit(40)]
proof fn lemma_program_layout(p: ProgModel)
    ensures
        ({
            let d = enc_program(p);
            let o2: int = (9 + enc_funcs(p.functions).len()) as int;
            let o4: int = o2 + 4 + enc_parents(p.class_parents).len();
            let o6: int = o4 + 4 + enc_ops(p.instructions).len();
            let o7: int = o6 + enc_lines(p.lines, p.instructions.len()).len();
            &&& d.len() == o7
            &&& d.subrange(0, 4) == magic()
            &&& d[4] == 5u8
            &&& d.subrange(5, 9) == le32(p.functions.len() as u32)
            &&& d.subrange(9, o2) == enc_funcs(p.functions)
            &&& d.subrange(o2, o2 + 4) == le32(p.class_parents.len() as u32)
            &&& d.subrange(o2 + 4, o4) == enc_parents(p.class_parents)
            &&& d.subrange(o4, o4 + 4) == le32(p.instructions.len() as u32)
            &&& d.subrange(o4 + 4, o6) == enc_ops(p.instructions)
            &&& d.subrange(o6, o7) == enc_lines(p.lines, p.instructions.len())
        }),
{
    let d = enc_program(p);
    let a0 = magic() + seq![5u8];
    let a1 = le32(p.functions.len() as u32);
    let a2 = enc_funcs(p.functions);
    let a3 = le32(p.class_parents.len() as u32);
    let a4 = enc_parents(p.class_parents);
    let a5 = le32(p.instructions.len() as u32);
    let a6 = enc_ops(p.instructions);
    let a7 = enc_lines(p.lines, p.instructions.len());
    let e1 = a0 + a1;
    let e2 = e1 + a2;
    let e3 = e2 + a3;
    let e4 = e3 + a4;
    let e5 = e4 + a5;
    let e6 = e5 + a6;
    let e7 = e6 + a7;
    assert(d =~= e7);
    assert(d.subrange(0, d.len() as int) =~= d);
    lemma_split(d, 0, e6, a7);
    lemma_split(d, 0, e5, a6);
    lemma_split(d, 0, e4, a5);
    lemma_split(d, 0, e3, a4);
    lemma_split(d, 0, e2, a3);
    lemma_split(d, 0, e1, a2);
    lemma_split(d, 0, a0, a1);
    assert(d.subrange(0, 4) =~= magic());
    assert(d[4] == a0[4]);
}

/// Loading what was saved gives back the program: the function and class
/// tables, the instructions and the source lines, for every program whose
/// parts fit the file format's widths.
pub proof fn lemma_save_load_roundtrip(p: ProgModel)
    requires
        prog_fits(p),
        sorted_names(p.functions),
        sorted_names(p.class_parents),
    ensures
        dec_program(enc_program(p)) == Some(p),
{
    let d = enc_program(p);
    lemma_program_layout(p);
    let o2: int = (9 + enc_funcs(p.functions).len()) as int;
    let o4: int = o2 + 4 + enc_parents(p.class_parents).len();
    let o6: int = o4 + 4 + enc_ops(p.instructions).len();
    let o7: int = o6 + enc_lines(p.lines, p.instructions.len()).len();
    assert(dec_u8(d, 4) == Some((5u8, 5int)));
    lemma_dec_u32_le32(d, 5, p.functions.len() as u32);
    lemma_dec_funcs_enc(d, 9, p.functions);
    lemma_dec_u32_le32(d, o2, p.class_parents.len() as u32);
    lemma_dec_parents_enc(d, o2 + 4, p.class_parents);
    lemma_dec_u32_le32(d, o4, p.instructions.len() as u32);
    lemma_dec_ops_enc(d, o4 + 4, p.instructions);
    lemma_dec_lines_enc(d, o6, p.lines, p.instructions.len());
    assert(p.lines.subrange(0, p.instructions.len() as int) =~= p.lines);
    lemma_dec_program_sections(
        d,
        p.functions.len() as u32,
        p.class_parents.len() as u32,
        p.instructions.len() as u32,
        o2,
        o4,
        o6,
        o7,
        p,
    );
}

/// The defaults of `n` parameters: those given, then `None`.
pub open spec fn pad_defaults(d: Seq<Option<ValModel>>, n: nat) -> Seq<Option<ValModel>> {
    Seq::new(n, |i: int| if i < d.len() { d[i] } else { None })
}

/// One source line per instruction: those given, then 0.
pub open spec fn pad_lines(l: Seq<u32>, n: nat) -> Seq<u32> {
    Seq::new(n, |i: int| if i < l.len() { l[i] } else { 0 })
}

/// A function with one default slot per parameter.
pub open spec fn normal_func(f: FuncModel) -> FuncModel {
    FuncModel { defaults: pad_defaults(f.defaults, f.params.len()), ..f }
}

/// A program as a file holds it: one default slot per parameter and one
/// source line per instruction.
pub open spec fn normal_prog(p: ProgModel) -> ProgModel {
    ProgModel {
        functions: p.functions.map_values(|e: (Seq<char>, FuncModel)| (e.0, normal_func(e.1))),
        lines: pad_lines(p.lines, p.instructions.len()),
        ..p
    }
}

proof fn lemma_enc_defaults_pad(d: Seq<Option<ValModel>>, n: nat, k: nat)
    requires
        k <= n,
    ensures
        enc_defaults(d, k) == enc_defaults(pad_defaults(d, n), k),
    decreases k,
{
    if k > 0 {
        lemma_enc_defaults_pad(d, n, (k - 1) as nat);
    }
}

proof fn lemma_enc_lines_pad(l: Seq<u32>, n: nat, k: nat)
    requires
        k <= n,
    ensures
        enc_lines(l, k) == enc_lines(pad_lines(l, n), k),
    decreases k,
{
    if k > 0 {
        lemma_enc_lines_pad(l, n, (k - 1) as nat);
    }
}

proof fn lemma_enc_funcs_normal(s: Seq<(Seq<char>, FuncModel)>)
    ensures
        enc_funcs(s) == enc_funcs(s.map_values(|e: (Seq<char>, FuncModel)| (e.0, normal_func(e.1)))),
    decreases s.len(),
{
    let t = s.map_values(|e: (Seq<char>, FuncModel)| (e.0, normal_func(e.1)));
    if s.len() > 0 {
        let s0 = s.drop_last();
        lemma_enc_funcs_normal(s0);
        assert(t.drop_last() =~= s0.map_values(|e: (Seq<char>, FuncModel)| (e.0, normal_func(e.1))));
        let f = s.last().1;
        lemma_enc_defaults_pad(f.defaults, f.params.len(), f.params.len());
        assert(enc_func(s.last().0, f) == enc_func(t.last().0, t.last().1));
    }
}

/// Loading what was saved gives back the program as the file holds it, for
/// every program: each function's defaults cut or filled with `None` to one
/// per parameter, and the source lines cut or filled with 0 to one per
/// instruction; all else comes back as it was. (Its parts must fit the file
/// format's widths once so filled.)
pub proof fn law_save_load_normalises(p: ProgModel)
    requires
        prog_fits(normal_prog(p)),
        sorted_names(p.functions),
        sorted_names(p.class_parents),
    ensures
        dec_program(enc_program(p)) == Some(normal_prog(p)),
{
    let q = normal_prog(p);
    lemma_enc_funcs_normal(p.functions);
    lemma_enc_lines_pad(p.lines, p.instructions.len(), p.instructions.len());
    assert(enc_program(p) == enc_program(q));
    assert(sorted_names(q.functions)) by {
        assert forall|i: int, j: int| 0 <= i < j < q.functions.len() implies name_lt(
            #[trigger] q.functions[i].0,
            #[trigger] q.functions[j].0,
        ) by {
            assert(q.functions[i].0 == p.functions[i].0);
            assert(q.functions[j].0 == p.functions[j].0);
        }
    }
    lemma_save_load_roundtrip(q);
}

/// Decoding the bytes written for one instruction gives the instruction back
/// and stops at the end of those bytes, for every instruction whose parts fit
/// the widths they are written in.
pub proof fn law_op_roundtrip(op: OpModel)
    requires
        op_fits(op),
    ensures
        dec_op(enc_op(op), 0) == Some((op, enc_op(op).len() as int)),
{
    let d = enc_op(op);
    assert(d.subrange(0, d.len() as int) =~= d);
    lemma_dec_op_enc(d, 0, op);
}
} // verus!
