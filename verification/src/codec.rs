//! The compiled binary resource: a versioned, length-checked record
//! holding the keyword table and the two embedding tables.
//!
//! Layout, all counts and values little-endian: four magic bytes, one
//! version byte, one flags byte (bit zero: quantized storage), then
//! the keyword table and the two embedding tables, each a 64-bit entry
//! count followed by its entries in sorted key order.  A string is a
//! 64-bit character count and one 32-bit code point per character.  A
//! vector is a 16-bit dimension count and one component per dimension:
//! full storage keeps each component in 32 bits, quantized storage in
//! 16 bits at one sixty-fourth of the resolution — half the width,
//! with a drift of at most 32 fixed-point steps per component.
//!
//! Decoding validates everything it reads — magic, version, counts,
//! key order, component ranges, exact length — and refuses the
//! resource otherwise: a resolver never starts on a damaged resource.

use vstd::prelude::*;
use vstd::bytes::spec_u16_to_le_bytes;
use vstd::bytes::spec_u16_from_le_bytes;
use vstd::bytes::spec_u32_to_le_bytes;
use vstd::bytes::spec_u32_from_le_bytes;
use vstd::bytes::spec_u64_to_le_bytes;
use vstd::bytes::spec_u64_from_le_bytes;
use vstd::bytes::u16_from_le_bytes;
use vstd::bytes::u16_to_le_bytes;
use vstd::bytes::u32_from_le_bytes;
use vstd::bytes::u32_to_le_bytes;
use vstd::bytes::u64_from_le_bytes;
use vstd::bytes::u64_to_le_bytes;
use vstd::slice::slice_subrange;

use crate::ResourceError;
use crate::sim::COMP_LIMIT;
use crate::sim::Vector;
use crate::table::EmbedTable;
use crate::table::KeywordTable;
use crate::table::keys_sorted;
use crate::table::str_lt;
use crate::table::str_lt_exec;

verus! {

/// The leading magic bytes of a compiled resource.
pub open spec fn magic() -> Seq<u8> {
    seq![83u8, 83u8, 76u8, 89u8]
}

/// The one format version this build reads and writes.
pub const FORMAT_VERSION: u8 = 1;

/// Whether a 32-bit value is a Unicode scalar value, the codes that
/// characters carry.
pub open spec fn is_char_code(u: u32) -> bool {
    u < 0xD800 || (0xE000 <= u && u <= 0x10FFFF)
}

/// Relies on char::from_u32: `Some` exactly for Unicode scalar values
/// (not a surrogate, at most the largest char), and the returned
/// character carries the given code.
#[verifier::external_body]
fn char_from_u32(u: u32) -> (r: Option<char>)
    ensures
        r is Some <==> is_char_code(u),
        match r {
            Some(c) => c as u32 == u,
            None => true,
        },
{
    char::from_u32(u)
}

/// The quantized offset a component is stored as: nearest sixty-fourth
/// step, biased to be non-negative.
pub open spec fn qsnap_off(c: int) -> int {
    (c + 65568) / 64
}

/// The component a quantized offset stands for.
pub open spec fn qsnap(c: int) -> int {
    qsnap_off(c) * 64 - 65536
}

/// A vector's components after a quantized storage round trip.
pub open spec fn qsnap_comps(v: Seq<i64>) -> Seq<i64> {
    v.map_values(|c: i64| qsnap(c as int) as i64)
}

/// An embedding table's vectors after a quantized storage round trip.
pub open spec fn qsnap_table(t: Seq<(Seq<char>, Seq<i64>)>) -> Seq<(Seq<char>, Seq<i64>)> {
    t.map_values(|e: (Seq<char>, Seq<i64>)| (e.0, qsnap_comps(e.1)))
}

/// Law: quantized storage moves a component by at most 32 fixed-point
/// steps — the documented drift bound of half-precision storage.
pub proof fn lemma_qsnap_close(c: int)
    requires
        -COMP_LIMIT <= c <= COMP_LIMIT,
    ensures
        -32 < qsnap(c) - c <= 32,
        0 <= qsnap_off(c) <= 2048,
        -COMP_LIMIT <= qsnap(c) <= COMP_LIMIT,
{
    let u = c + 65568;
    vstd::arithmetic::div_mod::lemma_fundamental_div_mod(u, 64);
    vstd::arithmetic::div_mod::lemma_mod_bound(u, 64);
    assert(u == 64 * (u / 64) + u % 64);
}

/// The encoding of a string's characters from index `i` on.
pub open spec fn enc_chars(s: Seq<char>, i: int) -> Seq<u8>
    decreases s.len() - i,
{
    if i < 0 || i >= s.len() {
        Seq::empty()
    } else {
        spec_u32_to_le_bytes(s[i] as u32) + enc_chars(s, i + 1)
    }
}

/// The encoding of a string: character count, then code points.
pub open spec fn enc_str(s: Seq<char>) -> Seq<u8> {
    spec_u64_to_le_bytes(s.len() as u64) + enc_chars(s, 0)
}

/// The encoding of a vector's components from index `i` on.
pub open spec fn enc_comps(v: Seq<i64>, i: int, quant: bool) -> Seq<u8>
    decreases v.len() - i,
{
    if i < 0 || i >= v.len() {
        Seq::empty()
    } else if quant {
        spec_u16_to_le_bytes(qsnap_off(v[i] as int) as u16) + enc_comps(v, i + 1, quant)
    } else {
        spec_u32_to_le_bytes((v[i] + 65536) as u32) + enc_comps(v, i + 1, quant)
    }
}

/// The encoding of a vector: dimension count, then components.
pub open spec fn enc_vec(v: Seq<i64>, quant: bool) -> Seq<u8> {
    spec_u16_to_le_bytes(v.len() as u16) + enc_comps(v, 0, quant)
}

/// The encoding of the keyword entries from index `i` on.
pub open spec fn enc_kw_entries(kw: Seq<(Seq<char>, Seq<char>)>, i: int) -> Seq<u8>
    decreases kw.len() - i,
{
    if i < 0 || i >= kw.len() {
        Seq::empty()
    } else {
        enc_str(kw[i].0) + enc_str(kw[i].1) + enc_kw_entries(kw, i + 1)
    }
}

/// The encoding of the embedding entries from index `i` on.
pub open spec fn enc_emb_entries(emb: Seq<(Seq<char>, Seq<i64>)>, i: int, quant: bool) -> Seq<u8>
    decreases emb.len() - i,
{
    if i < 0 || i >= emb.len() {
        Seq::empty()
    } else {
        enc_str(emb[i].0) + enc_vec(emb[i].1, quant) + enc_emb_entries(emb, i + 1, quant)
    }
}

/// The whole resource a table triple encodes to.
pub open spec fn enc_resource(
    kw: Seq<(Seq<char>, Seq<char>)>,
    emb: Seq<(Seq<char>, Seq<i64>)>,
    sym: Seq<(Seq<char>, Seq<i64>)>,
    quant: bool,
) -> Seq<u8> {
    magic() + seq![FORMAT_VERSION, (if quant { 1u8 } else { 0u8 })] + spec_u64_to_le_bytes(
        kw.len() as u64,
    ) + enc_kw_entries(kw, 0) + spec_u64_to_le_bytes(emb.len() as u64) + enc_emb_entries(emb, 0, quant)
        + spec_u64_to_le_bytes(sym.len() as u64) + enc_emb_entries(sym, 0, quant)
}

/// Append a string's encoding to the output.
fn push_str(out: &mut Vec<u8>, s: &String)
    ensures
        final(out)@ == old(out)@ + enc_str(s@),
{
    let n: usize = s.as_str().unicode_len();
    let mut lenb = u64_to_le_bytes(n as u64);
    out.append(&mut lenb);
    let ghost base = out@;
    let mut i: usize = 0;
    proof {
        assert(out@ =~= base + enc_chars(s@, 0).take(0));
    }
    while i < n
        invariant
            0 <= i <= n,
            n == s@.len(),
            out@ + enc_chars(s@, i as int) == base + enc_chars(s@, 0),
        decreases n - i,
    {
        let c = s.as_str().get_char(i);
        let ghost before = out@;
        let mut cb = u32_to_le_bytes(c as u32);
        out.append(&mut cb);
        proof {
            assert(enc_chars(s@, i as int) == spec_u32_to_le_bytes(s@[i as int] as u32)
                + enc_chars(s@, i + 1));
            assert(out@ + enc_chars(s@, i + 1) =~= before + enc_chars(s@, i as int));
        }
        i = i + 1;
    }
    proof {
        assert(out@ =~= out@ + enc_chars(s@, n as int));
        assert(out@ =~= base + enc_chars(s@, 0));
        assert(base + enc_chars(s@, 0) =~= old(out)@ + enc_str(s@));
    }
}

/// Append a vector's encoding to the output.
fn push_vec(out: &mut Vec<u8>, v: &Vector, quant: bool)
    requires
        v.wf(),
    ensures
        final(out)@ == old(out)@ + enc_vec(v.comps@, quant),
{
    let n: usize = v.comps.len();
    let mut lenb = u16_to_le_bytes(n as u16);
    out.append(&mut lenb);
    let ghost base = out@;
    let mut i: usize = 0;
    while i < n
        invariant
            0 <= i <= n,
            n == v.comps@.len(),
            v.wf(),
            out@ + enc_comps(v.comps@, i as int, quant) == base + enc_comps(v.comps@, 0, quant),
        decreases n - i,
    {
        let c: i64 = v.comps[i];
        let ghost before = out@;
        proof {
            lemma_qsnap_close(c as int);
        }
        if quant {
            let off: i64 = (c + 65568) / 64;
            let mut cb = u16_to_le_bytes(off as u16);
            out.append(&mut cb);
        } else {
            let off: i64 = c + 65536;
            let mut cb = u32_to_le_bytes(off as u32);
            out.append(&mut cb);
        }
        proof {
            assert(out@ + enc_comps(v.comps@, i + 1, quant) =~= before + enc_comps(
                v.comps@,
                i as int,
                quant,
            ));
        }
        i = i + 1;
    }
    proof {
        assert(out@ =~= base + enc_comps(v.comps@, 0, quant));
        assert(base + enc_comps(v.comps@, 0, quant) =~= old(out)@ + enc_vec(v.comps@, quant));
    }
}

/// Encode a table triple into one resource.
pub fn encode_resource(
    kw: &KeywordTable,
    emb: &EmbedTable,
    sym: &EmbedTable,
    quant: bool,
) -> (out: Vec<u8>)
    requires
        kw.wf(),
        emb.wf(),
        sym.wf(),
    ensures
        out@ == enc_resource(kw.pairs(), emb.pairs(), sym.pairs(), quant),
{
    let mut out: Vec<u8> = Vec::new();
    out.push(83);
    out.push(83);
    out.push(76);
    out.push(89);
    out.push(FORMAT_VERSION);
    out.push(if quant {
        1
    } else {
        0
    });
    let ghost header = out@;
    proof {
        assert(header =~= magic() + seq![FORMAT_VERSION, (if quant { 1u8 } else { 0u8 })]);
    }
    let nk: usize = kw.len();
    let mut lenb = u64_to_le_bytes(nk as u64);
    out.append(&mut lenb);
    let ghost kwp = kw.pairs();
    let ghost base1 = out@;
    let mut i: usize = 0;
    while i < nk
        invariant
            0 <= i <= nk,
            nk == kwp.len(),
            kwp == kw.pairs(),
            kw.wf(),
            kw.keys@.len() == kw.syms@.len(),
            nk == kw.keys@.len(),
            out@ + enc_kw_entries(kwp, i as int) == base1 + enc_kw_entries(kwp, 0),
        decreases nk - i,
    {
        let ghost before = out@;
        push_str(&mut out, &kw.keys[i]);
        push_str(&mut out, &kw.syms[i]);
        proof {
            assert(kwp[i as int].0 == kw.keys@[i as int]@);
            assert(kwp[i as int].1 == kw.syms@[i as int]@);
            assert(out@ + enc_kw_entries(kwp, i + 1) =~= before + enc_kw_entries(kwp, i as int));
        }
        i = i + 1;
    }
    proof {
        assert(out@ =~= base1 + enc_kw_entries(kwp, 0));
    }
    let out = encode_emb_table(out, emb, quant);
    let out = encode_emb_table(out, sym, quant);
    proof {
        assert(out@ =~= enc_resource(kw.pairs(), emb.pairs(), sym.pairs(), quant));
    }
    out
}

/// Append one embedding table — count, then entries — to the output.
fn encode_emb_table(out0: Vec<u8>, t: &EmbedTable, quant: bool) -> (out: Vec<u8>)
    requires
        t.wf(),
    ensures
        out@ == out0@ + spec_u64_to_le_bytes(t.pairs().len() as u64) + enc_emb_entries(
            t.pairs(),
            0,
            quant,
        ),
{
    let mut out = out0;
    let ghost start = out@;
    let n: usize = t.len();
    let mut lenb = u64_to_le_bytes(n as u64);
    out.append(&mut lenb);
    let ghost tp = t.pairs();
    let ghost base = out@;
    let mut i: usize = 0;
    while i < n
        invariant
            0 <= i <= n,
            n == tp.len(),
            tp == t.pairs(),
            t.wf(),
            t.keys@.len() == t.vecs@.len(),
            n == t.keys@.len(),
            out@ + enc_emb_entries(tp, i as int, quant) == base + enc_emb_entries(tp, 0, quant),
        decreases n - i,
    {
        let ghost before = out@;
        push_str(&mut out, &t.keys[i]);
        proof {
            assert(tp[i as int].0 == t.keys@[i as int]@);
            assert(tp[i as int].1 == t.vecs@[i as int].comps@);
            assert(t.vecs@[i as int].wf());
        }
        push_vec(&mut out, &t.vecs[i], quant);
        proof {
            assert(out@ + enc_emb_entries(tp, i + 1, quant) =~= before + enc_emb_entries(
                tp,
                i as int,
                quant,
            ));
        }
        i = i + 1;
    }
    proof {
        assert(out@ =~= base + enc_emb_entries(tp, 0, quant));
        assert(out@ =~= start + spec_u64_to_le_bytes(tp.len() as u64) + enc_emb_entries(
            tp,
            0,
            quant,
        ));
    }
    out
}


/// Read a little-endian 64-bit count from the head of the bytes.
pub open spec fn dec_u64s(b: Seq<u8>) -> Result<(u64, Seq<u8>), ResourceError> {
    if b.len() >= 8 {
        Ok((spec_u64_from_le_bytes(b.take(8)), b.skip(8)))
    } else {
        Err(ResourceError::Truncated)
    }
}

/// Read a little-endian 32-bit value from the head of the bytes.
pub open spec fn dec_u32s(b: Seq<u8>) -> Result<(u32, Seq<u8>), ResourceError> {
    if b.len() >= 4 {
        Ok((spec_u32_from_le_bytes(b.take(4)), b.skip(4)))
    } else {
        Err(ResourceError::Truncated)
    }
}

/// Read a little-endian 16-bit value from the head of the bytes.
pub open spec fn dec_u16s(b: Seq<u8>) -> Result<(u16, Seq<u8>), ResourceError> {
    if b.len() >= 2 {
        Ok((spec_u16_from_le_bytes(b.take(2)), b.skip(2)))
    } else {
        Err(ResourceError::Truncated)
    }
}

/// Read `cnt` characters: each a 32-bit code that must be a Unicode
/// scalar value.
pub open spec fn dec_chars(b: Seq<u8>, cnt: int, acc: Seq<char>) -> Result<
    (Seq<char>, Seq<u8>),
    ResourceError,
>
    decreases cnt,
{
    if cnt <= 0 {
        Ok((acc, b))
    } else {
        match dec_u32s(b) {
            Err(e) => Err(e),
            Ok((u, r)) => {
                if is_char_code(u) {
                    dec_chars(r, cnt - 1, acc.push(u as char))
                } else {
                    Err(ResourceError::Corrupt)
                }
            },
        }
    }
}

/// Read a string: character count, then that many characters.
pub open spec fn dec_strs(b: Seq<u8>) -> Result<(Seq<char>, Seq<u8>), ResourceError> {
    match dec_u64s(b) {
        Err(e) => Err(e),
        Ok((n, r)) => dec_chars(r, n as int, Seq::empty()),
    }
}

/// Read `cnt` vector components in the storage width the flag names,
/// each offset-coded and range-checked.
pub open spec fn dec_comps(b: Seq<u8>, cnt: int, quant: bool, acc: Seq<i64>) -> Result<
    (Seq<i64>, Seq<u8>),
    ResourceError,
>
    decreases cnt,
{
    if cnt <= 0 {
        Ok((acc, b))
    } else if quant {
        match dec_u16s(b) {
            Err(e) => Err(e),
            Ok((e, r)) => {
                if e <= 2048 {
                    dec_comps(r, cnt - 1, quant, acc.push((e as int * 64 - 65536) as i64))
                } else {
                    Err(ResourceError::Corrupt)
                }
            },
        }
    } else {
        match dec_u32s(b) {
            Err(e) => Err(e),
            Ok((e, r)) => {
                if e <= 131072 {
                    dec_comps(r, cnt - 1, quant, acc.push((e as int - 65536) as i64))
                } else {
                    Err(ResourceError::Corrupt)
                }
            },
        }
    }
}

/// Read a vector: dimension count within the bound, then components.
pub open spec fn dec_vecs(b: Seq<u8>, quant: bool) -> Result<(Seq<i64>, Seq<u8>), ResourceError> {
    match dec_u16s(b) {
        Err(e) => Err(e),
        Ok((d, r)) => {
            if d <= 1024 {
                dec_comps(r, d as int, quant, Seq::empty())
            } else {
                Err(ResourceError::Corrupt)
            }
        },
    }
}

/// Read `cnt` keyword entries, each key strictly above the previous.
pub open spec fn dec_kw_entries(
    b: Seq<u8>,
    cnt: int,
    prev: Option<Seq<char>>,
    acc: Seq<(Seq<char>, Seq<char>)>,
) -> Result<(Seq<(Seq<char>, Seq<char>)>, Seq<u8>), ResourceError>
    decreases cnt,
{
    if cnt <= 0 {
        Ok((acc, b))
    } else {
        match dec_strs(b) {
            Err(e) => Err(e),
            Ok((k, r1)) => {
                if match prev {
                    Some(p) => str_lt(p, k),
                    None => true,
                } {
                    match dec_strs(r1) {
                        Err(e) => Err(e),
                        Ok((v, r2)) => dec_kw_entries(r2, cnt - 1, Some(k), acc.push((k, v))),
                    }
                } else {
                    Err(ResourceError::Corrupt)
                }
            },
        }
    }
}

/// Read `cnt` embedding entries, each key strictly above the previous.
pub open spec fn dec_emb_entries(
    b: Seq<u8>,
    cnt: int,
    quant: bool,
    prev: Option<Seq<char>>,
    acc: Seq<(Seq<char>, Seq<i64>)>,
) -> Result<(Seq<(Seq<char>, Seq<i64>)>, Seq<u8>), ResourceError>
    decreases cnt,
{
    if cnt <= 0 {
        Ok((acc, b))
    } else {
        match dec_strs(b) {
            Err(e) => Err(e),
            Ok((k, r1)) => {
                if match prev {
                    Some(p) => str_lt(p, k),
                    None => true,
                } {
                    match dec_vecs(r1, quant) {
                        Err(e) => Err(e),
                        Ok((v, r2)) => dec_emb_entries(r2, cnt - 1, quant, Some(k), acc.push((k, v))),
                    }
                } else {
                    Err(ResourceError::Corrupt)
                }
            },
        }
    }
}

/// Read one keyword table: entry count, then entries.
pub open spec fn dec_kw_table(b: Seq<u8>) -> Result<
    (Seq<(Seq<char>, Seq<char>)>, Seq<u8>),
    ResourceError,
> {
    match dec_u64s(b) {
        Err(e) => Err(e),
        Ok((n, r)) => dec_kw_entries(r, n as int, None, Seq::empty()),
    }
}

/// Read one embedding table: entry count, then entries.
pub open spec fn dec_emb_table(b: Seq<u8>, quant: bool) -> Result<
    (Seq<(Seq<char>, Seq<i64>)>, Seq<u8>),
    ResourceError,
> {
    match dec_u64s(b) {
        Err(e) => Err(e),
        Ok((n, r)) => dec_emb_entries(r, n as int, quant, None, Seq::empty()),
    }
}

/// Decode a whole resource: header, the three tables, and nothing
/// after them.
pub open spec fn dec_resource(b: Seq<u8>) -> Result<
    (Seq<(Seq<char>, Seq<char>)>, Seq<(Seq<char>, Seq<i64>)>, Seq<(Seq<char>, Seq<i64>)>, bool),
    ResourceError,
> {
    if b.len() < 6 {
        Err(ResourceError::Truncated)
    } else if b.take(4) != magic() {
        Err(ResourceError::BadMagic)
    } else if b[4] != FORMAT_VERSION {
        Err(ResourceError::BadVersion)
    } else if b[5] > 1 {
        Err(ResourceError::Corrupt)
    } else {
        let quant = b[5] == 1;
        match dec_kw_table(b.skip(6)) {
            Err(e) => Err(e),
            Ok((kw, r2)) => match dec_emb_table(r2, quant) {
                Err(e) => Err(e),
                Ok((emb, r4)) => match dec_emb_table(r4, quant) {
                    Err(e) => Err(e),
                    Ok((sym, r6)) => {
                        if r6.len() == 0 {
                            Ok((kw, emb, sym, quant))
                        } else {
                            Err(ResourceError::Corrupt)
                        }
                    },
                },
            },
        }
    }
}

/// Read a 64-bit count at `pos`.
fn read_u64(b: &[u8], pos: usize) -> (r: Result<(u64, usize), ResourceError>)
    requires
        pos <= b@.len(),
    ensures
        match r {
            Ok((x, p2)) => dec_u64s(b@.skip(pos as int)) == Ok::<(u64, Seq<u8>), ResourceError>(
                (x, b@.skip(p2 as int)),
            ) && pos < p2 <= b@.len(),
            Err(e) => dec_u64s(b@.skip(pos as int)) == Err::<(u64, Seq<u8>), ResourceError>(e),
        },
{
    if b.len() - pos >= 8 {
        let sl = slice_subrange(b, pos, pos + 8);
        let x = u64_from_le_bytes(sl);
        proof {
            assert(b@.skip(pos as int).take(8) =~= b@.subrange(pos as int, pos + 8));
            assert(b@.skip(pos as int).skip(8) =~= b@.skip(pos + 8));
        }
        Ok((x, pos + 8))
    } else {
        Err(ResourceError::Truncated)
    }
}

/// Read a 32-bit value at `pos`.
fn read_u32(b: &[u8], pos: usize) -> (r: Result<(u32, usize), ResourceError>)
    requires
        pos <= b@.len(),
    ensures
        match r {
            Ok((x, p2)) => dec_u32s(b@.skip(pos as int)) == Ok::<(u32, Seq<u8>), ResourceError>(
                (x, b@.skip(p2 as int)),
            ) && pos < p2 <= b@.len(),
            Err(e) => dec_u32s(b@.skip(pos as int)) == Err::<(u32, Seq<u8>), ResourceError>(e),
        },
{
    if b.len() - pos >= 4 {
        let sl = slice_subrange(b, pos, pos + 4);
        let x = u32_from_le_bytes(sl);
        proof {
            assert(b@.skip(pos as int).take(4) =~= b@.subrange(pos as int, pos + 4));
            assert(b@.skip(pos as int).skip(4) =~= b@.skip(pos + 4));
        }
        Ok((x, pos + 4))
    } else {
        Err(ResourceError::Truncated)
    }
}

/// Read a 16-bit value at `pos`.
fn read_u16(b: &[u8], pos: usize) -> (r: Result<(u16, usize), ResourceError>)
    requires
        pos <= b@.len(),
    ensures
        match r {
            Ok((x, p2)) => dec_u16s(b@.skip(pos as int)) == Ok::<(u16, Seq<u8>), ResourceError>(
                (x, b@.skip(p2 as int)),
            ) && pos < p2 <= b@.len(),
            Err(e) => dec_u16s(b@.skip(pos as int)) == Err::<(u16, Seq<u8>), ResourceError>(e),
        },
{
    if b.len() - pos >= 2 {
        let sl = slice_subrange(b, pos, pos + 2);
        let x = u16_from_le_bytes(sl);
        proof {
            assert(b@.skip(pos as int).take(2) =~= b@.subrange(pos as int, pos + 2));
            assert(b@.skip(pos as int).skip(2) =~= b@.skip(pos + 2));
        }
        Ok((x, pos + 2))
    } else {
        Err(ResourceError::Truncated)
    }
}

/// Read a string at `pos`.
fn read_str(b: &[u8], pos: usize) -> (r: Result<(String, usize), ResourceError>)
    requires
        pos <= b@.len(),
    ensures
        match r {
            Ok((s, p2)) => dec_strs(b@.skip(pos as int)) == Ok::<(Seq<char>, Seq<u8>), ResourceError>(
                (s@, b@.skip(p2 as int)),
            ) && pos <= p2 <= b@.len(),
            Err(e) => dec_strs(b@.skip(pos as int)) == Err::<(Seq<char>, Seq<u8>), ResourceError>(e),
        },
{
    let (n, p1) = match read_u64(b, pos) {
        Ok(v) => v,
        Err(e) => {
            return Err(e);
        },
    };
    let ghost target = dec_chars(b@.skip(p1 as int), n as int, Seq::<char>::empty());
    let mut acc: Vec<char> = Vec::new();
    let mut k: u64 = 0;
    let mut p: usize = p1;
    proof {
        assert(acc@ =~= Seq::<char>::empty());
    }
    while k < n
        invariant
            0 <= k <= n,
            pos <= p <= b@.len(),
            dec_chars(b@.skip(p as int), (n - k) as int, acc@) == target,
            target == dec_chars(b@.skip(p1 as int), n as int, Seq::<char>::empty()),
            dec_strs(b@.skip(pos as int)) == target,
        decreases n - k,
    {
        let ghost acc0 = acc@;
        let (u, p2) = match read_u32(b, p) {
            Ok(v) => v,
            Err(e) => {
                return Err(e);
            },
        };
        match char_from_u32(u) {
            Some(c) => {
                acc.push(c);
                proof {
                    vstd::utf8::char_u32_cast(c, u);
                    assert(acc@ =~= acc0.push(u as char));
                }
                p = p2;
            },
            None => {
                return Err(ResourceError::Corrupt);
            },
        }
        k = k + 1;
    }
    let s = crate::text::string_from_chars(&acc);
    Ok((s, p))
}

/// Read a vector at `pos`.
fn read_vec(b: &[u8], pos: usize, quant: bool) -> (r: Result<(Vector, usize), ResourceError>)
    requires
        pos <= b@.len(),
    ensures
        match r {
            Ok((v, p2)) => dec_vecs(b@.skip(pos as int), quant) == Ok::<
                (Seq<i64>, Seq<u8>),
                ResourceError,
            >((v.comps@, b@.skip(p2 as int))) && pos <= p2 <= b@.len() && v.wf(),
            Err(e) => dec_vecs(b@.skip(pos as int), quant) == Err::<
                (Seq<i64>, Seq<u8>),
                ResourceError,
            >(e),
        },
{
    let (d, p1) = match read_u16(b, pos) {
        Ok(v) => v,
        Err(e) => {
            return Err(e);
        },
    };
    if d > 1024 {
        return Err(ResourceError::Corrupt);
    }
    let ghost target = dec_comps(b@.skip(p1 as int), d as int, quant, Seq::<i64>::empty());
    let mut acc: Vec<i64> = Vec::new();
    let mut k: u16 = 0;
    let mut p: usize = p1;
    proof {
        assert(acc@ =~= Seq::<i64>::empty());
    }
    while k < d
        invariant
            0 <= k <= d <= 1024,
            pos <= p <= b@.len(),
            acc@.len() == k,
            forall|i: int| 0 <= i < k ==> -COMP_LIMIT <= #[trigger] acc@[i] <= COMP_LIMIT,
            dec_comps(b@.skip(p as int), (d - k) as int, quant, acc@) == target,
            target == dec_vecs(b@.skip(pos as int), quant),
        decreases d - k,
    {
        let ghost acc0 = acc@;
        if quant {
            let (e, p2) = match read_u16(b, p) {
                Ok(v) => v,
                Err(er) => {
                    return Err(er);
                },
            };
            if e > 2048 {
                return Err(ResourceError::Corrupt);
            }
            let c: i64 = (e as i64) * 64 - 65536;
            acc.push(c);
            proof {
                assert(acc@ =~= acc0.push((e as int * 64 - 65536) as i64));
            }
            p = p2;
        } else {
            let (e, p2) = match read_u32(b, p) {
                Ok(v) => v,
                Err(er) => {
                    return Err(er);
                },
            };
            if e > 131072 {
                return Err(ResourceError::Corrupt);
            }
            let c: i64 = (e as i64) - 65536;
            acc.push(c);
            proof {
                assert(acc@ =~= acc0.push((e as int - 65536) as i64));
            }
            p = p2;
        }
        k = k + 1;
    }
    let v = Vector { comps: acc };
    Ok((v, p))
}


/// Read a keyword table at `pos`, checking strict key order.
fn read_kw_table(b: &[u8], pos: usize) -> (r: Result<(KeywordTable, usize), ResourceError>)
    requires
        pos <= b@.len(),
    ensures
        match r {
            Ok((t, p2)) => t.wf() && dec_kw_table(b@.skip(pos as int)) == Ok::<
                (Seq<(Seq<char>, Seq<char>)>, Seq<u8>),
                ResourceError,
            >((t.pairs(), b@.skip(p2 as int))) && pos <= p2 <= b@.len(),
            Err(e) => dec_kw_table(b@.skip(pos as int)) == Err::<
                (Seq<(Seq<char>, Seq<char>)>, Seq<u8>),
                ResourceError,
            >(e),
        },
{
    let (n, p1) = match read_u64(b, pos) {
        Ok(v) => v,
        Err(e) => {
            return Err(e);
        },
    };
    let mut keys: Vec<String> = Vec::new();
    let mut syms: Vec<String> = Vec::new();
    let ghost target = dec_kw_entries(
        b@.skip(p1 as int),
        n as int,
        None,
        Seq::<(Seq<char>, Seq<char>)>::empty(),
    );
    let ghost mut acc: Seq<(Seq<char>, Seq<char>)> = Seq::empty();
    let mut k: u64 = 0;
    let mut p: usize = p1;
    while k < n
        invariant
            0 <= k <= n,
            pos <= p <= b@.len(),
            keys@.len() == syms@.len(),
            keys@.len() == acc.len(),
            acc =~= Seq::new(keys@.len() as nat, |i: int| (keys@[i]@, syms@[i]@)),
            keys_sorted(acc),
            dec_kw_entries(
                b@.skip(p as int),
                (n - k) as int,
                if acc.len() == 0 {
                    None
                } else {
                    Some(acc.last().0)
                },
                acc,
            ) == target,
            target == dec_kw_table(b@.skip(pos as int)),
        decreases n - k,
    {
        let ghost acc0 = acc;
        let (key, pa) = match read_str(b, p) {
            Ok(v) => v,
            Err(e) => {
                return Err(e);
            },
        };
        if keys.len() > 0 {
            let lastk = &keys[keys.len() - 1];
            if !str_lt_exec(lastk.as_str(), key.as_str()) {
                return Err(ResourceError::Corrupt);
            }
        }
        let (val, pb) = match read_str(b, pa) {
            Ok(v) => v,
            Err(e) => {
                return Err(e);
            },
        };
        proof {
            assert(dec_kw_entries(
                b@.skip(p as int),
                (n - k) as int,
                if acc0.len() == 0 {
                    None
                } else {
                    Some(acc0.last().0)
                },
                acc0,
            ) == dec_kw_entries(b@.skip(pb as int), (n - k) - 1, Some(key@), acc0.push((key@, val@))));
            assert forall|i: int, j: int| 0 <= i < j < acc0.push((key@, val@)).len() implies str_lt(
                #[trigger] acc0.push((key@, val@))[i].0,
                #[trigger] acc0.push((key@, val@))[j].0,
            ) by {
                if j < acc0.len() {
                } else if i < acc0.len() - 1 {
                    crate::table::lemma_str_lt_trans(acc0[i].0, acc0.last().0, key@);
                }
            }
            acc = acc0.push((key@, val@));
        }
        keys.push(key);
        syms.push(val);
        proof {
            assert(acc =~= Seq::new(keys@.len() as nat, |i: int| (keys@[i]@, syms@[i]@)));
        }
        p = pb;
        k = k + 1;
    }
    let t = KeywordTable { keys, syms };
    proof {
        assert(t.pairs() =~= acc);
    }
    Ok((t, p))
}

/// Read an embedding table at `pos`, checking strict key order and
/// component bounds.
fn read_emb_table(b: &[u8], pos: usize, quant: bool) -> (r: Result<
    (EmbedTable, usize),
    ResourceError,
>)
    requires
        pos <= b@.len(),
    ensures
        match r {
            Ok((t, p2)) => t.wf() && dec_emb_table(b@.skip(pos as int), quant) == Ok::<
                (Seq<(Seq<char>, Seq<i64>)>, Seq<u8>),
                ResourceError,
            >((t.pairs(), b@.skip(p2 as int))) && pos <= p2 <= b@.len(),
            Err(e) => dec_emb_table(b@.skip(pos as int), quant) == Err::<
                (Seq<(Seq<char>, Seq<i64>)>, Seq<u8>),
                ResourceError,
            >(e),
        },
{
    let (n, p1) = match read_u64(b, pos) {
        Ok(v) => v,
        Err(e) => {
            return Err(e);
        },
    };
    let mut keys: Vec<String> = Vec::new();
    let mut vecs: Vec<Vector> = Vec::new();
    let ghost target = dec_emb_entries(
        b@.skip(p1 as int),
        n as int,
        quant,
        None,
        Seq::<(Seq<char>, Seq<i64>)>::empty(),
    );
    let ghost mut acc: Seq<(Seq<char>, Seq<i64>)> = Seq::empty();
    let mut k: u64 = 0;
    let mut p: usize = p1;
    while k < n
        invariant
            0 <= k <= n,
            pos <= p <= b@.len(),
            keys@.len() == vecs@.len(),
            keys@.len() == acc.len(),
            acc =~= Seq::new(keys@.len() as nat, |i: int| (keys@[i]@, vecs@[i].comps@)),
            forall|i: int| 0 <= i < vecs@.len() ==> (#[trigger] vecs@[i]).wf(),
            keys_sorted(acc),
            dec_emb_entries(
                b@.skip(p as int),
                (n - k) as int,
                quant,
                if acc.len() == 0 {
                    None
                } else {
                    Some(acc.last().0)
                },
                acc,
            ) == target,
            target == dec_emb_table(b@.skip(pos as int), quant),
        decreases n - k,
    {
        let ghost acc0 = acc;
        let (key, pa) = match read_str(b, p) {
            Ok(v) => v,
            Err(e) => {
                return Err(e);
            },
        };
        if keys.len() > 0 {
            let lastk = &keys[keys.len() - 1];
            if !str_lt_exec(lastk.as_str(), key.as_str()) {
                return Err(ResourceError::Corrupt);
            }
        }
        let (vec, pb) = match read_vec(b, pa, quant) {
            Ok(v) => v,
            Err(e) => {
                return Err(e);
            },
        };
        proof {
            assert(dec_emb_entries(
                b@.skip(p as int),
                (n - k) as int,
                quant,
                if acc0.len() == 0 {
                    None
                } else {
                    Some(acc0.last().0)
                },
                acc0,
            ) == dec_emb_entries(
                b@.skip(pb as int),
                (n - k) - 1,
                quant,
                Some(key@),
                acc0.push((key@, vec.comps@)),
            ));
            assert forall|i: int, j: int|
                0 <= i < j < acc0.push((key@, vec.comps@)).len() implies str_lt(
                #[trigger] acc0.push((key@, vec.comps@))[i].0,
                #[trigger] acc0.push((key@, vec.comps@))[j].0,
            ) by {
                if j < acc0.len() {
                } else if i < acc0.len() - 1 {
                    crate::table::lemma_str_lt_trans(acc0[i].0, acc0.last().0, key@);
                }
            }
            acc = acc0.push((key@, vec.comps@));
        }
        keys.push(key);
        vecs.push(vec);
        proof {
            assert(acc =~= Seq::new(keys@.len() as nat, |i: int| (keys@[i]@, vecs@[i].comps@)));
        }
        p = pb;
        k = k + 1;
    }
    let t = EmbedTable { keys, vecs };
    proof {
        assert(t.pairs() =~= acc);
    }
    Ok((t, p))
}

/// Decode a compiled resource into its three tables and its storage
/// flag; `Ok` exactly when the resource is structurally sound.
pub fn decode_resource(b: &[u8]) -> (r: Result<
    (KeywordTable, EmbedTable, EmbedTable, bool),
    ResourceError,
>)
    ensures
        match r {
            Ok((kw, emb, sym, q)) => {
                &&& kw.wf()
                &&& emb.wf()
                &&& sym.wf()
                &&& dec_resource(b@) == Ok::<
                    (
                        Seq<(Seq<char>, Seq<char>)>,
                        Seq<(Seq<char>, Seq<i64>)>,
                        Seq<(Seq<char>, Seq<i64>)>,
                        bool,
                    ),
                    ResourceError,
                >((kw.pairs(), emb.pairs(), sym.pairs(), q))
            },
            Err(e) => dec_resource(b@) == Err::<
                (
                    Seq<(Seq<char>, Seq<char>)>,
                    Seq<(Seq<char>, Seq<i64>)>,
                    Seq<(Seq<char>, Seq<i64>)>,
                    bool,
                ),
                ResourceError,
            >(e),
        },
{
    let n: usize = b.len();
    if n < 6 {
        return Err(ResourceError::Truncated);
    }
    if b[0] != 83 || b[1] != 83 || b[2] != 76 || b[3] != 89 {
        proof {
            assert(b@.take(4)[0] == b@[0]);
            assert(b@.take(4)[1] == b@[1]);
            assert(b@.take(4)[2] == b@[2]);
            assert(b@.take(4)[3] == b@[3]);
        }
        return Err(ResourceError::BadMagic);
    }
    proof {
        assert(b@.take(4) =~= magic());
    }
    if b[4] != FORMAT_VERSION {
        return Err(ResourceError::BadVersion);
    }
    if b[5] > 1 {
        return Err(ResourceError::Corrupt);
    }
    let quant: bool = b[5] == 1;
    let (kw, p2) = match read_kw_table(b, 6) {
        Ok(v) => v,
        Err(e) => {
            return Err(e);
        },
    };
    let (emb, p4) = match read_emb_table(b, p2, quant) {
        Ok(v) => v,
        Err(e) => {
            return Err(e);
        },
    };
    let (sym, p6) = match read_emb_table(b, p4, quant) {
        Ok(v) => v,
        Err(e) => {
            return Err(e);
        },
    };
    if p6 != n {
        return Err(ResourceError::Corrupt);
    }
    proof {
        assert(b@.skip(p6 as int).len() == 0);
    }
    Ok((kw, emb, sym, quant))
}


/// Every string a table of this crate can hold fits the 64-bit counts
/// of the format.
pub open spec fn kw_strings_bounded(kw: Seq<(Seq<char>, Seq<char>)>) -> bool {
    &&& kw.len() <= 0xFFFF_FFFF_FFFF_FFFF
    &&& forall|i: int|
        0 <= i < kw.len() ==> (#[trigger] kw[i]).0.len() <= 0xFFFF_FFFF_FFFF_FFFF && kw[i].1.len()
            <= 0xFFFF_FFFF_FFFF_FFFF
}

/// Keys fit the 64-bit counts and every vector is well-formed.
pub open spec fn emb_strings_bounded(emb: Seq<(Seq<char>, Seq<i64>)>) -> bool {
    &&& emb.len() <= 0xFFFF_FFFF_FFFF_FFFF
    &&& forall|i: int|
        0 <= i < emb.len() ==> (#[trigger] emb[i]).0.len() <= 0xFFFF_FFFF_FFFF_FFFF
            && crate::sim::vec_wf(emb[i].1)
}

proof fn lemma_rt_u64(x: u64, rest: Seq<u8>)
    ensures
        dec_u64s(spec_u64_to_le_bytes(x) + rest) == Ok::<(u64, Seq<u8>), ResourceError>((x, rest)),
{
    vstd::bytes::lemma_auto_spec_u64_to_from_le_bytes();
    let e = spec_u64_to_le_bytes(x);
    assert((e + rest).take(8) =~= e);
    assert((e + rest).skip(8) =~= rest);
}

proof fn lemma_rt_u32(x: u32, rest: Seq<u8>)
    ensures
        dec_u32s(spec_u32_to_le_bytes(x) + rest) == Ok::<(u32, Seq<u8>), ResourceError>((x, rest)),
{
    vstd::bytes::lemma_auto_spec_u32_to_from_le_bytes();
    let e = spec_u32_to_le_bytes(x);
    assert((e + rest).take(4) =~= e);
    assert((e + rest).skip(4) =~= rest);
}

proof fn lemma_rt_u16(x: u16, rest: Seq<u8>)
    ensures
        dec_u16s(spec_u16_to_le_bytes(x) + rest) == Ok::<(u16, Seq<u8>), ResourceError>((x, rest)),
{
    vstd::bytes::lemma_auto_spec_u16_to_from_le_bytes();
    let e = spec_u16_to_le_bytes(x);
    assert((e + rest).take(2) =~= e);
    assert((e + rest).skip(2) =~= rest);
}

proof fn lemma_rt_chars(s: Seq<char>, i: int, rest: Seq<u8>, acc: Seq<char>)
    requires
        0 <= i <= s.len(),
    ensures
        dec_chars(enc_chars(s, i) + rest, s.len() - i, acc) == Ok::<
            (Seq<char>, Seq<u8>),
            ResourceError,
        >((acc + s.skip(i), rest)),
    decreases s.len() - i,
{
    if i >= s.len() {
        assert(enc_chars(s, i) + rest =~= rest);
        assert(acc + s.skip(i) =~= acc);
    } else {
        let c = s[i];
        let u = c as u32;
        vstd::utf8::char_is_scalar(c);
        vstd::utf8::char_u32_cast(c, u);
        let tail = enc_chars(s, i + 1) + rest;
        assert(enc_chars(s, i) + rest =~= spec_u32_to_le_bytes(u) + tail);
        lemma_rt_u32(u, tail);
        assert(is_char_code(u));
        lemma_rt_chars(s, i + 1, rest, acc.push(c));
        assert(acc.push(c) + s.skip(i + 1) =~= acc + s.skip(i));
    }
}

proof fn lemma_rt_str(s: Seq<char>, rest: Seq<u8>)
    requires
        s.len() <= 0xFFFF_FFFF_FFFF_FFFF,
    ensures
        dec_strs(enc_str(s) + rest) == Ok::<(Seq<char>, Seq<u8>), ResourceError>((s, rest)),
{
    let tail = enc_chars(s, 0) + rest;
    assert(enc_str(s) + rest =~= spec_u64_to_le_bytes(s.len() as u64) + tail);
    lemma_rt_u64(s.len() as u64, tail);
    lemma_rt_chars(s, 0, rest, Seq::empty());
    assert(Seq::<char>::empty() + s.skip(0) =~= s);
}

proof fn lemma_rt_comps(v: Seq<i64>, i: int, rest: Seq<u8>, quant: bool, acc: Seq<i64>)
    requires
        0 <= i <= v.len(),
        crate::sim::vec_wf(v),
    ensures
        dec_comps(enc_comps(v, i, quant) + rest, v.len() - i, quant, acc) == Ok::<
            (Seq<i64>, Seq<u8>),
            ResourceError,
        >((acc + (if quant { qsnap_comps(v) } else { v }).skip(i), rest)),
    decreases v.len() - i,
{
    let img = if quant {
        qsnap_comps(v)
    } else {
        v
    };
    if i >= v.len() {
        assert(enc_comps(v, i, quant) + rest =~= rest);
        assert(acc + img.skip(i) =~= acc);
    } else {
        let c = v[i] as int;
        lemma_qsnap_close(c);
        if quant {
            let off = qsnap_off(c) as u16;
            let tail = enc_comps(v, i + 1, quant) + rest;
            assert(enc_comps(v, i, quant) + rest =~= spec_u16_to_le_bytes(off) + tail);
            lemma_rt_u16(off, tail);
            assert((off as int * 64 - 65536) as i64 == img[i]);
            lemma_rt_comps(v, i + 1, rest, quant, acc.push(img[i]));
            assert(acc.push(img[i]) + img.skip(i + 1) =~= acc + img.skip(i));
        } else {
            let off = (v[i] + 65536) as u32;
            let tail = enc_comps(v, i + 1, quant) + rest;
            assert(enc_comps(v, i, quant) + rest =~= spec_u32_to_le_bytes(off) + tail);
            lemma_rt_u32(off, tail);
            assert((off as int - 65536) as i64 == v[i]);
            lemma_rt_comps(v, i + 1, rest, quant, acc.push(v[i]));
            assert(acc.push(v[i]) + img.skip(i + 1) =~= acc + img.skip(i));
        }
    }
}

proof fn lemma_rt_vec(v: Seq<i64>, rest: Seq<u8>, quant: bool)
    requires
        crate::sim::vec_wf(v),
    ensures
        dec_vecs(enc_vec(v, quant) + rest, quant) == Ok::<(Seq<i64>, Seq<u8>), ResourceError>(
            ((if quant { qsnap_comps(v) } else { v }), rest),
        ),
{
    let tail = enc_comps(v, 0, quant) + rest;
    assert(enc_vec(v, quant) + rest =~= spec_u16_to_le_bytes(v.len() as u16) + tail);
    lemma_rt_u16(v.len() as u16, tail);
    lemma_rt_comps(v, 0, rest, quant, Seq::empty());
    let img = if quant {
        qsnap_comps(v)
    } else {
        v
    };
    assert(img.len() == v.len());
    assert(Seq::<i64>::empty() + img.skip(0) =~= img);
}

proof fn lemma_rt_kw_entries(
    kw: Seq<(Seq<char>, Seq<char>)>,
    i: int,
    rest: Seq<u8>,
    prev: Option<Seq<char>>,
    acc: Seq<(Seq<char>, Seq<char>)>,
)
    requires
        0 <= i <= kw.len(),
        keys_sorted(kw),
        kw_strings_bounded(kw),
        match prev {
            Some(p) => i < kw.len() ==> str_lt(p, kw[i].0),
            None => true,
        },
    ensures
        dec_kw_entries(enc_kw_entries(kw, i) + rest, kw.len() - i, prev, acc) == Ok::<
            (Seq<(Seq<char>, Seq<char>)>, Seq<u8>),
            ResourceError,
        >((acc + kw.skip(i), rest)),
    decreases kw.len() - i,
{
    if i >= kw.len() {
        assert(enc_kw_entries(kw, i) + rest =~= rest);
        assert(acc + kw.skip(i) =~= acc);
    } else {
        let k = kw[i].0;
        let v = kw[i].1;
        let tail2 = enc_kw_entries(kw, i + 1) + rest;
        let tail1 = enc_str(v) + tail2;
        assert(enc_kw_entries(kw, i) + rest =~= enc_str(k) + tail1);
        lemma_rt_str(k, tail1);
        lemma_rt_str(v, tail2);
        lemma_rt_kw_entries(kw, i + 1, rest, Some(k), acc.push((k, v)));
        assert(acc.push((k, v)) + kw.skip(i + 1) =~= acc + kw.skip(i));
        assert(kw[i] == (k, v));
    }
}

proof fn lemma_rt_emb_entries(
    emb: Seq<(Seq<char>, Seq<i64>)>,
    i: int,
    rest: Seq<u8>,
    quant: bool,
    prev: Option<Seq<char>>,
    acc: Seq<(Seq<char>, Seq<i64>)>,
)
    requires
        0 <= i <= emb.len(),
        keys_sorted(emb),
        emb_strings_bounded(emb),
        match prev {
            Some(p) => i < emb.len() ==> str_lt(p, emb[i].0),
            None => true,
        },
    ensures
        dec_emb_entries(enc_emb_entries(emb, i, quant) + rest, emb.len() - i, quant, prev, acc)
            == Ok::<(Seq<(Seq<char>, Seq<i64>)>, Seq<u8>), ResourceError>(
            (acc + (if quant { qsnap_table(emb) } else { emb }).skip(i), rest),
        ),
    decreases emb.len() - i,
{
    let img = if quant {
        qsnap_table(emb)
    } else {
        emb
    };
    if i >= emb.len() {
        assert(enc_emb_entries(emb, i, quant) + rest =~= rest);
        assert(acc + img.skip(i) =~= acc);
    } else {
        let k = emb[i].0;
        let v = emb[i].1;
        let tail2 = enc_emb_entries(emb, i + 1, quant) + rest;
        let tail1 = enc_vec(v, quant) + tail2;
        assert(enc_emb_entries(emb, i, quant) + rest =~= enc_str(k) + tail1);
        lemma_rt_str(k, tail1);
        lemma_rt_vec(v, tail2, quant);
        assert(img[i].0 == k);
        assert(img[i].1 == (if quant {
            qsnap_comps(v)
        } else {
            v
        }));
        lemma_rt_emb_entries(emb, i + 1, rest, quant, Some(k), acc.push(img[i]));
        assert(acc.push(img[i]) + img.skip(i + 1) =~= acc + img.skip(i));
    }
}

/// Law: loading what the compiler wrote gives back exactly the tables
/// that were compiled.  With full-precision storage the round trip is
/// the identity; with quantized storage every key and every table is
/// unchanged and each vector component moves by at most 32 fixed-point
/// steps, the documented drift of half-width storage.
pub proof fn lemma_resource_roundtrip(
    kw: Seq<(Seq<char>, Seq<char>)>,
    emb: Seq<(Seq<char>, Seq<i64>)>,
    sym: Seq<(Seq<char>, Seq<i64>)>,
    quant: bool,
)
    requires
        keys_sorted(kw),
        keys_sorted(emb),
        keys_sorted(sym),
        kw_strings_bounded(kw),
        emb_strings_bounded(emb),
        emb_strings_bounded(sym),
    ensures
        dec_resource(enc_resource(kw, emb, sym, quant)) == Ok::<
            (
                Seq<(Seq<char>, Seq<char>)>,
                Seq<(Seq<char>, Seq<i64>)>,
                Seq<(Seq<char>, Seq<i64>)>,
                bool,
            ),
            ResourceError,
        >(
            (
                kw,
                if quant {
                    qsnap_table(emb)
                } else {
                    emb
                },
                if quant {
                    qsnap_table(sym)
                } else {
                    sym
                },
                quant,
            ),
        ),
{
    let b = enc_resource(kw, emb, sym, quant);
    let flags: u8 = if quant {
        1
    } else {
        0
    };
    assert(b.len() >= 6);
    assert(b.take(4) =~= magic());
    assert(b[4] == FORMAT_VERSION);
    assert(b[5] == flags);
    let t_sym = enc_emb_entries(sym, 0, quant);
    let t5 = t_sym + Seq::<u8>::empty();
    let t4 = spec_u64_to_le_bytes(sym.len() as u64) + t5;
    let t3 = enc_emb_entries(emb, 0, quant) + t4;
    let t2 = spec_u64_to_le_bytes(emb.len() as u64) + t3;
    let t1 = enc_kw_entries(kw, 0) + t2;
    assert(b.skip(6) =~= spec_u64_to_le_bytes(kw.len() as u64) + t1);
    lemma_rt_u64(kw.len() as u64, t1);
    lemma_rt_kw_entries(kw, 0, t2, None, Seq::empty());
    assert(Seq::<(Seq<char>, Seq<char>)>::empty() + kw.skip(0) =~= kw);
    lemma_rt_u64(emb.len() as u64, t3);
    lemma_rt_emb_entries(emb, 0, t4, quant, None, Seq::empty());
    let embi = if quant {
        qsnap_table(emb)
    } else {
        emb
    };
    let symi = if quant {
        qsnap_table(sym)
    } else {
        sym
    };
    assert(Seq::<(Seq<char>, Seq<i64>)>::empty() + embi.skip(0) =~= embi);
    lemma_rt_u64(sym.len() as u64, t5);
    lemma_rt_emb_entries(sym, 0, Seq::<u8>::empty(), quant, None, Seq::empty());
    assert(t5 =~= t_sym + Seq::<u8>::empty());
    assert(Seq::<(Seq<char>, Seq<i64>)>::empty() + symi.skip(0) =~= symi);
}

} // verus!



