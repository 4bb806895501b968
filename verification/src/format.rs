//! The binary form of `jxb` files and `jxk` archives: little-endian
//! records, regions aligned to 16 bytes, and NUL-terminated strings.

use vstd::prelude::*;
use vstd::bytes::{spec_u32_to_le_bytes, u32_to_le_bytes};
use vstd::slice::slice_to_vec;
use crate::crypt::{next_multiple_of_16, zeros};
use crate::jxb::{bs_view, spec_tag_type_id, FormatError, Jxb, NodeDataA, NodeDataB, NodeDataBView, TagData, TagDatas};
use crate::strset::utf8_of;
use crate::text::str_chars;
use crate::jxk::{FileMetadata, Jxk};

verus! {

broadcast use vstd::string::group_string_axioms;

/// The two little-endian bytes of a `u16`.
pub open spec fn le16(v: u16) -> Seq<u8> {
    seq![(v & 0xff) as u8, ((v >> 8) & 0xff) as u8]
}

/// The four little-endian bytes of a `u32`.
pub open spec fn le32(v: u32) -> Seq<u8> {
    spec_u32_to_le_bytes(v)
}

/// The four little-endian bytes of an `i32`.
pub open spec fn lei32(v: i32) -> Seq<u8> {
    spec_u32_to_le_bytes(v as u32)
}

/// A node's fixed record: version, tag type, tag count, offset of its
/// variable record, parent.
pub open spec fn a_bytes(a: NodeDataA) -> Seq<u8> {
    le16(a.node_version) + le16(a.tags_type_id) + le32(a.tag_count) + lei32(a.b_offset) + lei32(a.parent_index)
}

/// A stored tag: key and value, with the type between where `wide`.
pub open spec fn tag_bytes(t: TagData, wide: bool) -> Seq<u8> {
    lei32(t.key_offset) + (if wide { le32(t.type_id) } else { Seq::empty() }) + lei32(t.value)
}

/// Stored tags, one after the other.
pub open spec fn tags_bytes(ts: Seq<TagData>, wide: bool) -> Seq<u8>
    decreases ts.len(),
{
    if ts.len() == 0 {
        Seq::empty()
    } else {
        tags_bytes(ts.drop_last(), wide) + tag_bytes(ts.last(), wide)
    }
}

/// `i32` words, one after the other.
pub open spec fn words_bytes(v: Seq<i32>) -> Seq<u8>
    decreases v.len(),
{
    if v.len() == 0 {
        Seq::empty()
    } else {
        words_bytes(v.drop_last()) + lei32(v.last())
    }
}

/// A node's variable record: its tags, each with its type where the tags
/// do not share one; for version 2 its child indexes; for version 3 its
/// type, children and text first.
pub open spec fn b_bytes(b: NodeDataBView) -> Seq<u8> {
    match b {
        NodeDataBView::Version1 { tags } => tags_bytes(tags, spec_tag_type_id(tags) == 1),
        NodeDataBView::Version2 { child_indexes } => words_bytes(child_indexes),
        NodeDataBView::Version3 { node_type_offset, children_start_index, child_count, text_offset, tags } =>
            lei32(node_type_offset) + lei32(children_start_index) + lei32(child_count) + lei32(text_offset)
            + tags_bytes(tags, spec_tag_type_id(tags) == 1),
    }
}

/// The fixed records, one after the other.
pub open spec fn all_a_bytes(v: Seq<NodeDataA>) -> Seq<u8>
    decreases v.len(),
{
    if v.len() == 0 {
        Seq::empty()
    } else {
        all_a_bytes(v.drop_last()) + a_bytes(v.last())
    }
}

/// The variable records, one after the other.
pub open spec fn all_b_bytes(v: Seq<NodeDataBView>) -> Seq<u8>
    decreases v.len(),
{
    if v.len() == 0 {
        Seq::empty()
    } else {
        all_b_bytes(v.drop_last()) + b_bytes(v.last())
    }
}

/// The UTF-16 code units of a text.
pub open spec fn utf16_units(t: Seq<char>) -> Seq<u16>
    decreases t.len(),
{
    if t.len() == 0 {
        Seq::empty()
    } else {
        let c = t.last() as u32;
        utf16_units(t.drop_last()) + if c < 0x10000 {
            seq![c as u16]
        } else {
            seq![(0xD800 + ((c - 0x10000) / 0x400)) as u16, (0xDC00 + ((c - 0x10000) % 0x400)) as u16]
        }
    }
}

/// Code units, two little-endian bytes each.
pub open spec fn units_bytes(u: Seq<u16>) -> Seq<u8>
    decreases u.len(),
{
    if u.len() == 0 {
        Seq::empty()
    } else {
        units_bytes(u.drop_last()) + le16(u.last())
    }
}

/// Texts in UTF-8, each ended by a zero byte.
pub open spec fn utf8_strings_bytes(strs: Seq<Seq<char>>) -> Seq<u8>
    decreases strs.len(),
{
    if strs.len() == 0 {
        Seq::empty()
    } else {
        utf8_strings_bytes(strs.drop_last()) + utf8_of(strs.last()) + seq![0u8]
    }
}

/// Texts in UTF-16, each ended by a zero unit.
pub open spec fn utf16_strings_bytes(strs: Seq<Seq<char>>) -> Seq<u8>
    decreases strs.len(),
{
    if strs.len() == 0 {
        Seq::empty()
    } else {
        utf16_strings_bytes(strs.drop_last()) + units_bytes(utf16_units(strs.last())) + seq![0u8, 0u8]
    }
}

/// Zero bytes from `len` up to the next multiple of 16.
pub open spec fn pad16(len: int) -> Seq<u8> {
    zeros(next_multiple_of_16(len) - len)
}

/// The magic bytes a `jxb` file starts with.
pub open spec fn jxb_magic() -> Seq<u8> {
    seq![0x4Au8, 0x58u8, 0x42u8, 0u8, 1u8, 0u8, 1u8]
}

/// The strings of a table, in order.
pub open spec fn table_texts(p: Seq<(i32, Seq<char>)>) -> Seq<Seq<char>> {
    p.map_values(|e: (i32, Seq<char>)| e.1)
}

/// The bytes of a `jxb` file: a header of 0x30 bytes, the fixed records,
/// the variable records, the key offsets and the strings, each region
/// starting at a multiple of 16 given in the header; the UTF-16 strings,
/// where the file has them, after the UTF-8 ones.
pub open spec fn jxb_bytes(
    a_s: Seq<NodeDataA>,
    bs: Seq<NodeDataBView>,
    keys: Seq<i32>,
    utf8: Seq<Seq<char>>,
    utf16: Option<Seq<Seq<char>>>,
) -> Seq<u8> {
    let ab = all_a_bytes(a_s);
    let bb = all_b_bytes(bs);
    let kb = words_bytes(keys);
    let b_off = next_multiple_of_16(0x30int + ab.len());
    let k_off = next_multiple_of_16(b_off + bb.len());
    let s_off = next_multiple_of_16(k_off + kb.len());
    let header = jxb_magic() + seq![if utf16 is Some { 2u8 } else { 1u8 }] + le32(a_s.len() as u32)
        + le32(keys.len() as u32) + lei32(b_off as i32) + lei32(k_off as i32) + zeros(4) + lei32(s_off as i32)
        + zeros(16);
    header + ab + pad16(0x30int + ab.len()) + bb + pad16(b_off + bb.len()) + kb + pad16(k_off + kb.len())
        + utf8_strings_bytes(utf8) + match utf16 {
        Some(t) => utf16_strings_bytes(t),
        None => Seq::empty(),
    }
}

fn put_u16(out: &mut Vec<u8>, v: u16)
    ensures
        final(out)@ == old(out)@ + le16(v),
{
    let ghost before = out@;
    out.push((v & 0xff) as u8);
    out.push(((v >> 8) & 0xff) as u8);
    proof {
        assert(out@ =~= before + le16(v));
    }
}

fn put_u32(out: &mut Vec<u8>, v: u32)
    ensures
        final(out)@ == old(out)@ + le32(v),
{
    let mut b = u32_to_le_bytes(v);
    out.append(&mut b);
}

fn put_i32(out: &mut Vec<u8>, v: i32)
    ensures
        final(out)@ == old(out)@ + lei32(v),
{
    put_u32(out, #[verifier::truncate] (v as u32));
}

fn put_zeros(out: &mut Vec<u8>, n: usize)
    ensures
        final(out)@ == old(out)@ + zeros(n as int),
{
    let ghost before = out@;
    let mut k: usize = 0;
    while k < n
        invariant
            k <= n,
            out@ == before + zeros(k as int),
        decreases n - k,
    {
        out.push(0u8);
        k = k + 1;
        proof {
            assert(out@ =~= before + zeros(k as int));
        }
    }
}

fn put_tags(out: &mut Vec<u8>, tags: &Vec<TagData>, wide: bool)
    ensures
        final(out)@ == old(out)@ + tags_bytes(tags@, wide),
{
    let ghost before = out@;
    let mut k: usize = 0;
    proof {
        assert(tags@.take(0) =~= Seq::<TagData>::empty());
        assert(before + tags_bytes(Seq::<TagData>::empty(), wide) =~= before);
    }
    while k < tags.len()
        invariant
            k <= tags@.len(),
            out@ == before + tags_bytes(tags@.take(k as int), wide),
        decreases tags@.len() - k,
    {
        let t = tags[k];
        put_i32(out, t.key_offset);
        if wide {
            put_u32(out, t.type_id);
        }
        put_i32(out, t.value);
        proof {
            assert(tags@.take(k + 1).drop_last() =~= tags@.take(k as int));
            assert(tags@.take(k + 1).last() == t);
            assert(out@ =~= before + tags_bytes(tags@.take(k + 1), wide));
        }
        k = k + 1;
    }
    proof {
        assert(tags@.take(k as int) =~= tags@);
    }
}

fn put_words(out: &mut Vec<u8>, v: &Vec<i32>)
    ensures
        final(out)@ == old(out)@ + words_bytes(v@),
{
    let ghost before = out@;
    let mut k: usize = 0;
    proof {
        assert(v@.take(0) =~= Seq::<i32>::empty());
        assert(before + words_bytes(Seq::<i32>::empty()) =~= before);
    }
    while k < v.len()
        invariant
            k <= v@.len(),
            out@ == before + words_bytes(v@.take(k as int)),
        decreases v@.len() - k,
    {
        put_i32(out, v[k]);
        proof {
            assert(v@.take(k + 1).drop_last() =~= v@.take(k as int));
            assert(out@ =~= before + words_bytes(v@.take(k + 1)));
        }
        k = k + 1;
    }
    proof {
        assert(v@.take(k as int) =~= v@);
    }
}

fn put_b(out: &mut Vec<u8>, b: &NodeDataB)
    ensures
        final(out)@ == old(out)@ + b_bytes(b@),
{
    match b {
        NodeDataB::Version1 { tags } => {
            let wide = tags.tag_type_id() == 1;
            put_tags(out, &tags.tags, wide);
        },
        NodeDataB::Version2 { child_indexes } => {
            put_words(out, child_indexes);
        },
        NodeDataB::Version3 { node_type_offset, children_start_index, child_count, text_offset, tags } => {
            let ghost before = out@;
            put_i32(out, *node_type_offset);
            put_i32(out, *children_start_index);
            put_i32(out, *child_count);
            put_i32(out, *text_offset);
            let wide = tags.tag_type_id() == 1;
            put_tags(out, &tags.tags, wide);
            proof {
                assert(out@ =~= before + b_bytes(b@));
            }
        },
    }
}

fn put_as(out: &mut Vec<u8>, v: &Vec<NodeDataA>)
    ensures
        final(out)@ == old(out)@ + all_a_bytes(v@),
{
    let ghost before = out@;
    let mut k: usize = 0;
    proof {
        assert(v@.take(0) =~= Seq::<NodeDataA>::empty());
        assert(before + all_a_bytes(Seq::<NodeDataA>::empty()) =~= before);
    }
    while k < v.len()
        invariant
            k <= v@.len(),
            out@ == before + all_a_bytes(v@.take(k as int)),
        decreases v@.len() - k,
    {
        let a = v[k];
        put_u16(out, a.node_version);
        put_u16(out, a.tags_type_id);
        put_u32(out, a.tag_count);
        put_i32(out, a.b_offset);
        put_i32(out, a.parent_index);
        proof {
            assert(v@.take(k + 1).drop_last() =~= v@.take(k as int));
            assert(v@.take(k + 1).last() == a);
            assert(out@ =~= before + all_a_bytes(v@.take(k + 1)));
        }
        k = k + 1;
    }
    proof {
        assert(v@.take(k as int) =~= v@);
    }
}

fn put_bs(out: &mut Vec<u8>, v: &Vec<NodeDataB>)
    ensures
        final(out)@ == old(out)@ + all_b_bytes(bs_view(v@)),
{
    let ghost before = out@;
    let ghost bv = bs_view(v@);
    let mut k: usize = 0;
    proof {
        assert(bv.take(0) =~= Seq::<NodeDataBView>::empty());
        assert(before + all_b_bytes(Seq::<NodeDataBView>::empty()) =~= before);
    }
    while k < v.len()
        invariant
            k <= v@.len(),
            bv == bs_view(v@),
            out@ == before + all_b_bytes(bv.take(k as int)),
        decreases v@.len() - k,
    {
        put_b(out, &v[k]);
        proof {
            assert(bv.take(k + 1).drop_last() =~= bv.take(k as int));
            assert(bv.take(k + 1).last() == v@[k as int]@);
            assert(out@ =~= before + all_b_bytes(bv.take(k + 1)));
        }
        k = k + 1;
    }
    proof {
        assert(bv.take(k as int) =~= bv);
    }
}

fn put_utf8_strings(out: &mut Vec<u8>, table: &Vec<(i32, String)>)
    ensures
        final(out)@ == old(out)@ + utf8_strings_bytes(table_texts(crate::jxb::pool_view(table@))),
{
    let ghost before = out@;
    let ghost ts = table_texts(crate::jxb::pool_view(table@));
    let mut k: usize = 0;
    proof {
        assert(ts.take(0) =~= Seq::<Seq<char>>::empty());
        assert(before + utf8_strings_bytes(Seq::<Seq<char>>::empty()) =~= before);
    }
    while k < table.len()
        invariant
            k <= table@.len(),
            ts == table_texts(crate::jxb::pool_view(table@)),
            out@ == before + utf8_strings_bytes(ts.take(k as int)),
        decreases table@.len() - k,
    {
        let mut b = slice_to_vec(table[k].1.as_str().as_bytes());
        out.append(&mut b);
        out.push(0u8);
        proof {
            assert(ts[k as int] == table@[k as int].1@);
            assert(ts.take(k + 1).drop_last() =~= ts.take(k as int));
            assert(out@ =~= before + utf8_strings_bytes(ts.take(k + 1)));
        }
        k = k + 1;
    }
    proof {
        assert(ts.take(k as int) =~= ts);
    }
}

fn put_utf16_text(out: &mut Vec<u8>, s: &str)
    ensures
        final(out)@ == old(out)@ + units_bytes(utf16_units(s@)),
{
    let chars = str_chars(s);
    let ghost before = out@;
    let mut k: usize = 0;
    proof {
        assert(chars@.take(0) =~= Seq::<char>::empty());
        assert(units_bytes(utf16_units(Seq::<char>::empty())) =~= Seq::<u8>::empty());
        assert(before + Seq::<u8>::empty() =~= before);
    }
    while k < chars.len()
        invariant
            k <= chars@.len(),
            chars@ == s@,
            out@ == before + units_bytes(utf16_units(chars@.take(k as int))),
        decreases chars@.len() - k,
    {
        let c = chars[k] as u32;
        let ghost prev = chars@.take(k as int);
        proof {
            assert(chars@.take(k + 1).drop_last() =~= prev);
            assert(chars@.take(k + 1).last() == chars@[k as int]);
        }
        if c < 0x10000 {
            put_u16(out, c as u16);
            proof {
                let u = utf16_units(prev);
                assert(utf16_units(chars@.take(k + 1)) == u + seq![c as u16]);
                lemma_units_bytes_concat(u, seq![c as u16]);
                assert(units_bytes(seq![c as u16]) =~= le16(c as u16)) by {
                    let one = seq![c as u16];
                    assert(one.drop_last() =~= Seq::<u16>::empty());
                    assert(units_bytes(one) == units_bytes(one.drop_last()) + le16(one.last()));
                    assert(units_bytes(Seq::<u16>::empty()) == Seq::<u8>::empty());
                    assert(Seq::<u8>::empty() + le16(c as u16) =~= le16(c as u16));
                }
                assert(out@ =~= before + units_bytes(utf16_units(chars@.take(k + 1))));
            }
        } else {
            proof {
                assert(c <= 0x10FFFF) by {
                    vstd::utf8::char_is_scalar(chars@[k as int]);
                }
            }
            let hi = (0xD800 + (c - 0x10000) / 0x400) as u16;
            let lo = (0xDC00 + (c - 0x10000) % 0x400) as u16;
            put_u16(out, hi);
            put_u16(out, lo);
            proof {
                let u = utf16_units(prev);
                assert(utf16_units(chars@.take(k + 1)) == u + seq![hi, lo]);
                lemma_units_bytes_concat(u, seq![hi, lo]);
                assert(units_bytes(seq![hi, lo]) =~= le16(hi) + le16(lo)) by {
                    let two = seq![hi, lo];
                    let one = seq![hi];
                    assert(two.drop_last() =~= one);
                    assert(one.drop_last() =~= Seq::<u16>::empty());
                    assert(units_bytes(two) == units_bytes(one) + le16(lo));
                    assert(units_bytes(one) == units_bytes(one.drop_last()) + le16(hi));
                    assert(units_bytes(Seq::<u16>::empty()) == Seq::<u8>::empty());
                    assert(Seq::<u8>::empty() + le16(hi) =~= le16(hi));
                }
                assert(out@ =~= before + units_bytes(utf16_units(chars@.take(k + 1))));
            }
        }
        k = k + 1;
    }
    proof {
        assert(chars@.take(k as int) =~= chars@);
    }
}

proof fn lemma_units_bytes_concat(a: Seq<u16>, b: Seq<u16>)
    ensures
        units_bytes(a + b) == units_bytes(a) + units_bytes(b),
    decreases b.len(),
{
    if b.len() == 0 {
        assert(a + b =~= a);
        assert(units_bytes(a) + Seq::<u8>::empty() =~= units_bytes(a));
    } else {
        lemma_units_bytes_concat(a, b.drop_last());
        assert((a + b).drop_last() =~= a + b.drop_last());
        assert((a + b).last() == b.last());
        assert(units_bytes(a) + units_bytes(b.drop_last()) + le16(b.last()) =~= units_bytes(a) + units_bytes(b));
    }
}

fn put_utf16_strings(out: &mut Vec<u8>, table: &Vec<(i32, String)>)
    ensures
        final(out)@ == old(out)@ + utf16_strings_bytes(table_texts(crate::jxb::pool_view(table@))),
{
    let ghost before = out@;
    let ghost ts = table_texts(crate::jxb::pool_view(table@));
    let mut k: usize = 0;
    proof {
        assert(ts.take(0) =~= Seq::<Seq<char>>::empty());
        assert(before + utf16_strings_bytes(Seq::<Seq<char>>::empty()) =~= before);
    }
    while k < table.len()
        invariant
            k <= table@.len(),
            ts == table_texts(crate::jxb::pool_view(table@)),
            out@ == before + utf16_strings_bytes(ts.take(k as int)),
        decreases table@.len() - k,
    {
        put_utf16_text(out, table[k].1.as_str());
        out.push(0u8);
        out.push(0u8);
        proof {
            assert(ts[k as int] == table@[k as int].1@);
            assert(ts.take(k + 1).drop_last() =~= ts.take(k as int));
            assert(out@ =~= before + utf16_strings_bytes(ts.take(k + 1)));
        }
        k = k + 1;
    }
    proof {
        assert(ts.take(k as int) =~= ts);
    }
}

/// The regions of a `jxb` file sit at offsets that fit in an `i32`, and
/// its counts fit in a `u32`.
pub open spec fn jxb_layout_fits(a_s: Seq<NodeDataA>, bs: Seq<NodeDataBView>, keys: Seq<i32>) -> bool {
    let b_off = next_multiple_of_16(0x30int + all_a_bytes(a_s).len());
    let k_off = next_multiple_of_16(b_off + all_b_bytes(bs).len());
    let s_off = next_multiple_of_16(k_off + words_bytes(keys).len());
    &&& s_off <= i32::MAX
    &&& a_s.len() <= u32::MAX
    &&& keys.len() <= u32::MAX
}

/// The strings of a table, or of an absent table.
pub open spec fn opt_table_texts(t: Option<Vec<(i32, String)>>) -> Option<Seq<Seq<char>>> {
    match t {
        Some(v) => Some(table_texts(crate::jxb::pool_view(v@))),
        None => None,
    }
}

fn pad_to_16(out: &mut Vec<u8>, base: u64)
    requires
        base + old(out)@.len() + 16 <= u64::MAX,
    ensures
        final(out)@ == old(out)@ + pad16(base + old(out)@.len()),
{
    let len = base + out.len() as u64;
    let rem = len % 16;
    if rem != 0 {
        put_zeros(out, (16 - rem) as usize);
    } else {
        put_zeros(out, 0);
    }
}

impl Jxb {
    /// The bytes of the file; fails where a region's offset would not fit
    /// in an `i32`.
    #[verifier::spinoff_prover]
    #[verifier::rlimit(30)]
    pub fn to_bytes(&self) -> (r: Result<Vec<u8>, FormatError>)
        ensures
            match r {
                Ok(v) => jxb_layout_fits(self.node_data_as@, bs_view(self.node_data_bs@), self.key_string_offsets@)
                    && v@ == jxb_bytes(self.node_data_as@, bs_view(self.node_data_bs@), self.key_string_offsets@,
                    table_texts(crate::jxb::pool_view(self.string_pool.utf8_strings@)),
                    opt_table_texts(self.string_pool.utf16_strings)),
                Err(e) => !jxb_layout_fits(self.node_data_as@, bs_view(self.node_data_bs@), self.key_string_offsets@)
                    && e is TooLarge,
            },
    {
        let mut ab: Vec<u8> = Vec::new();
        put_as(&mut ab, &self.node_data_as);
        let mut bb: Vec<u8> = Vec::new();
        put_bs(&mut bb, &self.node_data_bs);
        let mut kb: Vec<u8> = Vec::new();
        put_words(&mut kb, &self.key_string_offsets);
        proof {
            assert(ab@ == Seq::<u8>::empty() + all_a_bytes(self.node_data_as@));
        }
        let n = self.node_data_as.len();
        let kc = self.key_string_offsets.len();
        if n > 0xffff_ffff || kc > 0xffff_ffff || ab.len() > 0x7fff_ffff || bb.len() > 0x7fff_ffff || kb.len() > 0x7fff_ffff {
            proof {
                assert(ab@ =~= all_a_bytes(self.node_data_as@));
                assert(bb@ =~= all_b_bytes(bs_view(self.node_data_bs@)));
                assert(kb@ =~= words_bytes(self.key_string_offsets@));
            }
            return Err(FormatError::TooLarge);
        }
        let b_off: u64 = next16(0x30 + ab.len() as u64);
        let k_off: u64 = next16(b_off + bb.len() as u64);
        let s_off: u64 = next16(k_off + kb.len() as u64);
        proof {
            assert(ab@ =~= all_a_bytes(self.node_data_as@));
            assert(bb@ =~= all_b_bytes(bs_view(self.node_data_bs@)));
            assert(kb@ =~= words_bytes(self.key_string_offsets@));
        }
        if s_off > 0x7fff_ffff {
            return Err(FormatError::TooLarge);
        }
        let mut out: Vec<u8> = Vec::new();
        out.push(0x4Au8);
        out.push(0x58u8);
        out.push(0x42u8);
        out.push(0u8);
        out.push(1u8);
        out.push(0u8);
        out.push(1u8);
        let flag: u8 = if self.string_pool.utf16_strings.is_some() { 2 } else { 1 };
        out.push(flag);
        put_u32(&mut out, n as u32);
        put_u32(&mut out, kc as u32);
        put_i32(&mut out, b_off as i32);
        put_i32(&mut out, k_off as i32);
        put_zeros(&mut out, 4);
        put_i32(&mut out, s_off as i32);
        put_zeros(&mut out, 16);
        let ghost header = out@;
        proof {
            vstd::bytes::lemma_auto_spec_u32_to_from_le_bytes();
            assert(header.len() == 0x30);
        }
        let ab_len = ab.len();
        let bb_len = bb.len();
        out.append(&mut ab);
        pad_to_16(&mut out, 0);
        assert(out@.len() == b_off);
        out.append(&mut bb);
        assert(out@.len() == b_off + bb_len);
        pad_to_16(&mut out, 0);
        assert(out@.len() == k_off);
        out.append(&mut kb);
        pad_to_16(&mut out, 0);
        assert(out@.len() == s_off);
        put_utf8_strings(&mut out, &self.string_pool.utf8_strings);
        match &self.string_pool.utf16_strings {
            Some(t) => {
                put_utf16_strings(&mut out, t);
            },
            None => {},
        }
        proof {
            vstd::bytes::lemma_auto_spec_u32_to_from_le_bytes();
            assert(header.len() == 0x30);
            let expect = jxb_bytes(self.node_data_as@, bs_view(self.node_data_bs@), self.key_string_offsets@,
                table_texts(crate::jxb::pool_view(self.string_pool.utf8_strings@)),
                opt_table_texts(self.string_pool.utf16_strings));
            assert(out@ =~= expect);
        }
        Ok(out)
    }
}

fn next16(n: u64) -> (r: u64)
    requires
        n <= 0x1_0000_0000_0000,
    ensures
        r == next_multiple_of_16(n as int),
        n <= r <= n + 15,
{
    if n % 16 == 0 {
        n
    } else {
        n - n % 16 + 16
    }
}

/// The bytes of a file's entry: its node, offset and size.
pub open spec fn meta_bytes(m: FileMetadata) -> Seq<u8> {
    lei32(m.node_index) + lei32(m.data_offset) + lei32(m.data_size)
}

/// The entries, one after the other.
pub open spec fn all_meta_bytes(v: Seq<FileMetadata>) -> Seq<u8>
    decreases v.len(),
{
    if v.len() == 0 {
        Seq::empty()
    } else {
        all_meta_bytes(v.drop_last()) + meta_bytes(v.last())
    }
}

/// The bytes of an archive before the files' data: `JXK`, the number of
/// files, the table of files, and the tree from the next multiple of 16.
pub open spec fn jxk_bytes(ms: Seq<FileMetadata>, tree: Seq<u8>) -> Seq<u8> {
    seq![0x4Au8, 0x58u8, 0x4Bu8, 0u8] + lei32(ms.len() as i32) + zeros(4) + all_meta_bytes(ms)
        + pad16(12int + 12 * ms.len()) + tree
}

/// Where the data of file `i` starts: after the archive's first
/// `header_len` bytes, each file's data at the first multiple of 16 after
/// the end of the one before.
pub open spec fn file_offset(header_len: int, sizes: Seq<u64>, i: int) -> int
    decreases i,
{
    if i <= 0 {
        next_multiple_of_16(header_len)
    } else {
        next_multiple_of_16(file_offset(header_len, sizes, i - 1) + sizes[i - 1])
    }
}

/// The views of a sequence of byte vectors.
pub open spec fn datas_view(v: Seq<Vec<u8>>) -> Seq<Seq<u8>> {
    v.map_values(|d: Vec<u8>| d@)
}

/// An archive's bytes: `header`, then each file's data from the first
/// multiple of 16 after what comes before it, the gaps filled with zeros.
pub open spec fn archive_image(header: Seq<u8>, datas: Seq<Seq<u8>>) -> Seq<u8>
    decreases datas.len(),
{
    if datas.len() == 0 {
        header
    } else {
        let before = archive_image(header, datas.drop_last());
        before + pad16(before.len() as int) + datas.last()
    }
}

/// The bytes of an archive: `header`, then each file's data from the first
/// multiple of 16 after what comes before it, the gaps filled with zeros.
pub fn archive_bytes(header: Vec<u8>, datas: &Vec<Vec<u8>>) -> (r: Vec<u8>)
    ensures
        r@ == archive_image(header@, datas_view(datas@)),
{
    let ghost dv = datas_view(datas@);
    let mut out = header;
    let ghost h = out@;
    let mut k: usize = 0;
    proof {
        assert(dv.take(0) =~= Seq::<Seq<u8>>::empty());
    }
    while k < datas.len()
        invariant
            k <= datas@.len(),
            dv == datas_view(datas@),
            out@ == archive_image(h, dv.take(k as int)),
        decreases datas@.len() - k,
    {
        let ghost before = out@;
        let rem = out.len() % 16;
        let pad: usize = if rem == 0 { 0 } else { 16 - rem };
        proof {
            assert(pad == next_multiple_of_16(before.len() as int) - before.len());
        }
        put_zeros(&mut out, pad);
        let data = &datas[k];
        let mut j: usize = 0;
        let ghost mid = out@;
        while j < data.len()
            invariant
                j <= data@.len(),
                out@ == mid + data@.take(j as int),
            decreases data@.len() - j,
        {
            out.push(data[j]);
            j = j + 1;
            proof {
                assert(out@ =~= mid + data@.take(j as int));
            }
        }
        proof {
            assert(data@.take(j as int) =~= data@);
            assert(dv.take(k + 1).drop_last() =~= dv.take(k as int));
            assert(dv.take(k + 1).last() == data@);
            assert(out@ =~= archive_image(h, dv.take(k + 1)));
        }
        k = k + 1;
    }
    proof {
        assert(dv.take(k as int) =~= dv);
    }
    out
}

/// Where the bytes of a file start in an archive of `len` bytes: at its
/// offset, or at the end where the offset is negative or past the end.
pub open spec fn file_start(len: int, m: FileMetadata) -> int {
    if m.data_offset < 0 || m.data_offset >= len {
        len
    } else {
        m.data_offset as int
    }
}

/// Where the bytes of a file end in an archive of `len` bytes: its size
/// after its start, or the end where the size is negative or runs past it.
pub open spec fn file_end(len: int, m: FileMetadata) -> int {
    if m.data_size < 0 || file_start(len, m) + m.data_size > len {
        len
    } else {
        file_start(len, m) + m.data_size
    }
}

/// The bytes of a file of an archive: from its offset, as many as its size
/// says, as far as the archive's bytes go.
pub fn file_bytes(d: &[u8], m: &FileMetadata) -> (r: Vec<u8>)
    ensures
        r@ == d@.subrange(file_start(d@.len() as int, *m), file_end(d@.len() as int, *m)),
{
    let len = d.len();
    let start: usize = if m.data_offset < 0 || m.data_offset as u64 >= len as u64 {
        len
    } else {
        m.data_offset as usize
    };
    let end: usize = if m.data_size < 0 || m.data_size as u64 > (len - start) as u64 {
        len
    } else {
        start + m.data_size as usize
    };
    let mut out: Vec<u8> = Vec::new();
    let mut i: usize = start;
    while i < end
        invariant
            start <= i <= end <= d@.len(),
            out@ == d@.subrange(start as int, i as int),
        decreases end - i,
    {
        out.push(d[i]);
        i = i + 1;
        proof {
            assert(out@ =~= d@.subrange(start as int, i as int));
        }
    }
    out
}

impl Jxk {
    /// The bytes of the archive before the files' data.
    pub fn to_bytes(&self) -> (r: Result<Vec<u8>, FormatError>)
        ensures
            match r {
                Ok(v) => self.file_metadatas@.len() <= i32::MAX
                    && jxb_layout_fits(self.jxb.node_data_as@, bs_view(self.jxb.node_data_bs@), self.jxb.key_string_offsets@)
                    && v@ == jxk_bytes(self.file_metadatas@, jxb_bytes(self.jxb.node_data_as@, bs_view(self.jxb.node_data_bs@),
                    self.jxb.key_string_offsets@, table_texts(crate::jxb::pool_view(self.jxb.string_pool.utf8_strings@)),
                    opt_table_texts(self.jxb.string_pool.utf16_strings))),
                Err(e) => (self.file_metadatas@.len() > i32::MAX
                    || !jxb_layout_fits(self.jxb.node_data_as@, bs_view(self.jxb.node_data_bs@), self.jxb.key_string_offsets@))
                    && e is TooLarge,
            },
    {
        let tree = match self.jxb.to_bytes() {
            Ok(t) => t,
            Err(e) => {
                return Err(e);
            },
        };
        let n = self.file_metadatas.len();
        if n > 0x7fff_ffff {
            return Err(FormatError::TooLarge);
        }
        let mut out: Vec<u8> = Vec::new();
        out.push(0x4Au8);
        out.push(0x58u8);
        out.push(0x4Bu8);
        out.push(0u8);
        put_i32(&mut out, n as i32);
        put_zeros(&mut out, 4);
        let ghost head = out@;
        let mut k: usize = 0;
        proof {
            assert(self.file_metadatas@.take(0) =~= Seq::<FileMetadata>::empty());
            assert(head + all_meta_bytes(Seq::<FileMetadata>::empty()) =~= head);
        }
        while k < n
            invariant
                k <= n,
                n == self.file_metadatas@.len(),
                out@ == head + all_meta_bytes(self.file_metadatas@.take(k as int)),
            decreases n - k,
        {
            let m = self.file_metadatas[k];
            put_i32(&mut out, m.node_index);
            put_i32(&mut out, m.data_offset);
            put_i32(&mut out, m.data_size);
            proof {
                assert(self.file_metadatas@.take(k + 1).drop_last() =~= self.file_metadatas@.take(k as int));
                assert(self.file_metadatas@.take(k + 1).last() == m);
                assert(out@ =~= head + all_meta_bytes(self.file_metadatas@.take(k + 1)));
            }
            k = k + 1;
        }
        proof {
            assert(self.file_metadatas@.take(k as int) =~= self.file_metadatas@);
            vstd::bytes::lemma_auto_spec_u32_to_from_le_bytes();
            lemma_all_meta_bytes_len(self.file_metadatas@);
            assert(head.len() == 12);
        }
        let mut padding: Vec<u8> = Vec::new();
        let len = 12 + 12 * n as u64;
        let rem = len % 16;
        let pad_len: usize = if rem == 0 { 0 } else { (16 - rem) as usize };
        put_zeros(&mut padding, pad_len);
        out.append(&mut padding);
        let mut tree = tree;
        out.append(&mut tree);
        proof {
            assert(out@ =~= jxk_bytes(self.file_metadatas@, jxb_bytes(self.jxb.node_data_as@, bs_view(self.jxb.node_data_bs@),
                self.jxb.key_string_offsets@, table_texts(crate::jxb::pool_view(self.jxb.string_pool.utf8_strings@)),
                opt_table_texts(self.jxb.string_pool.utf16_strings))));
        }
        Ok(out)
    }

    /// Places the files' data after the first `header_len` bytes of the
    /// archive, file `i` having `sizes[i]` bytes: each entry gets the
    /// offset and size of its file, cut to `i32` as the format stores them.
    /// Fails where an offset would pass `u64::MAX`.
    pub fn place_files(&mut self, header_len: u64, sizes: &Vec<u64>) -> (r: Result<(), FormatError>)
        requires
            sizes@.len() == old(self).file_metadatas@.len(),
        ensures
            final(self).jxb == old(self).jxb,
            r is Ok ==> final(self).file_metadatas@.len() == old(self).file_metadatas@.len() && forall|i: int|
                0 <= i < sizes@.len() ==> #[trigger] final(self).file_metadatas@[i] == (FileMetadata {
                    node_index: old(self).file_metadatas@[i].node_index,
                    data_offset: file_offset(header_len as int, sizes@, i) as i32,
                    data_size: sizes@[i] as i32,
                }),
            r is Err ==> exists|i: int| 0 <= i <= sizes@.len() && #[trigger] file_offset(header_len as int, sizes@, i) > u64::MAX - 16,
    {
        if header_len > 0xffff_ffff_ffff_ffef {
            proof {
                assert(file_offset(header_len as int, sizes@, 0) > u64::MAX - 16);
            }
            return Err(FormatError::TooLarge);
        }
        let mut offset: u64 = if header_len % 16 == 0 { header_len } else { header_len - header_len % 16 + 16 };
        let mut k: usize = 0;
        let ghost before = self.file_metadatas@;
        while k < sizes.len()
            invariant
                k <= sizes@.len(),
                self.jxb == old(self).jxb,
                before == old(self).file_metadatas@,
                sizes@.len() == self.file_metadatas@.len(),
                before.len() == sizes@.len(),
                offset == file_offset(header_len as int, sizes@, k as int),
                forall|i: int| 0 <= i < k ==> #[trigger] self.file_metadatas@[i] == (FileMetadata {
                    node_index: before[i].node_index,
                    data_offset: file_offset(header_len as int, sizes@, i) as i32,
                    data_size: sizes@[i] as i32,
                }),
                forall|i: int| k <= i < before.len() ==> #[trigger] self.file_metadatas@[i] == before[i],
            decreases sizes@.len() - k,
        {
            let size = sizes[k];
            let m = self.file_metadatas[k];
            self.file_metadatas.set(k, FileMetadata {
                node_index: m.node_index,
                data_offset: #[verifier::truncate] (offset as i32),
                data_size: #[verifier::truncate] (size as i32),
            });
            if offset > 0xffff_ffff_ffff_ffef {
                proof {
                    assert(file_offset(header_len as int, sizes@, k as int) > u64::MAX - 16);
                }
                return Err(FormatError::TooLarge);
            }
            if size > 0xffff_ffff_ffff_ffef - offset {
                proof {
                    assert(file_offset(header_len as int, sizes@, k + 1) > u64::MAX - 16);
                }
                return Err(FormatError::TooLarge);
            }
            let end = offset + size;
            offset = if end % 16 == 0 { end } else { end - end % 16 + 16 };
            k = k + 1;
        }
        Ok(())
    }
}

proof fn lemma_all_meta_bytes_len(v: Seq<FileMetadata>)
    ensures
        all_meta_bytes(v).len() == 12 * v.len(),
    decreases v.len(),
{
    vstd::bytes::lemma_auto_spec_u32_to_from_le_bytes();
    if v.len() > 0 {
        lemma_all_meta_bytes_len(v.drop_last());
    }
}

} // verus!
