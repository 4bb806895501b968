//! Reading back what is written: the bytes written for a `jxb` file, or
//! for a `jxk` archive, parse as that file or archive.

use vstd::prelude::*;
use vstd::arithmetic::div_mod::lemma_fundamental_div_mod;
use vstd::bytes::{lemma_auto_spec_u32_to_from_le_bytes, spec_u32_from_le_bytes, spec_u32_to_le_bytes};
use vstd::utf8::{
    char_is_scalar, char_u32_cast, encode_scalar, encode_utf8, encode_utf8_decode_utf8, encode_utf8_valid_utf8,
    has_width_1_encoding, has_width_2_encoding, has_width_3_encoding, is_scalar,
};
use crate::crypt::{next_multiple_of_16, zeros};
use crate::format::{
    archive_image, file_end, file_offset, file_start, a_bytes, all_a_bytes, all_b_bytes, all_meta_bytes, b_bytes, jxb_bytes, jxb_layout_fits, jxb_magic, jxk_bytes, le16,
    le32, lei32, meta_bytes, opt_table_texts, pad16, table_texts, tag_bytes, tags_bytes, units_bytes, utf16_strings_bytes,
    utf16_units, utf8_strings_bytes, words_bytes,
};
use crate::jxb::{bs_view, pool_view, spec_tag_type_id, Jxb, NodeDataA, NodeDataBView, TagData};
use crate::jxk::{FileMetadata, Jxk};
use crate::parse::{
    a_at, check_children, decode_utf16, decode_utf16_items, decode_utf8_items, files_in_order, i32_at, jxb_view,
    jxk_magic, kv_max, meta_at, parse_b, parse_bs, parse_jxb, parse_jxk, parse_pool, parse_tags, parse_utf16_strs,
    parse_utf8_strs, parse_words, tag_at, tag_width, text_bounds, u16_at, u32_at, units_at, utf8_end_of, zero_from,
    zero_unit_from, JxbView, ParseError,
};
use crate::strset::utf8_of;

verus! {

/// Pieces of bytes, one for each item, one after the other.
pub open spec fn concat_map<T>(s: Seq<T>, f: spec_fn(T) -> Seq<u8>) -> Seq<u8>
    decreases s.len(),
{
    if s.len() == 0 {
        Seq::empty()
    } else {
        concat_map(s.drop_last(), f) + f(s.last())
    }
}


/// `x` lies in `d` from position `p`.
pub open spec fn at(d: Seq<u8>, p: int, x: Seq<u8>) -> bool {
    &&& 0 <= p
    &&& p + x.len() <= d.len()
    &&& d.subrange(p, p + x.len()) == x
}

pub proof fn lemma_at_whole(x: Seq<u8>)
    ensures
        at(x, 0, x),
{
    assert(x.subrange(0, x.len() as int) =~= x);
}

pub proof fn lemma_at_split(d: Seq<u8>, p: int, x: Seq<u8>, y: Seq<u8>)
    requires
        at(d, p, x + y),
    ensures
        at(d, p, x),
        at(d, p + x.len(), y),
{
    let xy = x + y;
    assert(d.subrange(p, p + x.len()) =~= xy.subrange(0, x.len() as int));
    assert(xy.subrange(0, x.len() as int) =~= x);
    assert(d.subrange(p + x.len(), p + x.len() + y.len()) =~= xy.subrange(x.len() as int, xy.len() as int));
    assert(xy.subrange(x.len() as int, xy.len() as int) =~= y);
}

pub proof fn lemma_at_within(d: Seq<u8>, p: int, x: Seq<u8>, q: int, y: Seq<u8>)
    requires
        at(d, p, x),
        at(x, q, y),
    ensures
        at(d, p + q, y),
{
    assert(d.subrange(p + q, p + q + y.len()) =~= x.subrange(q, q + y.len()));
}

/// The byte at a position of a piece.
pub proof fn lemma_at_index(d: Seq<u8>, p: int, x: Seq<u8>, i: int)
    requires
        at(d, p, x),
        0 <= i < x.len(),
    ensures
        d[p + i] == x[i],
{
    assert(d.subrange(p, p + x.len())[i] == d[p + i]);
}

/// Pieces of bytes of two sequences one after the other.
pub proof fn lemma_concat_map_add<T>(a: Seq<T>, b: Seq<T>, f: spec_fn(T) -> Seq<u8>)
    ensures
        concat_map(a + b, f) == concat_map(a, f) + concat_map(b, f),
    decreases b.len(),
{
    if b.len() == 0 {
        assert(a + b =~= a);
        assert(concat_map(a, f) + concat_map(b, f) =~= concat_map(a, f));
    } else {
        lemma_concat_map_add(a, b.drop_last(), f);
        assert((a + b).drop_last() =~= a + b.drop_last());
        assert((a + b).last() == b.last());
        assert(concat_map(a + b, f) =~= concat_map(a, f) + concat_map(b, f));
    }
}

/// The piece of item `k` lies after the pieces of the items before it.
pub proof fn lemma_concat_map_at<T>(s: Seq<T>, f: spec_fn(T) -> Seq<u8>, k: int)
    requires
        0 <= k < s.len(),
    ensures
        at(concat_map(s, f), concat_map(s.take(k), f).len() as int, f(s[k])),
        concat_map(s.take(k + 1), f) == concat_map(s.take(k), f) + f(s[k]),
{
    let pre = s.take(k);
    let one = seq![s[k]];
    let post = s.skip(k + 1);
    assert(s =~= pre + one + post);
    assert(s.take(k + 1) =~= pre + one);
    lemma_concat_map_add(pre + one, post, f);
    lemma_concat_map_add(pre, one, f);
    assert(one.drop_last() =~= Seq::<T>::empty());
    assert(concat_map(one.drop_last(), f) =~= Seq::<u8>::empty());
    assert(one.last() == s[k]);
    assert(concat_map(one, f) == concat_map(one.drop_last(), f) + f(one.last()));
    assert(concat_map(one, f) =~= f(s[k]));
    let whole = concat_map(s, f);
    let c = concat_map(pre, f) + f(s[k]);
    assert(whole == c + concat_map(post, f));
    lemma_at_whole(whole);
    lemma_at_split(whole, 0, c, concat_map(post, f));
    lemma_at_split(whole, 0, concat_map(pre, f), f(s[k]));
}


/// Where the variable records start.
pub open spec fn b_start(a_s: Seq<NodeDataA>) -> int {
    next_multiple_of_16(0x30int + all_a_bytes(a_s).len())
}

/// Where the key offsets start.
pub open spec fn k_start(a_s: Seq<NodeDataA>, bs: Seq<NodeDataBView>) -> int {
    next_multiple_of_16(b_start(a_s) + all_b_bytes(bs).len())
}

/// Where the strings start.
pub open spec fn s_start(a_s: Seq<NodeDataA>, bs: Seq<NodeDataBView>, keys: Seq<i32>) -> int {
    next_multiple_of_16(k_start(a_s, bs) + words_bytes(keys).len())
}

/// The UTF-16 part of a file's bytes.
pub open spec fn opt_utf16_bytes(utf16: Option<Seq<Seq<char>>>) -> Seq<u8> {
    match utf16 {
        Some(t) => utf16_strings_bytes(t),
        None => Seq::empty(),
    }
}

proof fn lemma_pad(n: int)
    requires
        n >= 0,
    ensures
        pad16(n).len() == next_multiple_of_16(n) - n,
        n <= next_multiple_of_16(n) < n + 16,
        next_multiple_of_16(n) % 16 == 0,
{
}

proof fn lemma_next16_shift(start: int, y: int)
    requires
        start % 16 == 0,
    ensures
        next_multiple_of_16(start + y) == start + next_multiple_of_16(y),
{
    assert((start + y) % 16 == y % 16);
}

/// The header and the regions of the bytes written for a file, where they
/// lie from `start`.
proof fn lemma_file_regions(
    d: Seq<u8>,
    start: int,
    a_s: Seq<NodeDataA>,
    bs: Seq<NodeDataBView>,
    keys: Seq<i32>,
    utf8: Seq<Seq<char>>,
    utf16: Option<Seq<Seq<char>>>,
)
    requires
        jxb_layout_fits(a_s, bs, keys),
        at(d, start, jxb_bytes(a_s, bs, keys, utf8, utf16)),
    ensures
        ({
            let x = jxb_bytes(a_s, bs, keys, utf8, utf16);
            let s_off = s_start(a_s, bs, keys);
            &&& x.len() >= 0x30
            &&& d.subrange(start, start + 7) == jxb_magic()
            &&& d[start + 7] == if utf16 is Some { 2u8 } else { 1u8 }
            &&& u32_at(d, start + 8) == a_s.len()
            &&& u32_at(d, start + 0xC) == keys.len()
            &&& i32_at(d, start + 0x10) == b_start(a_s)
            &&& i32_at(d, start + 0x14) == k_start(a_s, bs)
            &&& d.subrange(start + 0x18, start + 0x1C) == zeros(4)
            &&& i32_at(d, start + 0x1C) == s_off
            &&& d.subrange(start + 0x20, start + 0x30) == zeros(16)
            &&& at(d, start + 0x30, all_a_bytes(a_s))
            &&& at(d, start + b_start(a_s), all_b_bytes(bs))
            &&& at(d, start + k_start(a_s, bs), words_bytes(keys))
            &&& at(d, start + s_off, utf8_strings_bytes(utf8))
            &&& at(d, start + s_off + utf8_strings_bytes(utf8).len(), opt_utf16_bytes(utf16))
            &&& x.len() == s_off + utf8_strings_bytes(utf8).len() + opt_utf16_bytes(utf16).len()
        }),
{
    lemma_piece_lens();
    let x = jxb_bytes(a_s, bs, keys, utf8, utf16);
    let ab = all_a_bytes(a_s);
    let bb = all_b_bytes(bs);
    let kb = words_bytes(keys);
    let b_off = b_start(a_s);
    let k_off = k_start(a_s, bs);
    let s_off = s_start(a_s, bs, keys);
    lemma_pad(0x30int + ab.len());
    lemma_pad(b_off + bb.len());
    lemma_pad(k_off + kb.len());
    let flag = if utf16 is Some { 2u8 } else { 1u8 };
    let h1 = jxb_magic() + seq![flag];
    let h2 = h1 + le32(a_s.len() as u32);
    let h3 = h2 + le32(keys.len() as u32);
    let h4 = h3 + lei32(b_off as i32);
    let h5 = h4 + lei32(k_off as i32);
    let h6 = h5 + zeros(4);
    let h7 = h6 + lei32(s_off as i32);
    let header = h7 + zeros(16);
    let r1 = header + ab;
    let r2 = r1 + pad16(0x30int + ab.len());
    let r3 = r2 + bb;
    let r4 = r3 + pad16(b_off + bb.len());
    let r5 = r4 + kb;
    let r6 = r5 + pad16(k_off + kb.len());
    let r7 = r6 + utf8_strings_bytes(utf8);
    assert(x == r7 + opt_utf16_bytes(utf16));
    assert(header.len() == 0x30);
    lemma_at_whole(x);
    lemma_at_split(x, 0, r7, opt_utf16_bytes(utf16));
    lemma_at_split(x, 0, r6, utf8_strings_bytes(utf8));
    lemma_at_split(x, 0, r5, pad16(k_off + kb.len()));
    lemma_at_split(x, 0, r4, kb);
    lemma_at_split(x, 0, r3, pad16(b_off + bb.len()));
    lemma_at_split(x, 0, r2, bb);
    lemma_at_split(x, 0, r1, pad16(0x30int + ab.len()));
    lemma_at_split(x, 0, header, ab);
    lemma_at_split(x, 0, h7, zeros(16));
    lemma_at_split(x, 0, h6, lei32(s_off as i32));
    lemma_at_split(x, 0, h5, zeros(4));
    lemma_at_split(x, 0, h4, lei32(k_off as i32));
    lemma_at_split(x, 0, h3, lei32(b_off as i32));
    lemma_at_split(x, 0, h2, le32(keys.len() as u32));
    lemma_at_split(x, 0, h1, le32(a_s.len() as u32));
    lemma_at_split(x, 0, jxb_magic(), seq![flag]);
    lemma_at_within(d, start, x, 0, jxb_magic());
    lemma_at_within(d, start, x, 7, seq![flag]);
    lemma_at_within(d, start, x, 8, le32(a_s.len() as u32));
    lemma_at_within(d, start, x, 0xC, le32(keys.len() as u32));
    lemma_at_within(d, start, x, 0x10, lei32(b_off as i32));
    lemma_at_within(d, start, x, 0x14, lei32(k_off as i32));
    lemma_at_within(d, start, x, 0x18, zeros(4));
    lemma_at_within(d, start, x, 0x1C, lei32(s_off as i32));
    lemma_at_within(d, start, x, 0x20, zeros(16));
    lemma_at_within(d, start, x, 0x30, ab);
    lemma_at_within(d, start, x, b_off, bb);
    lemma_at_within(d, start, x, k_off, kb);
    lemma_at_within(d, start, x, s_off, utf8_strings_bytes(utf8));
    lemma_at_within(d, start, x, s_off + utf8_strings_bytes(utf8).len(), opt_utf16_bytes(utf16));
    lemma_at_index(d, start + 7, seq![flag], 0);
    lemma_read_u32(d, start + 8, a_s.len() as u32);
    lemma_read_u32(d, start + 0xC, keys.len() as u32);
    lemma_read_i32(d, start + 0x10, b_off as i32);
    lemma_read_i32(d, start + 0x14, k_off as i32);
    lemma_read_i32(d, start + 0x1C, s_off as i32);
}

/// Pieces of one width lie one after the other at multiples of the width.
pub proof fn lemma_concat_map_fixed<T>(s: Seq<T>, f: spec_fn(T) -> Seq<u8>, w: int, i: int)
    requires
        w >= 0,
        forall|x: T| #[trigger] f(x).len() == w,
        0 <= i < s.len(),
    ensures
        concat_map(s, f).len() == w * s.len(),
        concat_map(s, f).subrange(w * i, w * i + w) == f(s[i]),
    decreases s.len(),
{
    lemma_concat_map_len(s, f, w);
    let front = concat_map(s.drop_last(), f);
    lemma_concat_map_len(s.drop_last(), f, w);
    assert(w * i + w <= w * s.len()) by (nonlinear_arith)
        requires
            0 <= i < s.len(),
            w >= 0,
    ;
    if i == s.len() - 1 {
        assert(front.len() == w * i) by (nonlinear_arith)
            requires
                front.len() == w * (s.len() - 1),
                i == s.len() - 1,
        ;
        assert((front + f(s.last())).subrange(w * i, w * i + w) =~= f(s.last()));
    } else {
        lemma_concat_map_fixed(s.drop_last(), f, w, i);
        assert(w * i + w <= front.len()) by (nonlinear_arith)
            requires
                front.len() == w * (s.len() - 1),
                0 <= i < s.len() - 1,
                w >= 0,
        ;
        assert((front + f(s.last())).subrange(w * i, w * i + w) =~= front.subrange(w * i, w * i + w));
        assert(s.drop_last()[i] == s[i]);
    }
}

pub proof fn lemma_concat_map_len<T>(s: Seq<T>, f: spec_fn(T) -> Seq<u8>, w: int)
    requires
        w >= 0,
        forall|x: T| #[trigger] f(x).len() == w,
    ensures
        concat_map(s, f).len() == w * s.len(),
    decreases s.len(),
{
    if s.len() > 0 {
        lemma_concat_map_len(s.drop_last(), f, w);
        assert(w * (s.len() - 1) + w == w * s.len()) by (nonlinear_arith);
    }
}

/// A fixed record's bytes, as a function.
pub open spec fn a_piece() -> spec_fn(NodeDataA) -> Seq<u8> {
    |a: NodeDataA| a_bytes(a)
}

/// A stored tag's bytes, as a function.
pub open spec fn tag_piece(wide: bool) -> spec_fn(TagData) -> Seq<u8> {
    |t: TagData| tag_bytes(t, wide)
}

/// A word's bytes, as a function.
pub open spec fn word_piece() -> spec_fn(i32) -> Seq<u8> {
    |x: i32| lei32(x)
}

proof fn lemma_all_a_bytes_concat(v: Seq<NodeDataA>)
    ensures
        all_a_bytes(v) == concat_map(v, a_piece()),
    decreases v.len(),
{
    if v.len() > 0 {
        lemma_all_a_bytes_concat(v.drop_last());
    }
}

proof fn lemma_tags_bytes_concat(v: Seq<TagData>, wide: bool)
    ensures
        tags_bytes(v, wide) == concat_map(v, tag_piece(wide)),
    decreases v.len(),
{
    if v.len() > 0 {
        lemma_tags_bytes_concat(v.drop_last(), wide);
    }
}

proof fn lemma_words_bytes_concat(v: Seq<i32>)
    ensures
        words_bytes(v) == concat_map(v, word_piece()),
    decreases v.len(),
{
    if v.len() > 0 {
        lemma_words_bytes_concat(v.drop_last());
    }
}


/// The fixed records written from `p` read back there.
proof fn lemma_records_read_back(d: Seq<u8>, p: int, a_s: Seq<NodeDataA>)
    requires
        at(d, p, all_a_bytes(a_s)),
    ensures
        all_a_bytes(a_s).len() == 16 * a_s.len(),
        Seq::new(a_s.len(), |i: int| a_at(d, p + 16 * i)) == a_s,
{
    lemma_piece_lens();
    lemma_all_a_bytes_concat(a_s);
    let f = a_piece();
    assert forall|x: NodeDataA| #[trigger] f(x).len() == 16 by {
        assert(a_bytes(x).len() == 16);
    }
    lemma_concat_map_len(a_s, f, 16);
    let whole = all_a_bytes(a_s);
    assert forall|i: int| 0 <= i < a_s.len() implies a_at(d, p + 16 * i) == a_s[i] by {
        lemma_concat_map_fixed(a_s, f, 16, i);
        assert(at(whole, 16 * i, a_bytes(a_s[i])));
        lemma_at_within(d, p, whole, 16 * i, a_bytes(a_s[i]));
        lemma_read_a(d, p + 16 * i, a_s[i]);
    }
    assert(Seq::new(a_s.len(), |i: int| a_at(d, p + 16 * i)) =~= a_s);
}

/// The words written from `p` read back there.
proof fn lemma_words_read_back(d: Seq<u8>, p: int, v: Seq<i32>)
    requires
        at(d, p, words_bytes(v)),
    ensures
        words_bytes(v).len() == 4 * v.len(),
        parse_words(d, p, v.len() as int) == Ok::<(Seq<i32>, int), ParseError>((v, p + 4 * v.len())),
{
    lemma_piece_lens();
    lemma_words_bytes_concat(v);
    let f = word_piece();
    assert forall|x: i32| #[trigger] f(x).len() == 4 by {
        assert(lei32(x).len() == 4);
    }
    lemma_concat_map_len(v, f, 4);
    let whole = words_bytes(v);
    assert forall|i: int| 0 <= i < v.len() implies i32_at(d, p + 4 * i) == v[i] by {
        lemma_concat_map_fixed(v, f, 4, i);
        assert(at(whole, 4 * i, lei32(v[i])));
        lemma_at_within(d, p, whole, 4 * i, lei32(v[i]));
        lemma_read_i32(d, p + 4 * i, v[i]);
    }
    assert(Seq::new(v.len(), |i: int| i32_at(d, p + 4 * i)) =~= v);
}

/// The tags written from `p` read back there, with the type they share
/// where they do.
proof fn lemma_tags_read_back(d: Seq<u8>, p: int, tags: Seq<TagData>, tags_type_id: u16)
    requires
        at(d, p, tags_bytes(tags, tags_type_id == 1)),
        tags.len() <= u32::MAX,
        tags_type_id != 1 ==> forall|i: int| 0 <= i < tags.len() ==> #[trigger] tags[i].type_id == tags_type_id as u32,
    ensures
        tags_bytes(tags, tags_type_id == 1).len() == tag_width(tags_type_id) * tags.len(),
        parse_tags(d, p, tags.len() as u32, tags_type_id) == Ok::<(Seq<TagData>, int), ParseError>(
            (tags, p + tag_width(tags_type_id) * tags.len()),
        ),
{
    lemma_piece_lens();
    let wide = tags_type_id == 1;
    let w = tag_width(tags_type_id);
    lemma_tags_bytes_concat(tags, wide);
    let f = tag_piece(wide);
    assert forall|x: TagData| #[trigger] f(x).len() == w by {
        assert(tag_bytes(x, wide).len() == w);
    }
    lemma_concat_map_len(tags, f, w);
    let whole = tags_bytes(tags, wide);
    assert(w * tags.len() == tags.len() * w) by (nonlinear_arith);
    assert forall|i: int| 0 <= i < tags.len() implies tag_at(d, p + i * w, tags_type_id) == tags[i] by {
        lemma_concat_map_fixed(tags, f, w, i);
        assert(w * i == i * w) by (nonlinear_arith);
        assert(at(whole, w * i, tag_bytes(tags[i], wide)));
        lemma_at_within(d, p, whole, w * i, tag_bytes(tags[i], wide));
        lemma_read_tag(d, p + i * w, tags[i], tags_type_id);
    }
    assert(Seq::new(tags.len() as u32 as nat, |i: int| tag_at(d, p + i * w, tags_type_id)) =~= tags);
}


/// A variable record's bytes, as a function.
pub open spec fn b_piece() -> spec_fn(NodeDataBView) -> Seq<u8> {
    |b: NodeDataBView| b_bytes(b)
}

proof fn lemma_all_b_bytes_concat(v: Seq<NodeDataBView>)
    ensures
        all_b_bytes(v) == concat_map(v, b_piece()),
    decreases v.len(),
{
    if v.len() > 0 {
        lemma_all_b_bytes_concat(v.drop_last());
    }
}

/// Tags are stored as a fixed record says: as many as it counts, with the
/// type it gives, which all of them have where it is not the mark of
/// types stored with each tag.
pub open spec fn tags_stored_as(tags: Seq<TagData>, a: NodeDataA) -> bool {
    &&& a.tag_count == tags.len()
    &&& a.tags_type_id == spec_tag_type_id(tags)
    &&& a.tags_type_id != 1 ==> forall|i: int| 0 <= i < tags.len() ==> #[trigger] tags[i].type_id == a.tags_type_id as u32
}

/// A fixed record describes a variable record: its version, and the
/// number and type of its tags, or the number of its child indexes.
pub open spec fn record_matches(a: NodeDataA, b: NodeDataBView) -> bool {
    match b {
        NodeDataBView::Version1 { tags } => a.node_version == 1 && tags_stored_as(tags, a),
        NodeDataBView::Version2 { child_indexes } => a.node_version == 2 && a.tag_count == child_indexes.len(),
        NodeDataBView::Version3 { tags, .. } => a.node_version == 3 && tags_stored_as(tags, a),
    }
}

/// A variable record written from `p` reads back there.
proof fn lemma_b_read_back(d: Seq<u8>, p: int, a: NodeDataA, b: NodeDataBView)
    requires
        at(d, p, b_bytes(b)),
        record_matches(a, b),
    ensures
        parse_b(d, p, a) == Ok::<(NodeDataBView, int), ParseError>((b, p + b_bytes(b).len())),
{
    lemma_piece_lens();
    match b {
        NodeDataBView::Version1 { tags } => {
            lemma_tags_read_back(d, p, tags, a.tags_type_id);
        },
        NodeDataBView::Version2 { child_indexes } => {
            lemma_words_read_back(d, p, child_indexes);
        },
        NodeDataBView::Version3 { node_type_offset, children_start_index, child_count, text_offset, tags } => {
            let x1 = lei32(node_type_offset);
            let x2 = x1 + lei32(children_start_index);
            let x3 = x2 + lei32(child_count);
            let x4 = x3 + lei32(text_offset);
            let tb = tags_bytes(tags, spec_tag_type_id(tags) == 1);
            assert(b_bytes(b) == x4 + tb);
            lemma_at_split(d, p, x4, tb);
            lemma_at_split(d, p, x3, lei32(text_offset));
            lemma_at_split(d, p, x2, lei32(child_count));
            lemma_at_split(d, p, x1, lei32(children_start_index));
            lemma_read_i32(d, p, node_type_offset);
            lemma_read_i32(d, p + 4, children_start_index);
            lemma_read_i32(d, p + 8, child_count);
            lemma_read_i32(d, p + 12, text_offset);
            lemma_tags_read_back(d, p + 16, tags, a.tags_type_id);
        },
    }
}

/// The variable records written one after the other from `p` read back
/// there, each as its fixed record describes it.
proof fn lemma_bs_read_back(d: Seq<u8>, p: int, a_s: Seq<NodeDataA>, bs: Seq<NodeDataBView>)
    requires
        at(d, p, all_b_bytes(bs)),
        a_s.len() == bs.len(),
        forall|i: int| 0 <= i < bs.len() ==> record_matches(#[trigger] a_s[i], bs[i]),
    ensures
        parse_bs(d, p, a_s) == Ok::<(Seq<NodeDataBView>, int), ParseError>((bs, p + all_b_bytes(bs).len())),
    decreases a_s.len(),
{
    if a_s.len() > 0 {
        let first = seq![bs[0]];
        let rest = bs.drop_first();
        assert(bs =~= first + rest);
        lemma_all_b_bytes_concat(bs);
        lemma_all_b_bytes_concat(rest);
        lemma_concat_map_add(first, rest, b_piece());
        assert(first.drop_last() =~= Seq::<NodeDataBView>::empty());
        assert(concat_map(first, b_piece()) == concat_map(first.drop_last(), b_piece()) + b_bytes(bs[0]));
        assert(concat_map(first, b_piece()) =~= b_bytes(bs[0]));
        lemma_at_split(d, p, b_bytes(bs[0]), all_b_bytes(rest));
        assert(record_matches(a_s[0], bs[0]));
        lemma_b_read_back(d, p, a_s[0], bs[0]);
        assert forall|i: int| 0 <= i < rest.len() implies record_matches(#[trigger] a_s.drop_first()[i], rest[i]) by {
            assert(record_matches(a_s[i + 1], bs[i + 1]));
        }
        lemma_bs_read_back(d, p + b_bytes(bs[0]).len(), a_s.drop_first(), rest);
        assert(seq![bs[0]] + rest =~= bs);
    } else {
        assert(all_b_bytes(bs) =~= Seq::<u8>::empty());
        assert(bs =~= Seq::<NodeDataBView>::empty());
    }
}


/// A text holds no NUL character.
pub open spec fn no_nul(t: Seq<char>) -> bool {
    forall|i: int| 0 <= i < t.len() ==> (#[trigger] t[i]) as u32 != 0
}

/// A text's UTF-16 units and the zero unit after them, as a function.
pub open spec fn utf16_piece() -> spec_fn(Seq<char>) -> Seq<u8> {
    |t: Seq<char>| units_bytes(utf16_units(t)) + seq![0u8, 0u8]
}

/// A text's UTF-8 bytes and the zero after them, as a function.
pub open spec fn utf8_piece() -> spec_fn(Seq<char>) -> Seq<u8> {
    |t: Seq<char>| utf8_of(t) + seq![0u8]
}

proof fn lemma_utf8_strings_concat(v: Seq<Seq<char>>)
    ensures
        utf8_strings_bytes(v) == concat_map(v, utf8_piece()),
    decreases v.len(),
{
    if v.len() > 0 {
        lemma_utf8_strings_concat(v.drop_last());
    }
}

proof fn lemma_scalar_bytes_nonzero(c: u32)
    requires
        is_scalar(c),
        c != 0,
    ensures
        forall|i: int| 0 <= i < encode_scalar(c).len() ==> #[trigger] encode_scalar(c)[i] != 0,
{
    if has_width_1_encoding(c) {
        assert((c & 0x7F) as u8 != 0) by (bit_vector)
            requires
                0 < c <= 0x7F,
        ;
    } else if has_width_2_encoding(c) {
        assert((0xC0 | ((c >> 6) & 0x1F) as u8) != 0) by (bit_vector);
        assert((0x80 | (c & 0x3F) as u8) != 0) by (bit_vector);
    } else if has_width_3_encoding(c) {
        assert((0xE0 | ((c >> 12) & 0x0F) as u8) != 0) by (bit_vector);
        assert((0x80 | ((c >> 6) & 0x3F) as u8) != 0) by (bit_vector);
        assert((0x80 | (c & 0x3F) as u8) != 0) by (bit_vector);
    } else {
        assert((0xF0 | ((c >> 18) & 0x7) as u8) != 0) by (bit_vector);
        assert((0x80 | ((c >> 12) & 0x3F) as u8) != 0) by (bit_vector);
        assert((0x80 | ((c >> 6) & 0x3F) as u8) != 0) by (bit_vector);
        assert((0x80 | (c & 0x3F) as u8) != 0) by (bit_vector);
    }
}

/// The UTF-8 bytes of a text without NUL hold no zero byte.
proof fn lemma_utf8_no_zero(t: Seq<char>)
    requires
        no_nul(t),
    ensures
        forall|i: int| 0 <= i < utf8_of(t).len() ==> #[trigger] utf8_of(t)[i] != 0,
    decreases t.len(),
{
    if t.len() > 0 {
        let c = t[0] as u32;
        assert(c != 0);
        char_is_scalar(t[0]);
        lemma_scalar_bytes_nonzero(c);
        assert(no_nul(t.drop_first())) by {
            assert forall|i: int| 0 <= i < t.drop_first().len() implies (#[trigger] t.drop_first()[i]) as u32 != 0 by {
                assert(t.drop_first()[i] == t[i + 1]);
            }
        }
        lemma_utf8_no_zero(t.drop_first());
        let e = encode_scalar(c);
        let r = encode_utf8(t.drop_first());
        assert(utf8_of(t) == e + r);
        assert forall|i: int| 0 <= i < utf8_of(t).len() implies #[trigger] utf8_of(t)[i] != 0 by {
            if i < e.len() {
                assert(encode_scalar(c)[i] != 0);
                assert(utf8_of(t)[i] == e[i]);
            } else {
                assert(utf8_of(t.drop_first())[i - e.len()] != 0);
                assert(utf8_of(t)[i] == r[i - e.len()]);
            }
        }
    }
}

/// From a position where bytes without zero and then a zero lie, the first
/// zero is that one.
proof fn lemma_zero_after(d: Seq<u8>, q: int, x: Seq<u8>, i: int)
    requires
        at(d, q, x + seq![0u8]),
        forall|j: int| 0 <= j < x.len() ==> #[trigger] x[j] != 0,
        0 <= i <= x.len(),
    ensures
        zero_from(d, q + i) == Some(q + x.len()),
    decreases x.len() - i,
{
    lemma_at_index(d, q, x + seq![0u8], i);
    if i < x.len() {
        lemma_zero_after(d, q, x, i + 1);
    }
}


/// The space a string takes in its table: its UTF-8 bytes and a zero
/// byte, or, where `wide`, its UTF-16 units and a zero unit.
pub open spec fn string_size(t: Seq<char>, wide: bool) -> int {
    if wide {
        2 * utf16_units(t).len() + 2int
    } else {
        utf8_of(t).len() + 1int
    }
}

/// The string after string `k` of a table starts where string `k` ends.
pub open spec fn follows(p: Seq<(i32, Seq<char>)>, k: int, wide: bool) -> bool {
    p[k + 1].0 == p[k].0 + string_size(p[k].1, wide)
}

/// A table's strings lie one after the other from offset `start`, and none
/// holds NUL.
pub open spec fn packed(p: Seq<(i32, Seq<char>)>, start: int, wide: bool) -> bool {
    &&& p.len() > 0
    &&& p[0].0 == start
    &&& forall|k: int| 0 <= k < p.len() - 1 ==> #[trigger] follows(p, k, wide)
    &&& forall|k: int| 0 <= k < p.len() ==> no_nul(#[trigger] p[k].1)
}

/// Where a table laid out from `start` ends.
pub open spec fn table_end(p: Seq<(i32, Seq<char>)>, wide: bool) -> int {
    p.last().0 + string_size(p.last().1, wide)
}

/// A string's piece of bytes, as a function.
pub open spec fn string_piece(wide: bool) -> spec_fn(Seq<char>) -> Seq<u8> {
    if wide {
        utf16_piece()
    } else {
        utf8_piece()
    }
}

proof fn lemma_offsets_grow(p: Seq<(i32, Seq<char>)>, start: int, wide: bool, j: int, m: int)
    requires
        packed(p, start, wide),
        0 <= j <= m < p.len(),
    ensures
        p[j].0 <= p[m].0,
        j < m ==> p[j].0 + string_size(p[j].1, wide) <= p[m].0,
    decreases m - j,
{
    if j < m {
        assert(follows(p, j, wide));
        lemma_offsets_grow(p, start, wide, j + 1, m);
        if wide {
            assert(utf16_units(p[j].1).len() >= 0);
        }
    }
}

/// The offsets of a table laid out from `start` are where the pieces of
/// the strings before lie.
proof fn lemma_offsets_at(p: Seq<(i32, Seq<char>)>, start: int, wide: bool, k: int)
    requires
        packed(p, start, wide),
        0 <= k < p.len(),
        forall|t: Seq<char>| #[trigger] string_piece(wide)(t).len() == string_size(t, wide),
    ensures
        p[k].0 == start + concat_map(table_texts(p).take(k), string_piece(wide)).len(),
        p[k].0 + string_size(p[k].1, wide) == start + concat_map(table_texts(p).take(k + 1), string_piece(wide)).len(),
    decreases k,
{
    let strs = table_texts(p);
    let f = string_piece(wide);
    if k == 0 {
        assert(strs.take(0) =~= Seq::<Seq<char>>::empty());
    } else {
        lemma_offsets_at(p, start, wide, k - 1);
        assert(follows(p, k - 1, wide));
    }
    lemma_concat_map_at(strs, f, k);
}


proof fn lemma_piece_sizes()
    ensures
        forall|t: Seq<char>| #[trigger] string_piece(false)(t).len() == string_size(t, false),
        forall|t: Seq<char>| #[trigger] string_piece(true)(t).len() == string_size(t, true),
{
    assert forall|t: Seq<char>| #[trigger] string_piece(true)(t).len() == string_size(t, true) by {
        lemma_units_bytes_len(utf16_units(t));
    }
}

proof fn lemma_units_bytes_len(u: Seq<u16>)
    ensures
        units_bytes(u).len() == 2 * u.len(),
    decreases u.len(),
{
    lemma_piece_lens();
    if u.len() > 0 {
        lemma_units_bytes_len(u.drop_last());
    }
}

/// The pieces of a table's strings, and where the table ends.
proof fn lemma_table_bytes(p: Seq<(i32, Seq<char>)>, start: int, wide: bool)
    requires
        packed(p, start, wide),
    ensures
        start + concat_map(table_texts(p), string_piece(wide)).len() == table_end(p, wide),
        forall|k: int| 0 <= k < p.len() ==> at(
            concat_map(table_texts(p), string_piece(wide)),
            p[k].0 - start,
            #[trigger] string_piece(wide)(p[k].1),
        ),
{
    lemma_piece_sizes();
    let strs = table_texts(p);
    let n = p.len() - 1;
    lemma_offsets_at(p, start, wide, n);
    assert(strs.take(n + 1) =~= strs);
    assert forall|k: int| 0 <= k < p.len() implies at(
        concat_map(strs, string_piece(wide)),
        p[k].0 - start,
        #[trigger] string_piece(wide)(p[k].1),
    ) by {
        lemma_offsets_at(p, start, wide, k);
        lemma_concat_map_at(strs, string_piece(wide), k);
    }
}

/// The UTF-8 strings of a table written from `base` read back there, from
/// string `k` on, up to the first that reaches `end`, which is the last.
proof fn lemma_utf8_strs_read_back(d: Seq<u8>, base: int, p: Seq<(i32, Seq<char>)>, end: int, k: int)
    requires
        packed(p, 0, false),
        at(d, base, concat_map(table_texts(p), string_piece(false))),
        0 <= k < p.len(),
        base + p.last().0 < end <= base + table_end(p, false),
    ensures
        parse_utf8_strs(d, base + p[k].0, end) == Ok::<(Seq<(int, Seq<u8>)>, int), ParseError>(
            (
                Seq::new((p.len() - k) as nat, |j: int| (base + p[k + j].0, utf8_of(p[k + j].1))),
                base + table_end(p, false),
            ),
        ),
    decreases p.len() - k,
{
    lemma_table_bytes(p, 0, false);
    let whole = concat_map(table_texts(p), string_piece(false));
    let x = utf8_of(p[k].1);
    let q = base + p[k].0;
    assert(string_piece(false)(p[k].1) == x + seq![0u8]);
    lemma_at_within(d, base, whole, p[k].0 as int, x + seq![0u8]);
    lemma_at_split(d, q, x, seq![0u8]);
    assert(no_nul(p[k].1));
    lemma_utf8_no_zero(p[k].1);
    lemma_zero_after(d, q, x, 0);
    let z = q + x.len();
    assert(d.subrange(q, z) == x);
    let want = Seq::new((p.len() - k) as nat, |j: int| (base + p[k + j].0, utf8_of(p[k + j].1)));
    if k == p.len() - 1 {
        assert(want =~= seq![(q, x)]);
    } else {
        lemma_offsets_grow(p, 0, false, k + 1, p.len() - 1);
        assert(follows(p, k, false));
        lemma_utf8_strs_read_back(d, base, p, end, k + 1);
        let rest = Seq::new((p.len() - k - 1) as nat, |j: int| (base + p[k + 1 + j].0, utf8_of(p[k + 1 + j].1)));
        assert(seq![(q, x)] + rest =~= want);
    }
}


/// The UTF-8 strings read back decode to the table.
proof fn lemma_utf8_items_decode(base: int, p: Seq<(i32, Seq<char>)>, m: int)
    requires
        0 <= m <= p.len(),
    ensures
        decode_utf8_items(
            Seq::new(p.len(), |j: int| (base + p[j].0, utf8_of(p[j].1))).take(m),
            base,
        ) == Some(p.take(m)),
    decreases m,
{
    let items = Seq::new(p.len(), |j: int| (base + p[j].0, utf8_of(p[j].1)));
    if m == 0 {
        assert(items.take(0) =~= Seq::<(int, Seq<u8>)>::empty());
        assert(p.take(0) =~= Seq::<(i32, Seq<char>)>::empty());
    } else {
        lemma_utf8_items_decode(base, p, m - 1);
        assert(items.take(m).drop_last() =~= items.take(m - 1));
        let last = items.take(m).last();
        assert(last == (base + p[m - 1].0, utf8_of(p[m - 1].1)));
        encode_utf8_valid_utf8(p[m - 1].1);
        encode_utf8_decode_utf8(p[m - 1].1);
        assert(((last.0 - base) as i32) == p[m - 1].0);
        assert(p.take(m - 1).push((p[m - 1].0, p[m - 1].1)) =~= p.take(m));
    }
}


proof fn lemma_utf16_units_add(a: Seq<char>, b: Seq<char>)
    ensures
        utf16_units(a + b) == utf16_units(a) + utf16_units(b),
    decreases b.len(),
{
    if b.len() == 0 {
        assert(a + b =~= a);
        assert(utf16_units(b) =~= Seq::<u16>::empty());
        assert(utf16_units(a) + utf16_units(b) =~= utf16_units(a));
    } else {
        lemma_utf16_units_add(a, b.drop_last());
        assert((a + b).drop_last() =~= a + b.drop_last());
        assert((a + b).last() == b.last());
        assert(utf16_units(a + b) =~= utf16_units(a) + utf16_units(b));
    }
}

/// The units of one character.
proof fn lemma_utf16_units_one(c: char)
    ensures
        (c as u32) < 0x10000 ==> utf16_units(seq![c]) == seq![(c as u32) as u16],
        (c as u32) >= 0x10000 ==> utf16_units(seq![c]) == seq![
            (0xD800 + (((c as u32) - 0x10000) / 0x400)) as u16,
            (0xDC00 + (((c as u32) - 0x10000) % 0x400)) as u16,
        ],
{
    let t = seq![c];
    assert(t.drop_last() =~= Seq::<char>::empty());
    assert(utf16_units(t.drop_last()) =~= Seq::<u16>::empty());
    assert(t.last() == c);
    assert(utf16_units(seq![c]) =~= utf16_units(t.drop_last()) + if (c as u32) < 0x10000 {
        seq![(c as u32) as u16]
    } else {
        seq![
            (0xD800 + (((c as u32) - 0x10000) / 0x400)) as u16,
            (0xDC00 + (((c as u32) - 0x10000) % 0x400)) as u16,
        ]
    });
}

/// The UTF-16 units of a text decode to it.
proof fn lemma_utf16_decode(t: Seq<char>)
    ensures
        decode_utf16(utf16_units(t)) == Some(t),
    decreases t.len(),
{
    if t.len() == 0 {
        assert(utf16_units(t) =~= Seq::<u16>::empty());
    } else {
        let c = t[0];
        let v = c as u32;
        let rest = t.drop_first();
        assert(t =~= seq![c] + rest);
        lemma_utf16_units_add(seq![c], rest);
        lemma_utf16_units_one(c);
        lemma_utf16_decode(rest);
        char_is_scalar(c);
        char_u32_cast(c, v);
        let u = utf16_units(t);
        let r = utf16_units(rest);
        if v < 0x10000 {
            let u0 = v as u16;
            assert(u == seq![u0] + r);
            assert(u[0] == u0);
            assert(!(0xD800 <= u0 <= 0xDFFF));
            assert(u.drop_first() =~= r);
            assert((u0 as char) == c);
            assert(seq![u0 as char] + rest =~= t);
        } else {
            let w = v - 0x10000;
            lemma_fundamental_div_mod(w as int, 0x400);
            let hi = (0xD800 + (w / 0x400)) as u16;
            let lo = (0xDC00 + (w % 0x400)) as u16;
            assert(u == seq![hi, lo] + r);
            assert(u[0] == hi && u[1] == lo);
            assert(0xD800 <= hi <= 0xDBFF);
            assert(0xDC00 <= lo <= 0xDFFF);
            assert(u.skip(2) =~= r);
            assert(0x10000 + (hi - 0xD800) * 0x400 + (lo - 0xDC00) == v);
            assert(((0x10000 + (hi - 0xD800) * 0x400 + (lo - 0xDC00)) as char) == c);
            assert(seq![c] + rest =~= t);
        }
    }
}


/// The UTF-16 units of a text without NUL hold no zero unit.
proof fn lemma_utf16_no_zero(t: Seq<char>)
    requires
        no_nul(t),
    ensures
        forall|i: int| 0 <= i < utf16_units(t).len() ==> #[trigger] utf16_units(t)[i] != 0,
    decreases t.len(),
{
    if t.len() > 0 {
        assert(no_nul(t.drop_last())) by {
            assert forall|i: int| 0 <= i < t.drop_last().len() implies (#[trigger] t.drop_last()[i]) as u32 != 0 by {
                assert(t.drop_last()[i] == t[i]);
            }
        }
        lemma_utf16_no_zero(t.drop_last());
        let c = t.last() as u32;
        assert(t.last() == t[t.len() - 1]);
        assert(c != 0);
        let front = utf16_units(t.drop_last());
        let tail: Seq<u16> = if c < 0x10000 {
            seq![c as u16]
        } else {
            seq![(0xD800 + ((c - 0x10000) / 0x400)) as u16, (0xDC00 + ((c - 0x10000) % 0x400)) as u16]
        };
        assert(utf16_units(t) == front + tail);
        char_is_scalar(t.last());
        assert forall|j: int| 0 <= j < tail.len() implies #[trigger] tail[j] != 0 by {
            if c < 0x10000 {
                assert((c as u16) as int == c);
            } else {
                assert(c <= 0x10FFFF);
                assert(0xD800 <= tail[0]);
                assert(0xDC00 <= tail[1]);
            }
        }
        assert forall|i: int| 0 <= i < utf16_units(t).len() implies #[trigger] utf16_units(t)[i] != 0 by {
            if i < front.len() {
                assert(front[i] != 0);
            } else {
                assert(utf16_units(t)[i] == tail[i - front.len()]);
                assert(tail[i - front.len()] != 0);
            }
        }
    }
}

/// A unit's bytes, as a function.
pub open spec fn unit_piece() -> spec_fn(u16) -> Seq<u8> {
    |x: u16| le16(x)
}

proof fn lemma_units_bytes_concat(v: Seq<u16>)
    ensures
        units_bytes(v) == concat_map(v, unit_piece()),
    decreases v.len(),
{
    if v.len() > 0 {
        lemma_units_bytes_concat(v.drop_last());
    }
}

/// Units written from `q`, then a zero unit: they read back there, and the
/// first zero unit is the one after them.
proof fn lemma_units_read_back(d: Seq<u8>, q: int, u: Seq<u16>)
    requires
        at(d, q, units_bytes(u) + seq![0u8, 0u8]),
        forall|i: int| 0 <= i < u.len() ==> #[trigger] u[i] != 0,
    ensures
        zero_unit_from(d, q) == Some(q + 2 * u.len()),
        units_at(d, q, q + 2 * u.len()) == u,
{
    lemma_piece_lens();
    lemma_units_bytes_concat(u);
    let f = unit_piece();
    assert forall|x: u16| #[trigger] f(x).len() == 2 by {
        assert(le16(x).len() == 2);
    }
    lemma_concat_map_len(u, f, 2);
    let whole = units_bytes(u);
    lemma_at_split(d, q, whole, seq![0u8, 0u8]);
    assert forall|i: int| 0 <= i < u.len() implies #[trigger] u16_at(d, q + 2 * i) == u[i] && !(d[q + 2 * i] == 0
        && d[q + 2 * i + 1] == 0) by {
        lemma_concat_map_fixed(u, f, 2, i);
        lemma_unit_at(d, q, whole, u[i], 2 * i);
    }
    assert(units_at(d, q, q + 2 * u.len()) =~= u);
    lemma_at_index(d, q + whole.len(), seq![0u8, 0u8], 0);
    lemma_at_index(d, q + whole.len(), seq![0u8, 0u8], 1);
    assert forall|j: int| 0 <= j < u.len() implies !(d[q + 2 * j] == 0 && #[trigger] d[q + 2 * j + 1] == 0) by {
        assert(u16_at(d, q + 2 * j) == u[j]);
    }
    lemma_zero_unit_after(d, q, u, 0);
}

proof fn lemma_unit_at(d: Seq<u8>, q: int, whole: Seq<u8>, x: u16, r: int)
    requires
        at(d, q, whole),
        0 <= r,
        r + 2 <= whole.len(),
        whole.subrange(r, r + 2) == le16(x),
        x != 0,
    ensures
        u16_at(d, q + r) == x,
        !(d[q + r] == 0 && d[q + r + 1] == 0),
{
    assert(at(whole, r, le16(x)));
    lemma_at_within(d, q, whole, r, le16(x));
    lemma_read_u16(d, q + r, x);
    lemma_at_index(d, q + r, le16(x), 0);
    lemma_at_index(d, q + r, le16(x), 1);
    assert(x != 0 ==> !((x & 0xff) as u8 == 0 && ((x >> 8) & 0xff) as u8 == 0)) by (bit_vector);
}

proof fn lemma_zero_unit_after(d: Seq<u8>, q: int, u: Seq<u16>, i: int)
    requires
        0 <= q,
        q + 2 * u.len() + 2 <= d.len(),
        forall|j: int| 0 <= j < u.len() ==> !(d[q + 2 * j] == 0 && #[trigger] d[q + 2 * j + 1] == 0),
        d[q + 2 * u.len()] == 0 && d[q + 2 * u.len() + 1] == 0,
        0 <= i <= u.len(),
    ensures
        zero_unit_from(d, q + 2 * i) == Some(q + 2 * u.len()),
    decreases u.len() - i,
{
    if i < u.len() {
        assert(!(d[q + 2 * i] == 0 && d[q + 2 * i + 1] == 0));
        lemma_zero_unit_after(d, q, u, i + 1);
    }
}


/// The UTF-16 strings of a table written from `base + start` read back
/// there, from string `k` on, up to the first that starts at `stop`, which
/// is the last.
proof fn lemma_utf16_strs_read_back(d: Seq<u8>, base: int, p: Seq<(i32, Seq<char>)>, start: int, stop: int, k: int)
    requires
        packed(p, start, true),
        at(d, base + start, concat_map(table_texts(p), string_piece(true))),
        0 <= k < p.len(),
        stop == base + p.last().0,
    ensures
        parse_utf16_strs(d, base + p[k].0, stop) == Ok::<(Seq<(int, Seq<u16>)>, int), ParseError>(
            (
                Seq::new((p.len() - k) as nat, |j: int| (base + p[k + j].0, utf16_units(p[k + j].1))),
                base + table_end(p, true),
            ),
        ),
    decreases p.len() - k,
{
    lemma_table_bytes(p, start, true);
    let whole = concat_map(table_texts(p), string_piece(true));
    let u = utf16_units(p[k].1);
    let q = base + p[k].0;
    assert(string_piece(true)(p[k].1) == units_bytes(u) + seq![0u8, 0u8]);
    lemma_at_within(d, base + start, whole, p[k].0 - start, units_bytes(u) + seq![0u8, 0u8]);
    assert(no_nul(p[k].1));
    lemma_utf16_no_zero(p[k].1);
    lemma_units_read_back(d, q, u);
    let want = Seq::new((p.len() - k) as nat, |j: int| (base + p[k + j].0, utf16_units(p[k + j].1)));
    if k == p.len() - 1 {
        assert(want =~= seq![(q, u)]);
    } else {
        lemma_offsets_grow(p, start, true, k, p.len() - 1);
        assert(follows(p, k, true));
        lemma_utf16_strs_read_back(d, base, p, start, stop, k + 1);
        let rest = Seq::new((p.len() - k - 1) as nat, |j: int| (base + p[k + 1 + j].0, utf16_units(p[k + 1 + j].1)));
        assert(seq![(q, u)] + rest =~= want);
    }
}

/// The UTF-16 strings read back decode to the table.
proof fn lemma_utf16_items_decode(base: int, p: Seq<(i32, Seq<char>)>, m: int)
    requires
        0 <= m <= p.len(),
    ensures
        decode_utf16_items(
            Seq::new(p.len(), |j: int| (base + p[j].0, utf16_units(p[j].1))).take(m),
            base,
        ) == Some(p.take(m)),
    decreases m,
{
    let items = Seq::new(p.len(), |j: int| (base + p[j].0, utf16_units(p[j].1)));
    if m == 0 {
        assert(items.take(0) =~= Seq::<(int, Seq<u16>)>::empty());
        assert(p.take(0) =~= Seq::<(i32, Seq<char>)>::empty());
    } else {
        lemma_utf16_items_decode(base, p, m - 1);
        assert(items.take(m).drop_last() =~= items.take(m - 1));
        let last = items.take(m).last();
        assert(last == (base + p[m - 1].0, utf16_units(p[m - 1].1)));
        lemma_utf16_decode(p[m - 1].1);
        assert(((last.0 - base) as i32) == p[m - 1].0);
        assert(p.take(m - 1).push((p[m - 1].0, p[m - 1].1)) =~= p.take(m));
    }
}


proof fn lemma_utf16_strings_concat(v: Seq<Seq<char>>)
    ensures
        utf16_strings_bytes(v) == concat_map(v, utf16_piece()),
    decreases v.len(),
{
    if v.len() > 0 {
        lemma_utf16_strings_concat(v.drop_last());
    }
}

/// The tables of a file: the UTF-8 one laid out from offset 0, the UTF-16
/// one, where there is one, right after it.
pub open spec fn tables_laid_out(utf8: Seq<(i32, Seq<char>)>, utf16: Option<Seq<(i32, Seq<char>)>>) -> bool {
    &&& packed(utf8, 0, false)
    &&& utf16 matches Some(t) ==> packed(t, table_end(utf8, false), true)
}

/// The texts of the version-3 records are where the reader looks for the
/// ends of the tables: with one table, all at its last string; with two,
/// the least at the first UTF-16 string and the largest at the last.
pub open spec fn texts_placed(
    bs: Seq<NodeDataBView>,
    utf8: Seq<(i32, Seq<char>)>,
    utf16: Option<Seq<(i32, Seq<char>)>>,
) -> bool {
    match text_bounds(bs) {
        None => false,
        Some((lo, hi)) => match utf16 {
            None => lo == hi && lo == utf8.last().0,
            Some(t) => lo == t[0].0 && hi == t.last().0,
        },
    }
}

/// The strings of a table, or of an absent table.
pub open spec fn opt_texts(t: Option<Seq<(i32, Seq<char>)>>) -> Option<Seq<Seq<char>>> {
    match t {
        Some(v) => Some(table_texts(v)),
        None => None,
    }
}

/// The string tables written from `s_pos` read back there.
proof fn lemma_pool_reads_back(
    d: Seq<u8>,
    s_pos: int,
    bs: Seq<NodeDataBView>,
    utf8: Seq<(i32, Seq<char>)>,
    utf16: Option<Seq<(i32, Seq<char>)>>,
)
    requires
        at(d, s_pos, utf8_strings_bytes(table_texts(utf8))),
        at(d, s_pos + utf8_strings_bytes(table_texts(utf8)).len(), opt_utf16_bytes(opt_texts(utf16))),
        tables_laid_out(utf8, utf16),
        texts_placed(bs, utf8, utf16),
    ensures
        parse_pool(d, s_pos, if utf16 is Some { 2u8 } else { 1u8 }, text_bounds(bs), kv_max(bs)) == Ok::<
            (Seq<(i32, Seq<char>)>, Option<Seq<(i32, Seq<char>)>>, int),
            ParseError,
        >(
            (utf8, utf16, s_pos + utf8_strings_bytes(table_texts(utf8)).len() + opt_utf16_bytes(opt_texts(utf16)).len()),
        ),
{
    let flag = if utf16 is Some { 2u8 } else { 1u8 };
    let bounds = text_bounds(bs);
    let (lo, hi) = bounds.unwrap();
    lemma_piece_sizes();
    lemma_utf8_strings_concat(table_texts(utf8));
    assert(string_piece(false) == utf8_piece());
    lemma_table_bytes(utf8, 0, false);
    let len8 = utf8_strings_bytes(table_texts(utf8)).len();
    assert(len8 == table_end(utf8, false));
    let end8 = utf8_end_of(s_pos, flag, bounds, kv_max(bs));
    let n8 = utf8.len();
    assert(utf8[0].0 == 0);
    assert(string_size(utf8.last().1, false) >= 1);
    lemma_utf8_strs_read_back(d, s_pos, utf8, end8, 0);
    let items8 = Seq::new(n8, |j: int| (s_pos + utf8[j].0, utf8_of(utf8[j].1)));
    assert(Seq::new((n8 - 0) as nat, |j: int| (s_pos + utf8[0 + j].0, utf8_of(utf8[0 + j].1))) =~= items8);
    lemma_utf8_items_decode(s_pos, utf8, n8 as int);
    assert(items8.take(n8 as int) =~= items8);
    assert(utf8.take(n8 as int) =~= utf8);
    match utf16 {
        None => {},
        Some(t) => {
            lemma_utf16_strings_concat(table_texts(t));
            assert(string_piece(true) == utf16_piece());
            lemma_table_bytes(t, table_end(utf8, false), true);
            let n16 = t.len();
            lemma_utf16_strs_read_back(d, s_pos, t, table_end(utf8, false), s_pos + hi, 0);
            let items16 = Seq::new(n16, |j: int| (s_pos + t[j].0, utf16_units(t[j].1)));
            assert(Seq::new((n16 - 0) as nat, |j: int| (s_pos + t[0 + j].0, utf16_units(t[0 + j].1))) =~= items16);
            lemma_utf16_items_decode(s_pos, t, n16 as int);
            assert(items16.take(n16 as int) =~= items16);
            assert(t.take(n16 as int) =~= t);
        },
    }
}


/// What the reader meets, step by step, in the bytes written for a file
/// that lie from a multiple of 16.
#[verifier::spinoff_prover]
#[verifier::rlimit(60)]
proof fn lemma_file_steps(
    d: Seq<u8>,
    start: int,
    a_s: Seq<NodeDataA>,
    bs: Seq<NodeDataBView>,
    keys: Seq<i32>,
    utf8: Seq<(i32, Seq<char>)>,
    utf16: Option<Seq<(i32, Seq<char>)>>,
)
    requires
        at(d, start, jxb_bytes(a_s, bs, keys, table_texts(utf8), opt_texts(utf16))),
        start % 16 == 0,
        jxb_layout_fits(a_s, bs, keys),
        readable(JxbView { a_s, bs, keys, utf8, utf16 }),
    ensures
        ({
            let n = a_s.len() as int;
            let len = jxb_bytes(a_s, bs, keys, table_texts(utf8), opt_texts(utf16)).len();
            let p1 = start + b_start(a_s) + all_b_bytes(bs).len();
            let p3 = start + k_start(a_s, bs) + 4 * keys.len();
            let s_pos = start + s_start(a_s, bs, keys);
            let flag: u8 = if utf16 is Some { 2u8 } else { 1u8 };
            &&& 0 <= start
            &&& start + 0x30 <= d.len()
            &&& d.subrange(start, start + 7) == jxb_magic()
            &&& d[start + 7] == flag
            &&& u32_at(d, start + 8) == n
            &&& u32_at(d, start + 0xC) == keys.len()
            &&& i32_at(d, start + 0x10) == 0x30 + 16 * n
            &&& i32_at(d, start + 0x14) == next_multiple_of_16(p1) - start
            &&& d.subrange(start + 0x18, start + 0x1C) == zeros(4)
            &&& i32_at(d, start + 0x1C) == next_multiple_of_16(p3) - start
            &&& d.subrange(start + 0x20, start + 0x30) == zeros(16)
            &&& start + 0x30 + 16 * n <= d.len()
            &&& Seq::new(n as nat, |i: int| a_at(d, start + 0x30 + 16 * i)) == a_s
            &&& parse_bs(d, start + 0x30 + 16 * n, a_s) == Ok::<(Seq<NodeDataBView>, int), ParseError>((bs, p1))
            &&& parse_words(d, next_multiple_of_16(p1), keys.len() as int) == Ok::<(Seq<i32>, int), ParseError>(
                (keys, p3),
            )
            &&& next_multiple_of_16(p3) == s_pos
            &&& parse_pool(d, s_pos, flag, text_bounds(bs), kv_max(bs)) == Ok::<
                (Seq<(i32, Seq<char>)>, Option<Seq<(i32, Seq<char>)>>, int),
                ParseError,
            >((utf8, utf16, start + len))
        }),
{
    lemma_file_regions(d, start, a_s, bs, keys, table_texts(utf8), opt_texts(utf16));
    let n = a_s.len() as int;
    lemma_records_read_back(d, start + 0x30, a_s);
    assert((0x30 + 16 * n) % 16 == 0);
    assert(b_start(a_s) == 0x30 + 16 * n);
    lemma_bs_read_back(d, start + b_start(a_s), a_s, bs);
    lemma_next16_shift(start, b_start(a_s) + all_b_bytes(bs).len());
    lemma_words_read_back(d, start + k_start(a_s, bs), keys);
    lemma_next16_shift(start, k_start(a_s, bs) + 4 * keys.len());
    lemma_pool_reads_back(d, start + s_start(a_s, bs, keys), bs, utf8, utf16);
}

/// The bytes written for a file, lying from a multiple of 16, read back as
/// that file, and end where the reading stops, where the file is readable
/// and its regions fit.
#[verifier::spinoff_prover]
#[verifier::rlimit(40)]
pub proof fn lemma_written_file_reads_back(
    d: Seq<u8>,
    start: int,
    a_s: Seq<NodeDataA>,
    bs: Seq<NodeDataBView>,
    keys: Seq<i32>,
    utf8: Seq<(i32, Seq<char>)>,
    utf16: Option<Seq<(i32, Seq<char>)>>,
)
    requires
        at(d, start, jxb_bytes(a_s, bs, keys, table_texts(utf8), opt_texts(utf16))),
        start % 16 == 0,
        jxb_layout_fits(a_s, bs, keys),
        readable(JxbView { a_s, bs, keys, utf8, utf16 }),
    ensures
        parse_jxb(d, start) == Ok::<(JxbView, int), ParseError>(
            (
                JxbView { a_s, bs, keys, utf8, utf16 },
                start + jxb_bytes(a_s, bs, keys, table_texts(utf8), opt_texts(utf16)).len(),
            ),
        ),
{
    lemma_file_steps(d, start, a_s, bs, keys, utf8, utf16);
}

/// A file the reader gives back from its bytes: at least one node, each
/// fixed record describing its variable record, child blocks in the order
/// the reader checks, string tables laid out one string after the other
/// without NUL, and text offsets where the reader looks for the ends of the
/// tables.
pub open spec fn readable(v: JxbView) -> bool {
    &&& v.a_s.len() == v.bs.len()
    &&& v.a_s.len() > 0
    &&& forall|i: int| 0 <= i < v.bs.len() ==> record_matches(#[trigger] v.a_s[i], v.bs[i])
    &&& check_children(v.a_s, v.bs, 0, 1) is Ok
    &&& tables_laid_out(v.utf8, v.utf16)
    &&& texts_placed(v.bs, v.utf8, v.utf16)
}

/// What `Jxb::parse` reads from the bytes `Jxb::to_bytes` writes is the
/// file written, where the file is readable and its regions fit.
pub proof fn lemma_jxb_bytes_read_back(j: Jxb)
    requires
        jxb_layout_fits(j.node_data_as@, bs_view(j.node_data_bs@), j.key_string_offsets@),
        readable(jxb_view(j)),
    ensures
        ({
            let d = jxb_bytes(
                j.node_data_as@,
                bs_view(j.node_data_bs@),
                j.key_string_offsets@,
                table_texts(pool_view(j.string_pool.utf8_strings@)),
                opt_table_texts(j.string_pool.utf16_strings),
            );
            parse_jxb(d, 0) == Ok::<(JxbView, int), ParseError>((jxb_view(j), d.len() as int))
        }),
{
    let v = jxb_view(j);
    assert(opt_texts(v.utf16) == opt_table_texts(j.string_pool.utf16_strings));
    let d = jxb_bytes(v.a_s, v.bs, v.keys, table_texts(v.utf8), opt_texts(v.utf16));
    lemma_at_whole(d);
    lemma_written_file_reads_back(d, 0, v.a_s, v.bs, v.keys, v.utf8, v.utf16);
}


/// An entry's bytes, as a function.
pub open spec fn meta_piece() -> spec_fn(FileMetadata) -> Seq<u8> {
    |m: FileMetadata| meta_bytes(m)
}

proof fn lemma_all_meta_bytes_concat(v: Seq<FileMetadata>)
    ensures
        all_meta_bytes(v) == concat_map(v, meta_piece()),
    decreases v.len(),
{
    if v.len() > 0 {
        lemma_all_meta_bytes_concat(v.drop_last());
    }
}

/// The entries written from `p` read back there.
proof fn lemma_metas_read_back(d: Seq<u8>, p: int, ms: Seq<FileMetadata>)
    requires
        at(d, p, all_meta_bytes(ms)),
    ensures
        all_meta_bytes(ms).len() == 12 * ms.len(),
        Seq::new(ms.len(), |i: int| meta_at(d, p + 12 * i)) == ms,
{
    lemma_piece_lens();
    lemma_all_meta_bytes_concat(ms);
    let f = meta_piece();
    assert forall|x: FileMetadata| #[trigger] f(x).len() == 12 by {
        assert(meta_bytes(x).len() == 12);
    }
    lemma_concat_map_len(ms, f, 12);
    let whole = all_meta_bytes(ms);
    assert forall|i: int| 0 <= i < ms.len() implies meta_at(d, p + 12 * i) == ms[i] by {
        lemma_concat_map_fixed(ms, f, 12, i);
        let m = ms[i];
        assert(at(whole, 12 * i, meta_bytes(m)));
        lemma_at_within(d, p, whole, 12 * i, meta_bytes(m));
        lemma_at_split(d, p + 12 * i, lei32(m.node_index) + lei32(m.data_offset), lei32(m.data_size));
        lemma_at_split(d, p + 12 * i, lei32(m.node_index), lei32(m.data_offset));
        lemma_read_i32(d, p + 12 * i, m.node_index);
        lemma_read_i32(d, p + 12 * i + 4, m.data_offset);
        lemma_read_i32(d, p + 12 * i + 8, m.data_size);
    }
    assert(Seq::new(ms.len(), |i: int| meta_at(d, p + 12 * i)) =~= ms);
}

/// What the reader meets in an archive written with its table of files,
/// its tree and then other bytes.
#[verifier::spinoff_prover]
#[verifier::rlimit(40)]
proof fn lemma_archive_steps(
    ms: Seq<FileMetadata>,
    a_s: Seq<NodeDataA>,
    bs: Seq<NodeDataBView>,
    keys: Seq<i32>,
    utf8: Seq<(i32, Seq<char>)>,
    utf16: Option<Seq<(i32, Seq<char>)>>,
    data: Seq<u8>,
)
    requires
        ms.len() <= i32::MAX,
        jxb_layout_fits(a_s, bs, keys),
        readable(JxbView { a_s, bs, keys, utf8, utf16 }),
    ensures
        ({
            let tree = jxb_bytes(a_s, bs, keys, table_texts(utf8), opt_texts(utf16));
            let d = jxk_bytes(ms, tree) + data;
            let c = ms.len() as int;
            let start = next_multiple_of_16(12 + 12 * c);
            &&& d.len() >= 12
            &&& d.subrange(0, 4) == jxk_magic()
            &&& d.subrange(8, 12) == zeros(4)
            &&& i32_at(d, 4) == c
            &&& 12 + 12 * c <= d.len()
            &&& Seq::new(c as nat, |i: int| meta_at(d, 12 + 12 * i)) == ms
            &&& parse_jxb(d, start) == Ok::<(JxbView, int), ParseError>(
                (JxbView { a_s, bs, keys, utf8, utf16 }, start + tree.len()),
            )
            &&& d.len() == start + tree.len() + data.len()
        }),
{
    lemma_piece_lens();
    let tree = jxb_bytes(a_s, bs, keys, table_texts(utf8), opt_texts(utf16));
    let c = ms.len() as int;
    let h1 = seq![0x4Au8, 0x58u8, 0x4Bu8, 0u8];
    let h2 = h1 + lei32(c as i32);
    let h3 = h2 + zeros(4);
    let h4 = h3 + all_meta_bytes(ms);
    let h5 = h4 + pad16(12int + 12 * c);
    let x = h5 + tree;
    assert(x == jxk_bytes(ms, tree));
    let d = x + data;
    lemma_pad(12int + 12 * c);
    lemma_at_whole(d);
    lemma_at_split(d, 0, x, data);
    lemma_at_split(d, 0, h5, tree);
    lemma_at_split(d, 0, h4, pad16(12int + 12 * c));
    lemma_at_split(d, 0, h3, all_meta_bytes(ms));
    lemma_at_split(d, 0, h2, zeros(4));
    lemma_at_split(d, 0, h1, lei32(c as i32));
    lemma_read_i32(d, 4, c as i32);
    lemma_metas_read_back(d, 12, ms);
    let start = next_multiple_of_16(12 + 12 * c);
    lemma_written_file_reads_back(d, start, a_s, bs, keys, utf8, utf16);
}

/// An archive written with its table of files, its tree and then the
/// files' data reads back as that table and tree: where the tree is
/// readable and its regions fit, the table is in order, the first file's
/// data starts at the first multiple of 16 after the tree, and, where there
/// are no files, nothing follows the tree.
pub proof fn lemma_archive_reads_back(
    ms: Seq<FileMetadata>,
    a_s: Seq<NodeDataA>,
    bs: Seq<NodeDataBView>,
    keys: Seq<i32>,
    utf8: Seq<(i32, Seq<char>)>,
    utf16: Option<Seq<(i32, Seq<char>)>>,
    data: Seq<u8>,
)
    requires
        ms.len() <= i32::MAX,
        files_in_order(ms),
        jxb_layout_fits(a_s, bs, keys),
        readable(JxbView { a_s, bs, keys, utf8, utf16 }),
        ({
            let tree = jxb_bytes(a_s, bs, keys, table_texts(utf8), opt_texts(utf16));
            let end = next_multiple_of_16(12 + 12 * ms.len() as int) + tree.len();
            &&& ms.len() == 0 ==> data.len() == 0
            &&& ms.len() > 0 ==> ms[0].data_offset as u32 == next_multiple_of_16(end)
        }),
    ensures
        parse_jxk(jxk_bytes(ms, jxb_bytes(a_s, bs, keys, table_texts(utf8), opt_texts(utf16))) + data)
            == Ok::<(Seq<FileMetadata>, JxbView), ParseError>((ms, JxbView { a_s, bs, keys, utf8, utf16 })),
{
    lemma_archive_steps(ms, a_s, bs, keys, utf8, utf16, data);
}


/// What `Jxk::parse` reads from the bytes `Jxk::to_bytes` writes, followed
/// by the files' data, is the archive written: where its tree is readable
/// and its regions fit, its table is in order, the first file's data starts
/// at the first multiple of 16 after the tree, and, where there are no
/// files, nothing follows the tree.
pub proof fn lemma_jxk_bytes_read_back(k: Jxk, data: Seq<u8>)
    requires
        k.file_metadatas@.len() <= i32::MAX,
        files_in_order(k.file_metadatas@),
        jxb_layout_fits(k.jxb.node_data_as@, bs_view(k.jxb.node_data_bs@), k.jxb.key_string_offsets@),
        readable(jxb_view(k.jxb)),
        ({
            let tree = jxb_bytes(
                k.jxb.node_data_as@,
                bs_view(k.jxb.node_data_bs@),
                k.jxb.key_string_offsets@,
                table_texts(pool_view(k.jxb.string_pool.utf8_strings@)),
                opt_table_texts(k.jxb.string_pool.utf16_strings),
            );
            let end = next_multiple_of_16(12 + 12 * k.file_metadatas@.len() as int) + tree.len();
            &&& k.file_metadatas@.len() == 0 ==> data.len() == 0
            &&& k.file_metadatas@.len() > 0 ==> k.file_metadatas@[0].data_offset as u32 == next_multiple_of_16(end)
        }),
    ensures
        ({
            let tree = jxb_bytes(
                k.jxb.node_data_as@,
                bs_view(k.jxb.node_data_bs@),
                k.jxb.key_string_offsets@,
                table_texts(pool_view(k.jxb.string_pool.utf8_strings@)),
                opt_table_texts(k.jxb.string_pool.utf16_strings),
            );
            parse_jxk(jxk_bytes(k.file_metadatas@, tree) + data) == Ok::<(Seq<FileMetadata>, JxbView), ParseError>(
                (k.file_metadatas@, jxb_view(k.jxb)),
            )
        }),
{
    let v = jxb_view(k.jxb);
    assert(opt_texts(v.utf16) == opt_table_texts(k.jxb.string_pool.utf16_strings));
    lemma_archive_reads_back(k.file_metadatas@, v.a_s, v.bs, v.keys, v.utf8, v.utf16, data);
}


/// A piece of the front part lies where it did.
pub proof fn lemma_at_prefix(a: Seq<u8>, b: Seq<u8>, p: int, x: Seq<u8>)
    requires
        at(a, p, x),
    ensures
        at(a + b, p, x),
{
    assert((a + b).subrange(p, p + x.len()) =~= a.subrange(p, p + x.len()));
}

proof fn lemma_archive_image_parts(header: Seq<u8>, datas: Seq<Seq<u8>>, sizes: Seq<u64>, k: int)
    requires
        sizes.len() == datas.len(),
        forall|j: int| 0 <= j < datas.len() ==> (#[trigger] sizes[j]) == datas[j].len(),
        0 <= k <= datas.len(),
    ensures
        archive_image(header, datas.take(k)).len() == if k == 0 {
            header.len() as int
        } else {
            file_offset(header.len() as int, sizes, k - 1) + sizes[k - 1]
        },
        forall|j: int| 0 <= j < k ==> at(archive_image(header, datas.take(k)), file_offset(header.len() as int, sizes, j), #[trigger] datas[j]),
    decreases k,
{
    if k == 0 {
        assert(datas.take(0) =~= Seq::<Seq<u8>>::empty());
    } else {
        lemma_archive_image_parts(header, datas, sizes, k - 1);
        let q = datas.take(k);
        assert(q.drop_last() =~= datas.take(k - 1));
        assert(q.last() == datas[k - 1]);
        let before = archive_image(header, datas.take(k - 1));
        let front = before + pad16(before.len() as int);
        lemma_pad(before.len() as int);
        assert(front.len() == file_offset(header.len() as int, sizes, k - 1)) by {
            if k - 1 > 0 {
                assert(file_offset(header.len() as int, sizes, k - 1) == next_multiple_of_16(
                    file_offset(header.len() as int, sizes, k - 2) + sizes[k - 2],
                ));
            }
        }
        assert(archive_image(header, q) == front + datas[k - 1]);
        lemma_at_whole(archive_image(header, q));
        lemma_at_split(archive_image(header, q), 0, front, datas[k - 1]);
        assert forall|j: int| 0 <= j < k implies at(archive_image(header, q), file_offset(header.len() as int, sizes, j), #[trigger] datas[j]) by {
            if j < k - 1 {
                lemma_at_prefix(before, pad16(before.len() as int), file_offset(header.len() as int, sizes, j), datas[j]);
                lemma_at_prefix(front, datas[k - 1], file_offset(header.len() as int, sizes, j), datas[j]);
            }
        }
    }
}

/// In the bytes of an archive assembled after its header, each file's data
/// lies at the offset that placing the files records, and is what reading
/// the file's entry gives back, where its offset and size fit in an `i32`.
pub proof fn lemma_placed_files_read_back(header: Seq<u8>, datas: Seq<Seq<u8>>, sizes: Seq<u64>, i: int, node_index: i32)
    requires
        sizes.len() == datas.len(),
        forall|j: int| 0 <= j < datas.len() ==> (#[trigger] sizes[j]) == datas[j].len(),
        0 <= i < datas.len(),
    ensures
        at(archive_image(header, datas), file_offset(header.len() as int, sizes, i), datas[i]),
        ({
            let d = archive_image(header, datas);
            let m = FileMetadata {
                node_index,
                data_offset: file_offset(header.len() as int, sizes, i) as i32,
                data_size: sizes[i] as i32,
            };
            file_offset(header.len() as int, sizes, i) + sizes[i] <= i32::MAX ==> d.subrange(
                file_start(d.len() as int, m),
                file_end(d.len() as int, m),
            ) == datas[i]
        }),
{
    lemma_archive_image_parts(header, datas, sizes, datas.len() as int);
    assert(datas.take(datas.len() as int) =~= datas);
    assert(at(archive_image(header, datas), file_offset(header.len() as int, sizes, i), datas[i]));
    lemma_file_offset_nonneg(header.len() as int, sizes, i);
}

proof fn lemma_file_offset_nonneg(h: int, sizes: Seq<u64>, i: int)
    requires
        0 <= h,
    ensures
        file_offset(h, sizes, i) >= 0,
    decreases i,
{
    if i > 0 {
        lemma_file_offset_nonneg(h, sizes, i - 1);
        lemma_pad(file_offset(h, sizes, i - 1) + sizes[i - 1]);
    } else {
        lemma_pad(h);
    }
}

/// The lengths of the pieces of records.
pub proof fn lemma_piece_lens()
    ensures
        forall|x: u16| #[trigger] le16(x).len() == 2,
        forall|x: u32| #[trigger] le32(x).len() == 4,
        forall|x: i32| #[trigger] lei32(x).len() == 4,
        forall|a: NodeDataA| #[trigger] a_bytes(a).len() == 16,
        forall|t: TagData, wide: bool| #[trigger] tag_bytes(t, wide).len() == if wide { 12int } else { 8int },
        forall|m: FileMetadata| #[trigger] meta_bytes(m).len() == 12,
{
    lemma_auto_spec_u32_to_from_le_bytes();
}

/// Where bytes hold the little-endian bytes of a value, the value is read
/// there.
pub proof fn lemma_read_u32(d: Seq<u8>, p: int, v: u32)
    requires
        0 <= p,
        p + 4 <= d.len(),
        d.subrange(p, p + 4) == le32(v),
    ensures
        u32_at(d, p) == v,
{
    lemma_auto_spec_u32_to_from_le_bytes();
    assert(spec_u32_to_le_bytes(v).len() == 4);
    assert(spec_u32_from_le_bytes(spec_u32_to_le_bytes(v)) == v);
}

pub proof fn lemma_read_i32(d: Seq<u8>, p: int, v: i32)
    requires
        0 <= p,
        p + 4 <= d.len(),
        d.subrange(p, p + 4) == lei32(v),
    ensures
        i32_at(d, p) == v,
{
    lemma_read_u32(d, p, #[verifier::truncate] (v as u32));
    assert(#[verifier::truncate] ((#[verifier::truncate] (v as u32)) as i32) == v) by (bit_vector);
}

pub proof fn lemma_read_u16(d: Seq<u8>, p: int, v: u16)
    requires
        0 <= p,
        p + 2 <= d.len(),
        d.subrange(p, p + 2) == le16(v),
    ensures
        u16_at(d, p) == v,
{
    lemma_at_index(d, p, le16(v), 0);
    lemma_at_index(d, p, le16(v), 1);
    let b0 = d[p];
    let b1 = d[p + 1];
    assert(b0 == (v & 0xff) as u8 && b1 == ((v >> 8) & 0xff) as u8 ==> ((b0 as u16) | ((b1 as u16) << 8)) == v) by (bit_vector);
}

/// A part of a part is a part.
pub proof fn lemma_sub_sub(d: Seq<u8>, p: int, q: int, a: int, b: int)
    requires
        0 <= p <= q <= d.len(),
        0 <= a <= b <= q - p,
    ensures
        d.subrange(p, q).subrange(a, b) == d.subrange(p + a, p + b),
{
    assert(d.subrange(p, q).subrange(a, b) =~= d.subrange(p + a, p + b));
}

/// A fixed record reads back where its bytes are.
pub proof fn lemma_read_a(d: Seq<u8>, p: int, a: NodeDataA)
    requires
        0 <= p,
        p + 16 <= d.len(),
        d.subrange(p, p + 16) == a_bytes(a),
    ensures
        a_at(d, p) == a,
{
    lemma_piece_lens();
    let x = a_bytes(a);
    assert(x.subrange(0, 2) =~= le16(a.node_version));
    assert(x.subrange(2, 4) =~= le16(a.tags_type_id));
    assert(x.subrange(4, 8) =~= le32(a.tag_count));
    assert(x.subrange(8, 12) =~= lei32(a.b_offset));
    assert(x.subrange(12, 16) =~= lei32(a.parent_index));
    lemma_sub_sub(d, p, p + 16, 0, 2);
    lemma_sub_sub(d, p, p + 16, 2, 4);
    lemma_sub_sub(d, p, p + 16, 4, 8);
    lemma_sub_sub(d, p, p + 16, 8, 12);
    lemma_sub_sub(d, p, p + 16, 12, 16);
    lemma_read_u16(d, p, a.node_version);
    lemma_read_u16(d, p + 2, a.tags_type_id);
    lemma_read_u32(d, p + 4, a.tag_count);
    lemma_read_i32(d, p + 8, a.b_offset);
    lemma_read_i32(d, p + 12, a.parent_index);
}

/// A stored tag reads back where its bytes are, its type being the shared
/// one where it is not stored.
pub proof fn lemma_read_tag(d: Seq<u8>, p: int, t: TagData, tags_type_id: u16)
    requires
        0 <= p,
        p + (if tags_type_id == 1 { 12int } else { 8int }) <= d.len(),
        d.subrange(p, p + (if tags_type_id == 1 { 12int } else { 8int })) == tag_bytes(t, tags_type_id == 1),
        tags_type_id != 1 ==> t.type_id == tags_type_id as u32,
    ensures
        tag_at(d, p, tags_type_id) == t,
{
    lemma_piece_lens();
    let wide = tags_type_id == 1;
    let w: int = if wide { 12 } else { 8 };
    let x = tag_bytes(t, wide);
    lemma_sub_sub(d, p, p + w, 0, 4);
    assert(x.subrange(0, 4) =~= lei32(t.key_offset));
    lemma_read_i32(d, p, t.key_offset);
    if wide {
        assert(x.subrange(4, 8) =~= le32(t.type_id));
        assert(x.subrange(8, 12) =~= lei32(t.value));
        lemma_sub_sub(d, p, p + w, 4, 8);
        lemma_sub_sub(d, p, p + w, 8, 12);
        lemma_read_u32(d, p + 4, t.type_id);
        lemma_read_i32(d, p + 8, t.value);
    } else {
        assert(x.subrange(4, 8) =~= lei32(t.value));
        lemma_sub_sub(d, p, p + w, 4, 8);
        lemma_read_i32(d, p + 4, t.value);
    }
}

} // verus!
