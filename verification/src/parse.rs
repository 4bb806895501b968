//! Reading `jxb` files and `jxk` archives from their bytes.

use vstd::prelude::*;
use vstd::bytes::{spec_u32_from_le_bytes, u32_from_le_bytes};
use vstd::slice::{slice_subrange, slice_to_vec};
use vstd::utf8::{decode_utf8, valid_utf8};
use crate::crypt::next_multiple_of_16;
use crate::jxb::{b_tags, bs_view, pool_view, Jxb, NodeDataA, NodeDataB, NodeDataBView, StringPool, TagData, TagDatas};
use crate::format::jxb_magic;
use crate::jxk::{FileMetadata, Jxk};

verus! {

/// Why bytes are not a `jxb` file or a `jxk` archive.
#[derive(Clone, Copy, Debug, PartialEq, Eq, Structural)]
pub enum ParseError {
    /// The bytes end inside a record or a string.
    Truncated,
    /// The bytes at this position are not the fixed bytes the format has
    /// there.
    BadMagic(u64),
    /// The flag telling whether texts are in UTF-16 is neither 1 nor 2.
    BadStringFlag(u8),
    /// The file has no nodes.
    NoNodes,
    /// A region does not start where the header says; the header's offset
    /// is given.
    Misplaced(i32),
    /// A node record has an unknown version.
    BadVersion(u16),
    /// The node has no children but does not point to `-1`.
    NoChildrenButStart(u64),
    /// The node's block of children is not where the order of nodes puts
    /// it.
    WrongChildrenStart { node: u64, found: i32, expected: i32 },
    /// The node does not point back to its parent.
    WrongParent(u64),
    /// A block of children points past the nodes.
    ChildOutOfRange(i64),
    /// Texts kept in the UTF-8 table are not all at one offset.
    UnequalTextOffsets,
    /// A string is not valid UTF-8.
    BadUtf8,
    /// A string is not valid UTF-16.
    BadUtf16,
    /// An archive's table of files is not in order.
    BadFileTable,
    /// Bytes follow an archive that has no files.
    NotAtEnd,
    /// The first file's data does not start where the tree ends; the
    /// aligned end of the tree is given.
    UnexpectedEnd(u64),
}

/// The `u16` stored at `p`.
pub open spec fn u16_at(d: Seq<u8>, p: int) -> u16 {
    (d[p] as u16) | ((d[p + 1] as u16) << 8)
}

/// The `u32` stored at `p`.
pub open spec fn u32_at(d: Seq<u8>, p: int) -> u32 {
    spec_u32_from_le_bytes(d.subrange(p, p + 4))
}

/// The `i32` stored at `p`.
pub open spec fn i32_at(d: Seq<u8>, p: int) -> i32 {
    u32_at(d, p) as i32
}

/// The fixed record stored at `p`.
pub open spec fn a_at(d: Seq<u8>, p: int) -> NodeDataA {
    NodeDataA {
        node_version: u16_at(d, p),
        tags_type_id: u16_at(d, p + 2),
        tag_count: u32_at(d, p + 4),
        b_offset: i32_at(d, p + 8),
        parent_index: i32_at(d, p + 12),
    }
}

/// The width of a stored tag: 12 bytes where each tag has its own type,
/// else 8.
pub open spec fn tag_width(tags_type_id: u16) -> int {
    if tags_type_id == 1 { 12 } else { 8 }
}

/// The tag stored at `p`; where the tags share a type, it is the shared
/// one.
pub open spec fn tag_at(d: Seq<u8>, p: int, tags_type_id: u16) -> TagData {
    if tags_type_id == 1 {
        TagData { key_offset: i32_at(d, p), type_id: u32_at(d, p + 4), value: i32_at(d, p + 8) }
    } else {
        TagData { key_offset: i32_at(d, p), type_id: tags_type_id as u32, value: i32_at(d, p + 4) }
    }
}

/// The `count` tags stored from `p`, and where they end.
pub open spec fn parse_tags(d: Seq<u8>, p: int, count: u32, tags_type_id: u16) -> Result<(Seq<TagData>, int), ParseError> {
    let end = p + count * tag_width(tags_type_id);
    if end > d.len() {
        Err(ParseError::Truncated)
    } else {
        Ok((Seq::new(count as nat, |i: int| tag_at(d, p + i * tag_width(tags_type_id), tags_type_id)), end))
    }
}

/// The `count` words stored from `p`, and where they end.
pub open spec fn parse_words(d: Seq<u8>, p: int, count: int) -> Result<(Seq<i32>, int), ParseError> {
    if p + 4 * count > d.len() {
        Err(ParseError::Truncated)
    } else {
        Ok((Seq::new(count as nat, |i: int| i32_at(d, p + 4 * i)), p + 4 * count))
    }
}

/// The variable record of a node with fixed record `a`, stored at `p`, and
/// where it ends.
pub open spec fn parse_b(d: Seq<u8>, p: int, a: NodeDataA) -> Result<(NodeDataBView, int), ParseError> {
    if a.node_version == 1 {
        match parse_tags(d, p, a.tag_count, a.tags_type_id) {
            Ok((tags, e)) => Ok((NodeDataBView::Version1 { tags }, e)),
            Err(x) => Err(x),
        }
    } else if a.node_version == 2 {
        match parse_words(d, p, a.tag_count as int) {
            Ok((child_indexes, e)) => Ok((NodeDataBView::Version2 { child_indexes }, e)),
            Err(x) => Err(x),
        }
    } else if a.node_version == 3 {
        if p + 16 > d.len() {
            Err(ParseError::Truncated)
        } else {
            match parse_tags(d, p + 16, a.tag_count, a.tags_type_id) {
                Ok((tags, e)) => Ok((
                    NodeDataBView::Version3 {
                        node_type_offset: i32_at(d, p),
                        children_start_index: i32_at(d, p + 4),
                        child_count: i32_at(d, p + 8),
                        text_offset: i32_at(d, p + 12),
                        tags,
                    },
                    e,
                )),
                Err(x) => Err(x),
            }
        }
    } else {
        Err(ParseError::BadVersion(a.node_version))
    }
}

/// The variable records of nodes with fixed records `a_s`, stored one
/// after the other from `p`, and where they end.
pub open spec fn parse_bs(d: Seq<u8>, p: int, a_s: Seq<NodeDataA>) -> Result<(Seq<NodeDataBView>, int), ParseError>
    decreases a_s.len(),
{
    if a_s.len() == 0 {
        Ok((Seq::empty(), p))
    } else {
        match parse_b(d, p, a_s[0]) {
            Err(x) => Err(x),
            Ok((b, e)) => match parse_bs(d, e, a_s.drop_first()) {
                Err(x) => Err(x),
                Ok((rest, e2)) => Ok((seq![b] + rest, e2)),
            },
        }
    }
}

/// The first child in `[k, end)` that does not point back to `parent`.
pub open spec fn check_parents(a_s: Seq<NodeDataA>, parent: int, k: int, end: int) -> Result<(), ParseError>
    decreases end - k,
{
    if k >= end {
        Ok(())
    } else if k < 0 || k >= a_s.len() {
        Err(ParseError::ChildOutOfRange(k as i64))
    } else if a_s[k].parent_index != parent {
        Err(ParseError::WrongParent(k as u64))
    } else {
        check_parents(a_s, parent, k + 1, end)
    }
}

/// Each version-3 node from index `i` on with children has them as the
/// next block after those of the nodes before it, starting at
/// `child_index`, and they point back to it; a node without children
/// points to `-1`.
pub open spec fn check_children(a_s: Seq<NodeDataA>, bs: Seq<NodeDataBView>, i: int, child_index: int) -> Result<(), ParseError>
    decreases bs.len() - i,
{
    if i >= bs.len() || i < 0 {
        Ok(())
    } else {
        match bs[i] {
            NodeDataBView::Version3 { children_start_index, child_count, .. } => if child_count == 0 {
                if children_start_index != -1 {
                    Err(ParseError::NoChildrenButStart(i as u64))
                } else {
                    check_children(a_s, bs, i + 1, child_index)
                }
            } else if children_start_index != child_index {
                Err(ParseError::WrongChildrenStart { node: i as u64, found: children_start_index, expected: child_index as i32 })
            } else {
                match check_parents(a_s, i, children_start_index as int, children_start_index + child_count) {
                    Err(x) => Err(x),
                    Ok(_) => check_children(a_s, bs, i + 1, children_start_index + child_count),
                }
            },
            _ => check_children(a_s, bs, i + 1, child_index),
        }
    }
}

/// The first zero byte at or after `p`.
pub open spec fn zero_from(d: Seq<u8>, p: int) -> Option<int>
    decreases d.len() - p,
{
    if p < 0 || p >= d.len() {
        None
    } else if d[p] == 0 {
        Some(p)
    } else {
        zero_from(d, p + 1)
    }
}

pub proof fn lemma_zero_from(d: Seq<u8>, p: int)
    ensures
        zero_from(d, p) matches Some(z) ==> p <= z < d.len() && d[z] == 0 && forall|k: int| p <= k < z ==> d[k] != 0,
    decreases d.len() - p,
{
    if 0 <= p < d.len() && d[p] != 0 {
        lemma_zero_from(d, p + 1);
    }
}

/// The NUL-terminated byte strings stored from `p` on, each with its
/// position, up to and including the first that reaches `end`; and where
/// they end.
pub open spec fn parse_utf8_strs(d: Seq<u8>, p: int, end: int) -> Result<(Seq<(int, Seq<u8>)>, int), ParseError>
    decreases d.len() - p,
{
    match zero_from(d, p) {
        None => Err(ParseError::Truncated),
        Some(z) => {
            proof {
                lemma_zero_from(d, p);
            }
            let item = (p, d.subrange(p, z));
            if z + 1 >= end {
                Ok((seq![item], z + 1))
            } else {
                match parse_utf8_strs(d, z + 1, end) {
                    Ok((rest, e)) => Ok((seq![item] + rest, e)),
                    Err(x) => Err(x),
                }
            }
        },
    }
}

/// The first zero unit at `p` or at an even distance after it.
pub open spec fn zero_unit_from(d: Seq<u8>, p: int) -> Option<int>
    decreases d.len() - p,
{
    if p < 0 || p + 2 > d.len() {
        None
    } else if d[p] == 0 && d[p + 1] == 0 {
        Some(p)
    } else {
        zero_unit_from(d, p + 2)
    }
}

pub proof fn lemma_zero_unit_from(d: Seq<u8>, p: int)
    ensures
        zero_unit_from(d, p) matches Some(z) ==> p <= z && z + 2 <= d.len() && (z - p) % 2 == 0 && d[z] == 0 && d[z + 1] == 0,
    decreases d.len() - p,
{
    if 0 <= p && p + 2 <= d.len() && !(d[p] == 0 && d[p + 1] == 0) {
        lemma_zero_unit_from(d, p + 2);
    }
}

/// The units stored from `p` up to `z`.
pub open spec fn units_at(d: Seq<u8>, p: int, z: int) -> Seq<u16> {
    Seq::new(((z - p) / 2) as nat, |i: int| u16_at(d, p + 2 * i))
}

/// The zero-terminated UTF-16 strings stored from `p` on, each with its
/// position, up to and including the first that starts at or after
/// `stop`; and where they end.
pub open spec fn parse_utf16_strs(d: Seq<u8>, p: int, stop: int) -> Result<(Seq<(int, Seq<u16>)>, int), ParseError>
    decreases d.len() - p,
{
    match zero_unit_from(d, p) {
        None => Err(ParseError::Truncated),
        Some(z) => {
            proof {
                lemma_zero_unit_from(d, p);
            }
            let item = (p, units_at(d, p, z));
            if p >= stop {
                Ok((seq![item], z + 2))
            } else {
                match parse_utf16_strs(d, z + 2, stop) {
                    Ok((rest, e)) => Ok((seq![item] + rest, e)),
                    Err(x) => Err(x),
                }
            }
        },
    }
}

/// The text UTF-16 units encode, if they are valid UTF-16.
pub open spec fn decode_utf16(u: Seq<u16>) -> Option<Seq<char>>
    decreases u.len(),
{
    if u.len() == 0 {
        Some(Seq::empty())
    } else if 0xD800 <= u[0] <= 0xDBFF {
        if u.len() >= 2 && 0xDC00 <= u[1] <= 0xDFFF {
            match decode_utf16(u.skip(2)) {
                Some(r) => Some(seq![(0x10000 + (u[0] - 0xD800) * 0x400 + (u[1] - 0xDC00)) as char] + r),
                None => None,
            }
        } else {
            None
        }
    } else if 0xDC00 <= u[0] <= 0xDFFF {
        None
    } else {
        match decode_utf16(u.drop_first()) {
            Some(r) => Some(seq![u[0] as char] + r),
            None => None,
        }
    }
}

/// The larger of two values.
pub open spec fn max_i32(a: i32, b: i32) -> i32 {
    if a < b { b } else { a }
}

/// The smaller of two values.
pub open spec fn min_i32(a: i32, b: i32) -> i32 {
    if a < b { a } else { b }
}

/// The largest of the key offsets, and of the values of text tags, of
/// some tags.
pub open spec fn tags_kv_max(tags: Seq<TagData>) -> Option<i32>
    decreases tags.len(),
{
    if tags.len() == 0 {
        None
    } else {
        let t = tags.last();
        let here = if t.type_id == 3 { max_i32(t.key_offset, t.value) } else { t.key_offset };
        match tags_kv_max(tags.drop_last()) {
            Some(m) => Some(max_i32(m, here)),
            None => Some(here),
        }
    }
}

/// The largest of the key offsets and text values of the tags of all
/// records.
pub open spec fn kv_max(bs: Seq<NodeDataBView>) -> Option<i32>
    decreases bs.len(),
{
    if bs.len() == 0 {
        None
    } else {
        match kv_max(bs.drop_last()) {
            Some(a) => match tags_kv_max(b_tags(bs.last())) {
                Some(b) => Some(max_i32(a, b)),
                None => Some(a),
            },
            None => tags_kv_max(b_tags(bs.last())),
        }
    }
}

/// The least and the largest text offset of the version-3 records.
pub open spec fn text_bounds(bs: Seq<NodeDataBView>) -> Option<(i32, i32)>
    decreases bs.len(),
{
    if bs.len() == 0 {
        None
    } else {
        let rest = text_bounds(bs.drop_last());
        match bs.last() {
            NodeDataBView::Version3 { text_offset, .. } => match rest {
                Some((lo, hi)) => Some((min_i32(lo, text_offset), max_i32(hi, text_offset))),
                None => Some((text_offset, text_offset)),
            },
            _ => rest,
        }
    }
}

/// The strings of a table read from byte strings at positions, the
/// offsets taken from `base`; `None` where one is not UTF-8.
pub open spec fn decode_utf8_items(items: Seq<(int, Seq<u8>)>, base: int) -> Option<Seq<(i32, Seq<char>)>>
    decreases items.len(),
{
    if items.len() == 0 {
        Some(Seq::empty())
    } else {
        match decode_utf8_items(items.drop_last(), base) {
            None => None,
            Some(done) => if valid_utf8(items.last().1) {
                Some(done.push(((items.last().0 - base) as i32, decode_utf8(items.last().1))))
            } else {
                None
            },
        }
    }
}

/// The strings of a table read from UTF-16 strings at positions, the
/// offsets taken from `base`; `None` where one is not UTF-16.
pub open spec fn decode_utf16_items(items: Seq<(int, Seq<u16>)>, base: int) -> Option<Seq<(i32, Seq<char>)>>
    decreases items.len(),
{
    if items.len() == 0 {
        Some(Seq::empty())
    } else {
        match decode_utf16_items(items.drop_last(), base) {
            None => None,
            Some(done) => match decode_utf16(items.last().1) {
                Some(t) => Some(done.push(((items.last().0 - base) as i32, t))),
                None => None,
            },
        }
    }
}

/// What a `jxb` file's bytes hold.
pub struct JxbView {
    pub a_s: Seq<NodeDataA>,
    pub bs: Seq<NodeDataBView>,
    pub keys: Seq<i32>,
    pub utf8: Seq<(i32, Seq<char>)>,
    pub utf16: Option<Seq<(i32, Seq<char>)>>,
}

/// The file a `Jxb` holds.
pub open spec fn jxb_view(j: Jxb) -> JxbView {
    JxbView {
        a_s: j.node_data_as@,
        bs: bs_view(j.node_data_bs@),
        keys: j.key_string_offsets@,
        utf8: pool_view(j.string_pool.utf8_strings@),
        utf16: match j.string_pool.utf16_strings {
            Some(v) => Some(pool_view(v@)),
            None => None,
        },
    }
}

/// Where the UTF-8 strings end: at the least text offset where the
/// version-3 records have texts (just after it where the texts are in the
/// UTF-8 table), else just after the largest key or text value.
pub open spec fn utf8_end_of(s_pos: int, flag: u8, bounds: Option<(i32, i32)>, kv: Option<i32>) -> int {
    match bounds {
        Some((lo, _)) => if flag == 1 { s_pos + lo + 1 } else { s_pos + lo },
        None => match kv {
            Some(m) => m + 1,
            None => 1,
        },
    }
}

/// Where the UTF-16 strings stop: the string at the largest text offset is
/// the last.
pub open spec fn utf16_stop_of(s_pos: int, bounds: Option<(i32, i32)>) -> int {
    match bounds {
        Some((_, hi)) => s_pos + hi,
        None => s_pos,
    }
}

/// The string tables stored from the aligned position `s_pos` of a file
/// with text flag `flag`, and where they end.
pub open spec fn parse_pool(d: Seq<u8>, s_pos: int, flag: u8, bounds: Option<(i32, i32)>, kv: Option<i32>) -> Result<
    (Seq<(i32, Seq<char>)>, Option<Seq<(i32, Seq<char>)>>, int),
    ParseError,
> {
    match parse_utf8_strs(d, s_pos, utf8_end_of(s_pos, flag, bounds, kv)) {
        Err(x) => Err(x),
        Ok((u8items, p5)) => {
            if flag == 2 {
                match parse_utf16_strs(d, p5, utf16_stop_of(s_pos, bounds)) {
                    Err(x) => Err(x),
                    Ok((u16items, end)) => match decode_utf8_items(u8items, s_pos) {
                        None => Err(ParseError::BadUtf8),
                        Some(utf8) => match decode_utf16_items(u16items, s_pos) {
                            None => Err(ParseError::BadUtf16),
                            Some(utf16) => Ok((utf8, Some(utf16), end)),
                        },
                    },
                }
            } else {
                match decode_utf8_items(u8items, s_pos) {
                    None => Err(ParseError::BadUtf8),
                    Some(utf8) => Ok((utf8, None, p5)),
                }
            }
        },
    }
}

/// The file stored from the aligned position `start`, and where it ends;
/// or why the bytes are not one. The header, the fixed records, the
/// variable records one after the other, the key offsets and the strings
/// are read in this order, each check where the format makes it.
pub open spec fn parse_jxb(d: Seq<u8>, start: int) -> Result<(JxbView, int), ParseError> {
    if start + 0x30 > d.len() {
        Err(ParseError::Truncated)
    } else if d.subrange(start, start + 7) != jxb_magic() {
        Err(ParseError::BadMagic(start as u64))
    } else if d[start + 7] != 1 && d[start + 7] != 2 {
        Err(ParseError::BadStringFlag(d[start + 7]))
    } else if u32_at(d, start + 8) == 0 {
        Err(ParseError::NoNodes)
    } else if d.subrange(start + 0x18, start + 0x1C) != crate::crypt::zeros(4) {
        Err(ParseError::BadMagic((start + 0x18) as u64))
    } else if d.subrange(start + 0x20, start + 0x30) != crate::crypt::zeros(16) {
        Err(ParseError::BadMagic((start + 0x20) as u64))
    } else {
        let flag = d[start + 7];
        let n = u32_at(d, start + 8) as int;
        let kc = u32_at(d, start + 0xC) as int;
        let b_off = i32_at(d, start + 0x10);
        let k_off = i32_at(d, start + 0x14);
        let s_off = i32_at(d, start + 0x1C);
        let a_pos = start + 0x30;
        if a_pos + 16 * n > d.len() {
            Err(ParseError::Truncated)
        } else if a_pos + 16 * n != start + b_off {
            Err(ParseError::Misplaced(b_off))
        } else {
            let a_s = Seq::new(n as nat, |i: int| a_at(d, a_pos + 16 * i));
            match parse_bs(d, a_pos + 16 * n, a_s) {
                Err(x) => Err(x),
                Ok((bs, p1)) => match check_children(a_s, bs, 0, 1) {
                    Err(x) => Err(x),
                    Ok(_) => {
                        let p2 = next_multiple_of_16(p1);
                        if p2 != start + k_off {
                            Err(ParseError::Misplaced(k_off))
                        } else {
                            match parse_words(d, p2, kc) {
                                Err(x) => Err(x),
                                Ok((keys, p3)) => {
                                    let p4 = next_multiple_of_16(p3);
                                    let bounds = text_bounds(bs);
                                    if p4 != start + s_off {
                                        Err(ParseError::Misplaced(s_off))
                                    } else if flag == 1 && bounds is Some && bounds.unwrap().0 != bounds.unwrap().1 {
                                        Err(ParseError::UnequalTextOffsets)
                                    } else {
                                        match parse_pool(d, p4, flag, bounds, kv_max(bs)) {
                                            Err(x) => Err(x),
                                            Ok((utf8, utf16, end)) => Ok((JxbView { a_s, bs, keys, utf8, utf16 }, end)),
                                        }
                                    }
                                },
                            }
                        }
                    },
                },
            }
        }
    }
}

/// Prepends what was read before to a result read after it.
pub open spec fn prepend<T>(done: Seq<T>, r: Result<(Seq<T>, int), ParseError>) -> Result<(Seq<T>, int), ParseError> {
    match r {
        Ok((rest, e)) => Ok((done + rest, e)),
        Err(x) => Err(x),
    }
}

fn read_u16(d: &[u8], p: usize) -> (r: u16)
    requires
        d@.len() <= i32::MAX,
        p + 2 <= d@.len(),
    ensures
        r == u16_at(d@, p as int),
{
    (d[p] as u16) | ((d[p + 1] as u16) << 8)
}

fn read_u32(d: &[u8], p: usize) -> (r: u32)
    requires
        d@.len() <= i32::MAX,
        p + 4 <= d@.len(),
    ensures
        r == u32_at(d@, p as int),
{
    u32_from_le_bytes(slice_subrange(d, p, p + 4))
}

fn read_i32(d: &[u8], p: usize) -> (r: i32)
    requires
        d@.len() <= i32::MAX,
        p + 4 <= d@.len(),
    ensures
        r == i32_at(d@, p as int),
{
    #[verifier::truncate] (read_u32(d, p) as i32)
}

fn read_tags(d: &[u8], p: usize, count: u32, tags_type_id: u16) -> (r: Result<(Vec<TagData>, usize), ParseError>)
    requires
        d@.len() <= i32::MAX,
        p <= d@.len(),
    ensures
        match parse_tags(d@, p as int, count, tags_type_id) {
            Ok((tags, e)) => r matches Ok((v, x)) && v@ == tags && x == e,
            Err(x) => r == Err::<(Vec<TagData>, usize), ParseError>(x),
        },
{
    let width: u64 = if tags_type_id == 1 { 12 } else { 8 };
    let end: u64 = p as u64 + count as u64 * width;
    if end > d.len() as u64 {
        return Err(ParseError::Truncated);
    }
    let mut tags: Vec<TagData> = Vec::new();
    let mut i: u32 = 0;
    let mut q: usize = p;
    while i < count
        invariant
            i <= count,
            width == tag_width(tags_type_id),
            end == p + count * width,
            end <= d@.len(),
            d@.len() <= i32::MAX,
            q == p + i * width,
            tags@ == Seq::new(i as nat, |k: int| tag_at(d@, p + k * tag_width(tags_type_id), tags_type_id)),
        decreases count - i,
    {
        proof {
            assert(q + width <= end) by (nonlinear_arith)
                requires
                    q == p + i * width,
                    end == p + count * width,
                    i < count,
                    width > 0,
            ;
        }
        let t = if tags_type_id == 1 {
            TagData { key_offset: read_i32(d, q), type_id: read_u32(d, q + 4), value: read_i32(d, q + 8) }
        } else {
            TagData { key_offset: read_i32(d, q), type_id: tags_type_id as u32, value: read_i32(d, q + 4) }
        };
        tags.push(t);
        proof {
            assert(tags@ =~= Seq::new((i + 1) as nat, |k: int| tag_at(d@, p + k * tag_width(tags_type_id), tags_type_id)));
            assert(q + width == p + (i + 1) * width) by (nonlinear_arith)
                requires
                    q == p + i * width,
            ;
        }
        q = q + width as usize;
        i = i + 1;
    }
    Ok((tags, end as usize))
}

fn read_words(d: &[u8], p: usize, count: u32) -> (r: Result<(Vec<i32>, usize), ParseError>)
    requires
        d@.len() <= i32::MAX,
        p <= d@.len(),
    ensures
        match parse_words(d@, p as int, count as int) {
            Ok((v, e)) => r matches Ok((w, x)) && w@ == v && x == e,
            Err(x) => r == Err::<(Vec<i32>, usize), ParseError>(x),
        },
{
    let end: u64 = p as u64 + 4 * count as u64;
    if end > d.len() as u64 {
        return Err(ParseError::Truncated);
    }
    let mut out: Vec<i32> = Vec::new();
    let mut i: u32 = 0;
    while i < count
        invariant
            i <= count,
            end == p + 4 * count,
            end <= d@.len(),
            d@.len() <= i32::MAX,
            out@ == Seq::new(i as nat, |k: int| i32_at(d@, p + 4 * k)),
        decreases count - i,
    {
        let w = read_i32(d, p + 4 * i as usize);
        out.push(w);
        proof {
            assert(out@ =~= Seq::new((i + 1) as nat, |k: int| i32_at(d@, p + 4 * k)));
        }
        i = i + 1;
    }
    Ok((out, end as usize))
}

fn read_b(d: &[u8], p: usize, a: &NodeDataA) -> (r: Result<(NodeDataB, usize), ParseError>)
    requires
        d@.len() <= i32::MAX,
        p <= d@.len(),
    ensures
        match parse_b(d@, p as int, *a) {
            Ok((b, e)) => r matches Ok((v, x)) && v@ == b && x == e,
            Err(x) => r matches Err(y) && y == x,
        },
{
    if a.node_version == 1 {
        match read_tags(d, p, a.tag_count, a.tags_type_id) {
            Ok((tags, e)) => Ok((NodeDataB::Version1 { tags: TagDatas { tags } }, e)),
            Err(x) => Err(x),
        }
    } else if a.node_version == 2 {
        match read_words(d, p, a.tag_count) {
            Ok((child_indexes, e)) => Ok((NodeDataB::Version2 { child_indexes }, e)),
            Err(x) => Err(x),
        }
    } else if a.node_version == 3 {
        if p as u64 + 16 > d.len() as u64 {
            return Err(ParseError::Truncated);
        }
        match read_tags(d, p + 16, a.tag_count, a.tags_type_id) {
            Ok((tags, e)) => Ok((
                NodeDataB::Version3 {
                    node_type_offset: read_i32(d, p),
                    children_start_index: read_i32(d, p + 4),
                    child_count: read_i32(d, p + 8),
                    text_offset: read_i32(d, p + 12),
                    tags: TagDatas { tags },
                },
                e,
            )),
            Err(x) => Err(x),
        }
    } else {
        Err(ParseError::BadVersion(a.node_version))
    }
}

fn read_bs(d: &[u8], p: usize, a_s: &Vec<NodeDataA>) -> (r: Result<(Vec<NodeDataB>, usize), ParseError>)
    requires
        d@.len() <= i32::MAX,
        p <= d@.len(),
    ensures
        match parse_bs(d@, p as int, a_s@) {
            Ok((bs, e)) => r matches Ok((v, x)) && bs_view(v@) == bs && x == e,
            Err(x) => r matches Err(y) && y == x,
        },
        r matches Ok((v, x)) ==> x <= d@.len(),
{
    let mut out: Vec<NodeDataB> = Vec::new();
    let mut q: usize = p;
    let mut i: usize = 0;
    proof {
        assert(a_s@.skip(0) =~= a_s@);
        assert(bs_view(out@) =~= Seq::<NodeDataBView>::empty());
        assert(prepend(Seq::<NodeDataBView>::empty(), parse_bs(d@, p as int, a_s@)) == parse_bs(d@, p as int, a_s@)) by {
            if let Ok((rest, e)) = parse_bs(d@, p as int, a_s@) {
                assert(Seq::<NodeDataBView>::empty() + rest =~= rest);
            }
        }
    }
    while i < a_s.len()
        invariant
            i <= a_s@.len(),
            q <= d@.len(),
            d@.len() <= i32::MAX,
            parse_bs(d@, p as int, a_s@) == prepend(bs_view(out@), parse_bs(d@, q as int, a_s@.skip(i as int))),
        decreases a_s@.len() - i,
    {
        let ghost rest_as = a_s@.skip(i as int);
        proof {
            assert(rest_as[0] == a_s@[i as int]);
            assert(rest_as.drop_first() =~= a_s@.skip(i + 1));
        }
        match read_b(d, q, &a_s[i]) {
            Ok((b, e)) => {
                proof {
                    lemma_parse_b_end(d@, q as int, a_s@[i as int]);
                }
                let ghost before = bs_view(out@);
                out.push(b);
                proof {
                    assert(bs_view(out@) =~= before.push(b@));
                    if let Ok((rest, e2)) = parse_bs(d@, e as int, a_s@.skip(i + 1)) {
                        assert(before + (seq![b@] + rest) =~= before.push(b@) + rest);
                    }
                }
                q = e;
            },
            Err(x) => {
                return Err(x);
            },
        }
        i = i + 1;
    }
    proof {
        assert(a_s@.skip(i as int) =~= Seq::<NodeDataA>::empty());
        assert(bs_view(out@) + Seq::<NodeDataBView>::empty() =~= bs_view(out@));
    }
    Ok((out, q))
}

proof fn lemma_parse_b_end(d: Seq<u8>, p: int, a: NodeDataA)
    requires
        0 <= p,
    ensures
        parse_b(d, p, a) matches Ok((_, e)) ==> p <= e <= d.len(),
{
    if a.node_version == 1 || a.node_version == 3 {
        assert(a.tag_count * tag_width(a.tags_type_id) >= 0) by (nonlinear_arith)
            requires
                a.tag_count >= 0,
                tag_width(a.tags_type_id) > 0,
        ;
    }
}

fn verify_parents(a_s: &Vec<NodeDataA>, parent: usize, start: i64, end: i64) -> (r: Result<(), ParseError>)
    requires
        parent < a_s@.len(),
        a_s@.len() <= u32::MAX,
        i32::MIN <= start <= i32::MAX,
        2 * i32::MIN as int <= end <= 2 * i32::MAX as int,
    ensures
        r == check_parents(a_s@, parent as int, start as int, end as int),
{
    let mut k: i64 = start;
    while k < end
        invariant
            start <= k,
            k <= end || end < start,
            parent < a_s@.len(),
            a_s@.len() <= u32::MAX,
            2 * i32::MIN as int <= end <= 2 * i32::MAX as int,
            check_parents(a_s@, parent as int, start as int, end as int) == check_parents(a_s@, parent as int, k as int, end as int),
        decreases end - k,
    {
        let len = a_s.len() as i64;
        if k < 0 || k >= len {
            assert(check_parents(a_s@, parent as int, k as int, end as int) == Err::<(), ParseError>(ParseError::ChildOutOfRange(k)));
            return Err(ParseError::ChildOutOfRange(k));
        }
        if a_s[k as usize].parent_index as i64 != parent as i64 {
            assert(check_parents(a_s@, parent as int, k as int, end as int) == Err::<(), ParseError>(ParseError::WrongParent(k as u64)));
            return Err(ParseError::WrongParent(k as u64));
        }
        assert(check_parents(a_s@, parent as int, k as int, end as int) == check_parents(a_s@, parent as int, k + 1, end as int));
        k = k + 1;
    }
    Ok(())
}

fn verify_children(a_s: &Vec<NodeDataA>, bs: &Vec<NodeDataB>) -> (r: Result<(), ParseError>)
    requires
        a_s@.len() == bs@.len(),
        a_s@.len() <= u32::MAX,
    ensures
        r == check_children(a_s@, bs_view(bs@), 0, 1),
{
    let ghost bv = bs_view(bs@);
    let mut child_index: i64 = 1;
    let mut i: usize = 0;
    while i < bs.len()
        invariant
            i <= bs@.len(),
            bv == bs_view(bs@),
            a_s@.len() == bs@.len(),
            a_s@.len() <= u32::MAX,
            2 * i32::MIN as int <= child_index <= 2 * i32::MAX as int,
            check_children(a_s@, bv, 0, 1) == check_children(a_s@, bv, i as int, child_index as int),
        decreases bs@.len() - i,
    {
        proof {
            assert(bv[i as int] == bs@[i as int]@);
        }
        match &bs[i] {
            NodeDataB::Version3 { children_start_index, child_count, .. } => {
                let start = *children_start_index;
                let count = *child_count;
                if count == 0 {
                    if start != -1 {
                        return Err(ParseError::NoChildrenButStart(i as u64));
                    }
                } else {
                    if start as i64 != child_index {
                        return Err(ParseError::WrongChildrenStart {
                            node: i as u64,
                            found: start,
                            expected: #[verifier::truncate] (child_index as i32),
                        });
                    }
                    match verify_parents(a_s, i, start as i64, start as i64 + count as i64) {
                        Ok(_) => {},
                        Err(x) => {
                            return Err(x);
                        },
                    }
                    child_index = start as i64 + count as i64;
                }
            },
            _ => {},
        }
        i = i + 1;
    }
    Ok(())
}

fn tags_kv_max_of(tags: &Vec<TagData>) -> (r: Option<i32>)
    ensures
        r == tags_kv_max(tags@),
{
    let mut m: Option<i32> = None;
    let mut k: usize = 0;
    proof {
        assert(tags@.take(0) =~= Seq::<TagData>::empty());
    }
    while k < tags.len()
        invariant
            k <= tags@.len(),
            m == tags_kv_max(tags@.take(k as int)),
        decreases tags@.len() - k,
    {
        let t = tags[k];
        let here = if t.type_id == 3 {
            if t.key_offset < t.value { t.value } else { t.key_offset }
        } else {
            t.key_offset
        };
        m = match m {
            Some(x) => Some(if x < here { here } else { x }),
            None => Some(here),
        };
        proof {
            assert(tags@.take(k + 1).drop_last() =~= tags@.take(k as int));
            assert(tags@.take(k + 1).last() == t);
        }
        k = k + 1;
    }
    proof {
        assert(tags@.take(k as int) =~= tags@);
    }
    m
}

fn bounds_of(bs: &Vec<NodeDataB>) -> (r: (Option<i32>, Option<(i32, i32)>))
    ensures
        r.0 == kv_max(bs_view(bs@)),
        r.1 == text_bounds(bs_view(bs@)),
{
    let ghost bv = bs_view(bs@);
    let mut kv: Option<i32> = None;
    let mut tb: Option<(i32, i32)> = None;
    let mut i: usize = 0;
    proof {
        assert(bv.take(0) =~= Seq::<NodeDataBView>::empty());
    }
    while i < bs.len()
        invariant
            i <= bs@.len(),
            bv == bs_view(bs@),
            kv == kv_max(bv.take(i as int)),
            tb == text_bounds(bv.take(i as int)),
        decreases bs@.len() - i,
    {
        proof {
            assert(bv.take(i + 1).drop_last() =~= bv.take(i as int));
            assert(bv.take(i + 1).last() == bs@[i as int]@);
        }
        let b = &bs[i];
        let here = match b {
            NodeDataB::Version1 { tags } => tags_kv_max_of(&tags.tags),
            NodeDataB::Version2 { .. } => {
                proof {
                    assert(b_tags(b@) =~= Seq::<TagData>::empty());
                }
                None
            },
            NodeDataB::Version3 { tags, .. } => tags_kv_max_of(&tags.tags),
        };
        kv = match kv {
            Some(a) => match here {
                Some(c) => Some(if a < c { c } else { a }),
                None => Some(a),
            },
            None => here,
        };
        match b {
            NodeDataB::Version3 { text_offset, .. } => {
                let t = *text_offset;
                tb = match tb {
                    Some((lo, hi)) => Some((if lo < t { lo } else { t }, if hi < t { t } else { hi })),
                    None => Some((t, t)),
                };
            },
            _ => {},
        }
        i = i + 1;
    }
    proof {
        assert(bv.take(i as int) =~= bv);
    }
    (kv, tb)
}

/// The positions and bytes of read strings.
pub open spec fn items_view(v: Seq<(usize, Vec<u8>)>) -> Seq<(int, Seq<u8>)> {
    v.map_values(|e: (usize, Vec<u8>)| (e.0 as int, e.1@))
}

/// The positions and units of read strings.
pub open spec fn wide_items_view(v: Seq<(usize, Vec<u16>)>) -> Seq<(int, Seq<u16>)> {
    v.map_values(|e: (usize, Vec<u16>)| (e.0 as int, e.1@))
}

fn read_utf8_strs(d: &[u8], p: usize, end: i64) -> (r: Result<(Vec<(usize, Vec<u8>)>, usize), ParseError>)
    requires
        d@.len() <= i32::MAX,
        p <= d@.len(),
    ensures
        match parse_utf8_strs(d@, p as int, end as int) {
            Ok((items, e)) => r matches Ok((v, x)) && items_view(v@) == items && x == e,
            Err(x) => r matches Err(y) && y == x,
        },
        r matches Ok((v, x)) ==> p <= x <= d@.len() && forall|k: int| 0 <= k < v@.len() ==> p <= (#[trigger] v@[k]).0 <= d@.len(),
{
    let mut out: Vec<(usize, Vec<u8>)> = Vec::new();
    let mut q: usize = p;
    proof {
        assert(items_view(out@) =~= Seq::<(int, Seq<u8>)>::empty());
        if let Ok((rest, e)) = parse_utf8_strs(d@, p as int, end as int) {
            assert(Seq::<(int, Seq<u8>)>::empty() + rest =~= rest);
        }
    }
    loop
        invariant
            d@.len() <= i32::MAX,
            q <= d@.len(),
            parse_utf8_strs(d@, p as int, end as int) == prepend(items_view(out@), parse_utf8_strs(d@, q as int, end as int)),
            p <= q,
            forall|k: int| 0 <= k < out@.len() ==> p <= (#[trigger] out@[k]).0 <= d@.len(),
        decreases d@.len() - q,
    {
        let mut z: usize = q;
        while z < d.len() && d[z] != 0
            invariant
                q <= z <= d@.len(),
                zero_from(d@, q as int) == zero_from(d@, z as int),
            decreases d@.len() - z,
        {
            z = z + 1;
        }
        if z == d.len() {
            proof {
                assert(zero_from(d@, z as int) is None);
            }
            return Err(ParseError::Truncated);
        }
        proof {
            assert(zero_from(d@, q as int) == Some(z as int));
        }
        let bytes = slice_to_vec(slice_subrange(d, q, z));
        let ghost before = items_view(out@);
        out.push((q, bytes));
        proof {
            assert(items_view(out@) =~= before.push((q as int, d@.subrange(q as int, z as int))));
        }
        if z as i64 + 1 >= end {
            proof {
                assert(before + seq![(q as int, d@.subrange(q as int, z as int))] =~= items_view(out@));
            }
            return Ok((out, z + 1));
        }
        proof {
            if let Ok((rest, e)) = parse_utf8_strs(d@, z + 1, end as int) {
                assert(before + (seq![(q as int, d@.subrange(q as int, z as int))] + rest) =~= items_view(out@) + rest);
            }
        }
        q = z + 1;
    }
}

fn read_utf16_strs(d: &[u8], p: usize, stop: i64) -> (r: Result<(Vec<(usize, Vec<u16>)>, usize), ParseError>)
    requires
        d@.len() <= i32::MAX,
        p <= d@.len(),
    ensures
        match parse_utf16_strs(d@, p as int, stop as int) {
            Ok((items, e)) => r matches Ok((v, x)) && wide_items_view(v@) == items && x == e,
            Err(x) => r matches Err(y) && y == x,
        },
        r matches Ok((v, x)) ==> x <= d@.len() && forall|k: int| 0 <= k < v@.len() ==> p <= (#[trigger] v@[k]).0 <= d@.len(),
{
    let mut out: Vec<(usize, Vec<u16>)> = Vec::new();
    let mut q: usize = p;
    proof {
        assert(wide_items_view(out@) =~= Seq::<(int, Seq<u16>)>::empty());
        if let Ok((rest, e)) = parse_utf16_strs(d@, p as int, stop as int) {
            assert(Seq::<(int, Seq<u16>)>::empty() + rest =~= rest);
        }
    }
    loop
        invariant
            d@.len() <= i32::MAX,
            q <= d@.len(),
            parse_utf16_strs(d@, p as int, stop as int) == prepend(wide_items_view(out@), parse_utf16_strs(d@, q as int, stop as int)),
            p <= q,
            forall|k: int| 0 <= k < out@.len() ==> p <= (#[trigger] out@[k]).0 <= d@.len(),
        decreases d@.len() - q,
    {
        let mut units: Vec<u16> = Vec::new();
        let mut z: usize = q;
        while z + 2 <= d.len() && !(d[z] == 0 && d[z + 1] == 0)
            invariant
                q <= z,
                z <= d@.len(),
                (z - q) % 2 == 0,
                d@.len() <= i32::MAX,
                zero_unit_from(d@, q as int) == zero_unit_from(d@, z as int),
                units@ == units_at(d@, q as int, z as int),
            decreases d@.len() - z,
        {
            let u = read_u16(d, z);
            units.push(u);
            proof {
                assert(units@ =~= units_at(d@, q as int, z + 2));
            }
            z = z + 2;
        }
        if z + 2 > d.len() {
            proof {
                assert(zero_unit_from(d@, z as int) is None);
            }
            return Err(ParseError::Truncated);
        }
        proof {
            assert(zero_unit_from(d@, q as int) == Some(z as int));
        }
        let ghost before = wide_items_view(out@);
        let ghost item = (q as int, units_at(d@, q as int, z as int));
        out.push((q, units));
        proof {
            assert(wide_items_view(out@) =~= before.push(item));
        }
        if q as i64 >= stop {
            proof {
                assert(before + seq![item] =~= wide_items_view(out@));
            }
            return Ok((out, z + 2));
        }
        proof {
            if let Ok((rest, e)) = parse_utf16_strs(d@, z + 2, stop as int) {
                assert(before + (seq![item] + rest) =~= wide_items_view(out@) + rest);
            }
        }
        q = z + 2;
    }
}

/// `String::from_utf8`: as its documentation says, the text where the
/// bytes are valid UTF-8, else an error.
#[verifier::external_body]
fn string_from_utf8(bytes: Vec<u8>) -> (r: Option<String>)
    ensures
        r is Some <==> valid_utf8(bytes@),
        r matches Some(s) ==> s@ == decode_utf8(bytes@),
{
    String::from_utf8(bytes).ok()
}

/// `String::from_utf16`: as its documentation says, the text where the
/// units are valid UTF-16, else an error.
#[verifier::external_body]
fn string_from_utf16(units: &[u16]) -> (r: Option<String>)
    ensures
        r is Some <==> decode_utf16(units@) is Some,
        r matches Some(s) ==> s@ == decode_utf16(units@).unwrap(),
{
    String::from_utf16(units).ok()
}

fn decode_items(items: &Vec<(usize, Vec<u8>)>, base: usize) -> (r: Option<Vec<(i32, String)>>)
    requires
        forall|k: int| 0 <= k < items@.len() ==> base <= (#[trigger] items@[k]).0 <= base + i32::MAX,
    ensures
        match decode_utf8_items(items_view(items@), base as int) {
            Some(t) => r matches Some(v) && pool_view(v@) == t,
            None => r is None,
        },
{
    let ghost iv = items_view(items@);
    let mut out: Vec<(i32, String)> = Vec::new();
    let mut k: usize = 0;
    let n = items.len();
    proof {
        assert(iv.take(0) =~= Seq::<(int, Seq<u8>)>::empty());
        assert(pool_view(out@) =~= Seq::<(i32, Seq<char>)>::empty());
    }
    while k < n
        invariant
            k <= n,
            n == items@.len(),
            iv == items_view(items@),
            forall|j: int| 0 <= j < items@.len() ==> base <= (#[trigger] items@[j]).0 <= base + i32::MAX,
            decode_utf8_items(iv.take(k as int), base as int) == Some(pool_view(out@)),
        decreases n - k,
    {
        let pos = items[k].0;
        let bytes = slice_to_vec(items[k].1.as_slice());
        proof {
            assert(iv.take(k + 1).drop_last() =~= iv.take(k as int));
            assert(iv.take(k + 1).last() == (pos as int, bytes@));
        }
        match string_from_utf8(bytes) {
            Some(s) => {
                let ghost before = pool_view(out@);
                out.push(((pos - base) as i32, s));
                proof {
                    assert(pool_view(out@) =~= before.push(((pos - base) as i32, s@)));
                }
            },
            None => {
                proof {
                    lemma_decode_utf8_items_none(iv, base as int, k + 1);
                }
                return None;
            },
        }
        k = k + 1;
    }
    proof {
        assert(iv.take(k as int) =~= iv);
    }
    Some(out)
}

proof fn lemma_decode_utf8_items_none(items: Seq<(int, Seq<u8>)>, base: int, k: int)
    requires
        0 <= k <= items.len(),
        decode_utf8_items(items.take(k), base) is None,
    ensures
        decode_utf8_items(items, base) is None,
    decreases items.len() - k,
{
    if k < items.len() {
        assert(items.take(k + 1).drop_last() =~= items.take(k));
        lemma_decode_utf8_items_none(items, base, k + 1);
    } else {
        assert(items.take(k) =~= items);
    }
}

proof fn lemma_decode_utf16_items_none(items: Seq<(int, Seq<u16>)>, base: int, k: int)
    requires
        0 <= k <= items.len(),
        decode_utf16_items(items.take(k), base) is None,
    ensures
        decode_utf16_items(items, base) is None,
    decreases items.len() - k,
{
    if k < items.len() {
        assert(items.take(k + 1).drop_last() =~= items.take(k));
        lemma_decode_utf16_items_none(items, base, k + 1);
    } else {
        assert(items.take(k) =~= items);
    }
}

fn decode_wide_items(items: &Vec<(usize, Vec<u16>)>, base: usize) -> (r: Option<Vec<(i32, String)>>)
    requires
        forall|k: int| 0 <= k < items@.len() ==> base <= (#[trigger] items@[k]).0 <= base + i32::MAX,
    ensures
        match decode_utf16_items(wide_items_view(items@), base as int) {
            Some(t) => r matches Some(v) && pool_view(v@) == t,
            None => r is None,
        },
{
    let ghost iv = wide_items_view(items@);
    let mut out: Vec<(i32, String)> = Vec::new();
    let mut k: usize = 0;
    proof {
        assert(iv.take(0) =~= Seq::<(int, Seq<u16>)>::empty());
        assert(pool_view(out@) =~= Seq::<(i32, Seq<char>)>::empty());
    }
    while k < items.len()
        invariant
            k <= items@.len(),
            iv == wide_items_view(items@),
            forall|j: int| 0 <= j < items@.len() ==> base <= (#[trigger] items@[j]).0 <= base + i32::MAX,
            decode_utf16_items(iv.take(k as int), base as int) == Some(pool_view(out@)),
        decreases items@.len() - k,
    {
        let pos = items[k].0;
        proof {
            assert(iv.take(k + 1).drop_last() =~= iv.take(k as int));
            assert(iv.take(k + 1).last() == (pos as int, items@[k as int].1@));
        }
        match string_from_utf16(items[k].1.as_slice()) {
            Some(s) => {
                let ghost before = pool_view(out@);
                out.push(((pos - base) as i32, s));
                proof {
                    assert(pool_view(out@) =~= before.push(((pos - base) as i32, s@)));
                }
            },
            None => {
                proof {
                    lemma_decode_utf16_items_none(iv, base as int, k + 1);
                }
                return None;
            },
        }
        k = k + 1;
    }
    proof {
        assert(iv.take(k as int) =~= iv);
    }
    Some(out)
}

fn read_pool(d: &[u8], s_pos: usize, flag: u8, bounds: Option<(i32, i32)>, kv: Option<i32>) -> (r: Result<
    (Vec<(i32, String)>, Option<Vec<(i32, String)>>, usize),
    ParseError,
>)
    requires
        d@.len() <= i32::MAX,
        s_pos <= d@.len(),
    ensures
        match parse_pool(d@, s_pos as int, flag, bounds, kv) {
            Ok((utf8, utf16, e)) => r matches Ok((u, w, x)) && pool_view(u@) == utf8 && x == e && match utf16 {
                Some(t) => w matches Some(wv) && pool_view(wv@) == t,
                None => w is None,
            },
            Err(x) => r matches Err(y) && y == x,
        },
        r matches Ok((_, _, x)) ==> x <= d@.len(),
{
    let utf8_end: i64 = match bounds {
        Some((lo, _)) => if flag == 1 { s_pos as i64 + lo as i64 + 1 } else { s_pos as i64 + lo as i64 },
        None => match kv {
            Some(m) => m as i64 + 1,
            None => 1,
        },
    };
    let (u8items, p5) = match read_utf8_strs(d, s_pos, utf8_end) {
        Ok(x) => x,
        Err(x) => {
            return Err(x);
        },
    };
    if flag == 2 {
        let stop: i64 = match bounds {
            Some((_, hi)) => s_pos as i64 + hi as i64,
            None => s_pos as i64,
        };
        let (u16items, end) = match read_utf16_strs(d, p5, stop) {
            Ok(x) => x,
            Err(x) => {
                return Err(x);
            },
        };
        let utf8 = match decode_items(&u8items, s_pos) {
            Some(t) => t,
            None => {
                return Err(ParseError::BadUtf8);
            },
        };
        let utf16 = match decode_wide_items(&u16items, s_pos) {
            Some(t) => t,
            None => {
                return Err(ParseError::BadUtf16);
            },
        };
        Ok((utf8, Some(utf16), end))
    } else {
        let utf8 = match decode_items(&u8items, s_pos) {
            Some(t) => t,
            None => {
                return Err(ParseError::BadUtf8);
            },
        };
        Ok((utf8, None, p5))
    }
}

fn next16_usize(n: usize) -> (r: usize)
    requires
        n <= i32::MAX,
    ensures
        r == next_multiple_of_16(n as int),
        n <= r <= n + 15,
{
    if n % 16 == 0 {
        n
    } else {
        n - n % 16 + 16
    }
}

fn all_zero(d: &[u8], from: usize, to: usize) -> (r: bool)
    requires
        from <= to <= d@.len(),
    ensures
        r == (d@.subrange(from as int, to as int) == crate::crypt::zeros(to - from)),
{
    let mut k: usize = from;
    while k < to
        invariant
            from <= k <= to,
            to <= d@.len(),
            forall|j: int| from <= j < k ==> d@[j] == 0,
        decreases to - k,
    {
        if d[k] != 0 {
            proof {
                assert(d@.subrange(from as int, to as int)[k - from] != crate::crypt::zeros(to - from)[k - from]);
            }
            return false;
        }
        k = k + 1;
    }
    proof {
        assert(d@.subrange(from as int, to as int) =~= crate::crypt::zeros(to - from));
    }
    true
}

/// Reads the file stored from the aligned position `start` of the bytes;
/// gives it with the position where it ends.
pub fn read_jxb(d: &[u8], start: usize) -> (r: Result<(Jxb, usize), ParseError>)
    requires
        d@.len() <= i32::MAX,
        start <= d@.len(),
    ensures
        match parse_jxb(d@, start as int) {
            Ok((j, e)) => r matches Ok((x, p)) && jxb_view(x) == j && p == e,
            Err(x) => r matches Err(y) && y == x,
        },
        r matches Ok((_, p)) ==> p <= d@.len(),
{
    if start + 0x30 > d.len() {
        return Err(ParseError::Truncated);
    }
    let magic: [u8; 7] = [0x4A, 0x58, 0x42, 0, 1, 0, 1];
    let mut k: usize = 0;
    while k < 7
        invariant
            k <= 7,
            start + 0x30 <= d@.len(),
            d@.len() <= i32::MAX,
            magic@ == jxb_magic(),
            forall|j: int| 0 <= j < k ==> d@[start + j] == jxb_magic()[j],
        decreases 7 - k,
    {
        if d[start + k] != magic[k] {
            proof {
                assert(d@.subrange(start as int, start + 7)[k as int] != jxb_magic()[k as int]);
            }
            return Err(ParseError::BadMagic(start as u64));
        }
        k = k + 1;
    }
    proof {
        assert(d@.subrange(start as int, start + 7) =~= jxb_magic());
    }
    let flag = d[start + 7];
    if flag != 1 && flag != 2 {
        return Err(ParseError::BadStringFlag(flag));
    }
    let n = read_u32(d, start + 8);
    if n == 0 {
        return Err(ParseError::NoNodes);
    }
    if !all_zero(d, start + 0x18, start + 0x1C) {
        return Err(ParseError::BadMagic((start + 0x18) as u64));
    }
    if !all_zero(d, start + 0x20, start + 0x30) {
        return Err(ParseError::BadMagic((start + 0x20) as u64));
    }
    let kc = read_u32(d, start + 0xC);
    let b_off = read_i32(d, start + 0x10);
    let k_off = read_i32(d, start + 0x14);
    let s_off = read_i32(d, start + 0x1C);
    let a_pos = start + 0x30;
    if a_pos as u64 + 16 * n as u64 > d.len() as u64 {
        return Err(ParseError::Truncated);
    }
    if a_pos as i64 + 16 * n as i64 != start as i64 + b_off as i64 {
        return Err(ParseError::Misplaced(b_off));
    }
    let mut a_s: Vec<NodeDataA> = Vec::new();
    let mut i: u32 = 0;
    while i < n
        invariant
            i <= n,
            a_pos + 16 * n <= d@.len(),
            d@.len() <= i32::MAX,
            a_s@ == Seq::new(i as nat, |j: int| a_at(d@, a_pos + 16 * j)),
        decreases n - i,
    {
        let q = a_pos + 16 * i as usize;
        let a = NodeDataA {
            node_version: read_u16(d, q),
            tags_type_id: read_u16(d, q + 2),
            tag_count: read_u32(d, q + 4),
            b_offset: read_i32(d, q + 8),
            parent_index: read_i32(d, q + 12),
        };
        a_s.push(a);
        proof {
            assert(a_s@ =~= Seq::new((i + 1) as nat, |j: int| a_at(d@, a_pos + 16 * j)));
        }
        i = i + 1;
    }
    let (bs, p1) = match read_bs(d, a_pos + 16 * n as usize, &a_s) {
        Ok(x) => x,
        Err(x) => {
            return Err(x);
        },
    };
    proof {
        lemma_parse_bs_len(d@, a_pos + 16 * n, a_s@);
    }
    match verify_children(&a_s, &bs) {
        Ok(_) => {},
        Err(x) => {
            return Err(x);
        },
    }
    let p2 = next16_usize(p1);
    if p2 as i64 != start as i64 + k_off as i64 {
        return Err(ParseError::Misplaced(k_off));
    }
    if p2 > d.len() {
        return Err(ParseError::Truncated);
    }
    let (keys, p3) = match read_words(d, p2, kc) {
        Ok(x) => x,
        Err(x) => {
            return Err(x);
        },
    };
    let p4 = next16_usize(p3);
    let (kv, bounds) = bounds_of(&bs);
    if p4 as i64 != start as i64 + s_off as i64 {
        return Err(ParseError::Misplaced(s_off));
    }
    if flag == 1 {
        if let Some((lo, hi)) = bounds {
            if lo != hi {
                return Err(ParseError::UnequalTextOffsets);
            }
        }
    }
    if p4 > d.len() {
        return Err(ParseError::Truncated);
    }
    match read_pool(d, p4, flag, bounds, kv) {
        Ok((utf8, utf16, end)) => {
            let j = Jxb {
                node_data_as: a_s,
                node_data_bs: bs,
                key_string_offsets: keys,
                string_pool: StringPool { utf8_strings: utf8, utf16_strings: utf16 },
            };
            Ok((j, end))
        },
        Err(x) => Err(x),
    }
}

proof fn lemma_parse_bs_len(d: Seq<u8>, p: int, a_s: Seq<NodeDataA>)
    requires
        0 <= p,
    ensures
        parse_bs(d, p, a_s) matches Ok((bs, e)) ==> bs.len() == a_s.len() && p <= e,
    decreases a_s.len(),
{
    if a_s.len() > 0 {
        lemma_parse_b_end(d, p, a_s[0]);
        if let Ok((b, e)) = parse_b(d, p, a_s[0]) {
            lemma_parse_bs_len(d, e, a_s.drop_first());
        }
    }
}

/// The entry of a file stored at `p`.
pub open spec fn meta_at(d: Seq<u8>, p: int) -> FileMetadata {
    FileMetadata { node_index: i32_at(d, p), data_offset: i32_at(d, p + 4), data_size: i32_at(d, p + 8) }
}

/// The magic bytes an archive starts with.
pub open spec fn jxk_magic() -> Seq<u8> {
    seq![0x4Au8, 0x58u8, 0x4Bu8, 0u8]
}

/// Each file's data starts at the first multiple of 16 after the end of
/// the data before it.
pub open spec fn files_in_order(ms: Seq<FileMetadata>) -> bool {
    forall|i: int| 0 <= i < ms.len() - 1 ==> next_multiple_of_16(
        ((#[trigger] ms[i]).data_offset as u32) + (ms[i].data_size as u32),
    ) == ms[i + 1].data_offset as u32
}

/// What an archive's bytes hold: its table of files and its tree.
pub open spec fn parse_jxk(d: Seq<u8>) -> Result<(Seq<FileMetadata>, JxbView), ParseError> {
    if d.len() < 12 {
        Err(ParseError::Truncated)
    } else if d.subrange(0, 4) != jxk_magic() {
        Err(ParseError::BadMagic(0))
    } else if d.subrange(8, 12) != crate::crypt::zeros(4) {
        Err(ParseError::BadMagic(8))
    } else {
        let count = i32_at(d, 4) as int;
        if count < 0 || 12 + 12 * count > d.len() {
            Err(ParseError::Truncated)
        } else {
            let ms = Seq::new(count as nat, |i: int| meta_at(d, 12 + 12 * i));
            if !files_in_order(ms) {
                Err(ParseError::BadFileTable)
            } else {
                match parse_jxb(d, next_multiple_of_16(12 + 12 * count)) {
                    Err(x) => Err(x),
                    Ok((j, end)) => if count == 0 {
                        if end < d.len() {
                            Err(ParseError::NotAtEnd)
                        } else {
                            Ok((ms, j))
                        }
                    } else if next_multiple_of_16(end) != ms[0].data_offset as u32 {
                        Err(ParseError::UnexpectedEnd(next_multiple_of_16(end) as u64))
                    } else {
                        Ok((ms, j))
                    },
                }
            }
        }
    }
}

impl Jxb {
    /// Reads a `jxb` file from its bytes.
    pub fn parse(d: &[u8]) -> (r: Result<Jxb, ParseError>)
        requires
            d@.len() <= i32::MAX,
        ensures
            match parse_jxb(d@, 0) {
                Ok((j, _)) => r matches Ok(x) && jxb_view(x) == j,
                Err(x) => r matches Err(y) && y == x,
            },
    {
        match read_jxb(d, 0) {
            Ok((j, _)) => Ok(j),
            Err(x) => Err(x),
        }
    }
}

impl Jxk {
    /// Reads an archive from its bytes.
    pub fn parse(d: &[u8]) -> (r: Result<Jxk, ParseError>)
        requires
            d@.len() <= i32::MAX,
        ensures
            match parse_jxk(d@) {
                Ok((ms, j)) => r matches Ok(x) && x.file_metadatas@ == ms && jxb_view(x.jxb) == j,
                Err(x) => r matches Err(y) && y == x,
            },
    {
        if d.len() < 12 {
            return Err(ParseError::Truncated);
        }
        if !(d[0] == 0x4A && d[1] == 0x58 && d[2] == 0x4B && d[3] == 0) {
            proof {
                if d@.subrange(0, 4) == jxk_magic() {
                    assert(d@.subrange(0, 4)[0] == d@[0] && d@.subrange(0, 4)[1] == d@[1]);
                    assert(d@.subrange(0, 4)[2] == d@[2] && d@.subrange(0, 4)[3] == d@[3]);
                }
            }
            return Err(ParseError::BadMagic(0));
        }
        proof {
            assert(d@.subrange(0, 4) =~= jxk_magic());
        }
        if !all_zero(d, 8, 12) {
            return Err(ParseError::BadMagic(8));
        }
        let count = read_i32(d, 4);
        if count < 0 || 12 + 12 * count as u64 > d.len() as u64 {
            return Err(ParseError::Truncated);
        }
        let mut ms: Vec<FileMetadata> = Vec::new();
        let mut i: i32 = 0;
        while i < count
            invariant
                0 <= i <= count,
                12 + 12 * count <= d@.len(),
                d@.len() <= i32::MAX,
                ms@ == Seq::new(i as nat, |k: int| meta_at(d@, 12 + 12 * k)),
            decreases count - i,
        {
            let q = 12 + 12 * i as usize;
            ms.push(FileMetadata { node_index: read_i32(d, q), data_offset: read_i32(d, q + 4), data_size: read_i32(d, q + 8) });
            proof {
                assert(ms@ =~= Seq::new((i + 1) as nat, |k: int| meta_at(d@, 12 + 12 * k)));
            }
            i = i + 1;
        }
        let mut k: usize = 0;
        while k + 1 < ms.len()
            invariant
                ms@.len() == count,
                k <= ms@.len(),
                ms@.len() <= i32::MAX,
                ms@ == Seq::new(count as nat, |j: int| meta_at(d@, 12 + 12 * j)),
                d@.len() >= 12,
                d@.subrange(0, 4) == jxk_magic(),
                d@.subrange(8, 12) == crate::crypt::zeros(4),
                count == i32_at(d@, 4),
                0 <= count,
                12 + 12 * count <= d@.len(),
                forall|j: int| 0 <= j < k ==> next_multiple_of_16(((#[trigger] ms@[j]).data_offset as u32) + (ms@[j].data_size as u32))
                    == ms@[j + 1].data_offset as u32,
            decreases ms@.len() - k,
        {
            let end: u64 = (ms[k].data_offset as u32) as u64 + (ms[k].data_size as u32) as u64;
            let aligned: u64 = if end % 16 == 0 { end } else { end - end % 16 + 16 };
            if aligned != (ms[k + 1].data_offset as u32) as u64 {
                proof {
                    let m = ms@;
                    assert(next_multiple_of_16(((m[k as int]).data_offset as u32) + (m[k as int].data_size as u32))
                        != m[k + 1].data_offset as u32);
                    assert(!files_in_order(m));
                }
                return Err(ParseError::BadFileTable);
            }
            k = k + 1;
        }
        let start = next16_usize(12 + 12 * count as usize);
        if start > d.len() {
            proof {
                assert(parse_jxb(d@, start as int) == Err::<(JxbView, int), ParseError>(ParseError::Truncated));
            }
            return Err(ParseError::Truncated);
        }
        let (j, end) = match read_jxb(d, start) {
            Ok(x) => x,
            Err(x) => {
                return Err(x);
            },
        };
        if count == 0 {
            if end < d.len() {
                return Err(ParseError::NotAtEnd);
            }
        } else {
            let end_pos = next16_usize(end);
            if end_pos as u64 != (ms[0].data_offset as u32) as u64 {
                return Err(ParseError::UnexpectedEnd(end_pos as u64));
            }
        }
        Ok(Jxk { file_metadatas: ms, jxb: j })
    }
}

} // verus!
