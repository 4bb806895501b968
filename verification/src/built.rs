//! Files built from trees, written as bytes, read back: the records and
//! tables that building makes are ones the reader gives back.

use vstd::prelude::*;
use crate::encode::{
    encode_a, encode_b, encode_tags, encoded_as, encoded_bs, entries_type_id, entry_keys, entry_texts, file_fits, is_v1,
    is_v2, jxb_encodes, key_strings, keys_unique, laid_out, lemma_laid_out_offsets, lemma_node_strings, lemma_sorted_sets,
    lemma_table_find_index, lemma_table_find_some, lemma_total_span_nonneg, lemma_tree_file_reads_back, node_b_size,
    sorted_keys, sorted_texts, sorted_values, span, table_find, tags_size, text_strings, total_b_size, total_span,
    utf16_len, utf16_table, utf8_end, utf8_table, value_strings,
};
use crate::format::{jxb_bytes, jxb_layout_fits, opt_table_texts, table_texts, utf16_units};
use crate::jxb::{bs_view, pool_view, spec_tag_type_id, Jxb, NodeDataA, NodeDataBView, TagData};
use crate::node::{value_type_id, NodeDataView, ValueView};
use crate::parse::{
    check_children, check_parents, jxb_view, max_i32, min_i32, parse_jxb, text_bounds, JxbView, ParseError,
};
use crate::reread::{
    follows, lemma_jxb_bytes_read_back, no_nul, packed, readable, record_matches, string_size, table_end,
    tables_laid_out, tags_stored_as, texts_placed,
};
use crate::strset::{lemma_text_lt_order, strictly_sorted, text_lt};
use crate::tree::{bfs_layout, children_before, lemma_children_before_monotonic, FlatView};

verus! {

/// The type a node's tags are stored with depends on their types alone.
proof fn lemma_tag_type_id_by_types(a: Seq<TagData>, b: Seq<TagData>)
    requires
        a.len() == b.len(),
        forall|i: int| 0 <= i < a.len() ==> (#[trigger] a[i]).type_id == b[i].type_id,
    ensures
        spec_tag_type_id(a) == spec_tag_type_id(b),
{
    if a.len() > 0 {
        if forall|i: int| 0 <= i < a.len() ==> #[trigger] a[i].type_id == a[0].type_id {
            assert forall|i: int| 0 <= i < b.len() implies #[trigger] b[i].type_id == b[0].type_id by {
                assert(a[i].type_id == a[0].type_id);
            }
        } else {
            let k = choose|i: int| 0 <= i < a.len() && #[trigger] a[i].type_id != a[0].type_id;
            assert(b[k].type_id != b[0].type_id);
        }
    }
}

proof fn lemma_node_b_size_nonneg(n: FlatView)
    ensures
        0 <= n.data.tags.len() <= tags_size(n.data.tags) <= node_b_size(n),
{
    let es = n.data.tags;
    assert(es.len() <= tags_size(es)) by (nonlinear_arith)
        requires
            tags_size(es) == es.len() * (if entries_type_id(es) == 1 { 12int } else { 8int }),
    ;
    if is_v2(n) {
        assert(es.len() == 0);
        assert(tags_size(es) == 0);
    }
}

proof fn lemma_total_b_size_nonneg(l: Seq<FlatView>)
    ensures
        total_b_size(l) >= 0,
    decreases l.len(),
{
    if l.len() > 0 {
        lemma_total_b_size_nonneg(l.drop_last());
        lemma_node_b_size_nonneg(l.last());
    }
}

/// A node's variable record takes no more than all of them.
proof fn lemma_node_b_size_within(l: Seq<FlatView>, i: int)
    requires
        0 <= i < l.len(),
    ensures
        0 <= node_b_size(l[i]) <= total_b_size(l),
    decreases l.len(),
{
    lemma_node_b_size_nonneg(l[i]);
    lemma_node_b_size_nonneg(l.last());
    lemma_total_b_size_nonneg(l.drop_last());
    if i < l.len() - 1 {
        lemma_node_b_size_within(l.drop_last(), i);
        assert(l.drop_last()[i] == l[i]);
    } else {
        assert(l.last() == l[i]);
    }
}

/// The records built for a node with a type describe one another.
proof fn lemma_built_record_matches(l: Seq<FlatView>, i: int, b_offset: int, u: Seq<(i32, Seq<char>)>, w: Seq<(i32, Seq<char>)>)
    requires
        file_fits(l),
        0 <= i < l.len(),
        l[i].data.node_type.len() > 0,
    ensures
        record_matches(encode_a(l[i], b_offset), encode_b(l[i], u, w)),
{
    let n = l[i];
    let es = n.data.tags;
    let tags = encode_tags(es, u);
    let a = encode_a(n, b_offset);
    lemma_node_b_size_within(l, i);
    assert(!is_v1(n) && !is_v2(n));
    let probe = Seq::new(es.len(), |k: int| TagData { key_offset: 0, type_id: value_type_id(es[k].1), value: 0 });
    lemma_tag_type_id_by_types(probe, tags);
    assert(a.tags_type_id == spec_tag_type_id(tags));
    assert(a.tag_count == tags.len());
    if a.tags_type_id != 1 && tags.len() > 0 {
        assert(forall|k: int| 0 <= k < tags.len() ==> #[trigger] tags[k].type_id == tags[0].type_id);
        let t0 = tags[0].type_id;
        assert(2 <= t0 <= 6);
        assert(a.tags_type_id as u32 == t0);
    }
    assert(tags_stored_as(tags, a));
}

/// Every node of a list has a type, so that each is stored with a
/// version-3 record.
pub open spec fn all_typed(l: Seq<FlatView>) -> bool {
    forall|i: int| 0 <= i < l.len() ==> (#[trigger] l[i]).data.node_type.len() > 0
}

proof fn lemma_parents_checked(l: Seq<FlatView>, a_s: Seq<NodeDataA>, i: int, k: int)
    requires
        bfs_layout(l),
        a_s.len() == l.len(),
        forall|j: int| 0 <= j < l.len() ==> (#[trigger] a_s[j]).parent_index == l[j].parent_index,
        0 <= i < l.len(),
        l[i].child_count > 0,
        0 <= l[i].children_start_index <= k,
        l[i].children_start_index + l[i].child_count <= l.len(),
    ensures
        check_parents(a_s, i, k, l[i].children_start_index + l[i].child_count) is Ok,
    decreases l[i].children_start_index + l[i].child_count - k,
{
    let end = l[i].children_start_index + l[i].child_count;
    if k < end {
        let off = k - l[i].children_start_index;
        assert(l[l[i].children_start_index + off].parent_index == i);
        lemma_parents_checked(l, a_s, i, k + 1);
    }
}

/// The child blocks of a breadth-first list of typed nodes pass the
/// reader's check, from node `i` on.
proof fn lemma_children_checked(l: Seq<FlatView>, a_s: Seq<NodeDataA>, bs: Seq<NodeDataBView>, i: int)
    requires
        bfs_layout(l),
        all_typed(l),
        a_s.len() == l.len(),
        bs.len() == l.len(),
        forall|j: int| 0 <= j < l.len() ==> (#[trigger] a_s[j]).parent_index == l[j].parent_index,
        forall|j: int|
            0 <= j < l.len() ==> ((#[trigger] bs[j]) matches NodeDataBView::Version3 { children_start_index, child_count, .. }
                && children_start_index == l[j].children_start_index && child_count == l[j].child_count),
        0 <= i <= l.len(),
    ensures
        check_children(a_s, bs, i, 1 + children_before(l, i)) is Ok,
    decreases l.len() - i,
{
    if i < l.len() {
        assert(forall|k: int| 0 <= k < l.len() ==> #[trigger] l[k].child_count >= 0);
        let b = bs[i];
        assert(b matches NodeDataBView::Version3 { .. });
        lemma_children_checked(l, a_s, bs, i + 1);
        if l[i].child_count > 0 {
            lemma_children_before_monotonic(l, i + 1, l.len() as int);
            lemma_children_before_monotonic(l, 0, i);
            lemma_parents_checked(l, a_s, i, l[i].children_start_index as int);
        }
    }
}

/// Counting units one way and the other gives the same number.
proof fn lemma_utf16_len_units(t: Seq<char>)
    ensures
        utf16_len(t) == utf16_units(t).len(),
    decreases t.len(),
{
    if t.len() > 0 {
        lemma_utf16_len_units(t.drop_last());
    }
}

/// The room a text takes in a built table is the space the reader gives
/// it.
proof fn lemma_span_is_size(t: Seq<char>, wide: bool)
    ensures
        span(t, wide) == string_size(t, wide),
{
    lemma_utf16_len_units(t);
}

/// A table laid out by building, whose texts hold no NUL, is packed.
proof fn lemma_laid_out_packed(strs: Seq<Seq<char>>, start: int, wide: bool)
    requires
        0 <= start,
        start + total_span(strs, wide) <= i32::MAX,
        strs.len() > 0,
        forall|k: int| 0 <= k < strs.len() ==> no_nul(#[trigger] strs[k]),
    ensures
        packed(laid_out(strs, start, wide), start, wide),
        table_end(laid_out(strs, start, wide), wide) == start + total_span(strs, wide),
{
    let p = laid_out(strs, start, wide);
    lemma_laid_out_offsets(strs, start, wide);
    lemma_total_span_nonneg(strs, wide);
    assert(strs.take(0) =~= Seq::<Seq<char>>::empty());
    assert(p[0].0 == start);
    assert forall|k: int| 0 <= k < p.len() - 1 implies #[trigger] follows(p, k, wide) by {
        assert(strs.take(k + 1).drop_last() =~= strs.take(k));
        assert(strs.take(k + 1).last() == strs[k]);
        lemma_span_is_size(strs[k], wide);
        assert(p[k + 1].0 == start + total_span(strs.take(k + 1), wide));
    }
    assert forall|k: int| 0 <= k < p.len() implies no_nul(#[trigger] p[k].1) by {
        assert(p[k].1 == strs[k]);
    }
    let n = strs.len() - 1;
    assert(strs.take(n + 1) =~= strs);
    assert(strs.take(n + 1).drop_last() =~= strs.take(n));
    lemma_span_is_size(strs[n], wide);
}

/// Two packed tables, the second from where the first ends, make one.
proof fn lemma_packed_concat(a: Seq<(i32, Seq<char>)>, b: Seq<(i32, Seq<char>)>, start: int, wide: bool)
    requires
        packed(a, start, wide),
        b.len() > 0 ==> packed(b, table_end(a, wide), wide),
    ensures
        packed(a + b, start, wide),
        table_end(a + b, wide) == if b.len() == 0 {
            table_end(a, wide)
        } else {
            table_end(b, wide)
        },
{
    let c = a + b;
    if b.len() == 0 {
        assert(c =~= a);
    } else {
        assert forall|k: int| 0 <= k < c.len() - 1 implies #[trigger] follows(c, k, wide) by {
            if k < a.len() - 1 {
                assert(follows(a, k, wide));
            } else if k == a.len() - 1 {
                assert(c[k] == a.last());
                assert(c[k + 1] == b[0]);
            } else {
                assert(follows(b, k - a.len(), wide));
                assert(c[k] == b[k - a.len()]);
                assert(c[k + 1] == b[k + 1 - a.len()]);
            }
        }
        assert forall|k: int| 0 <= k < c.len() implies no_nul(#[trigger] c[k].1) by {
            if k < a.len() {
                assert(c[k] == a[k]);
            } else {
                assert(c[k] == b[k - a.len()]);
            }
        }
        assert(c.last() == b.last());
    }
}

/// No text of a node holds NUL: neither its type nor its inner text, nor a
/// key or a text value of its tags.
pub open spec fn node_without_nul(d: NodeDataView) -> bool {
    &&& no_nul(d.node_type)
    &&& no_nul(d.text)
    &&& forall|k: int|
        0 <= k < d.tags.len() ==> no_nul((#[trigger] d.tags[k]).0) && (d.tags[k].1 matches ValueView::Text(t) ==> no_nul(t))
}

proof fn lemma_entry_strings_without_nul(es: Seq<(Seq<char>, ValueView)>)
    requires
        forall|k: int|
            0 <= k < es.len() ==> no_nul((#[trigger] es[k]).0) && (es[k].1 matches ValueView::Text(t) ==> no_nul(t)),
    ensures
        forall|t: Seq<char>| #[trigger] entry_keys(es).contains(t) ==> no_nul(t),
        forall|t: Seq<char>| #[trigger] entry_texts(es).contains(t) ==> no_nul(t),
    decreases es.len(),
{
    if es.len() > 0 {
        assert forall|k: int| 0 <= k < es.drop_last().len() implies no_nul((#[trigger] es.drop_last()[k]).0) && (
        es.drop_last()[k].1 matches ValueView::Text(t) ==> no_nul(t)) by {
            assert(es.drop_last()[k] == es[k]);
        }
        lemma_entry_strings_without_nul(es.drop_last());
        assert(es.last() == es[es.len() - 1]);
        assert forall|t: Seq<char>| #[trigger] entry_keys(es).contains(t) implies no_nul(t) by {
            if t != es.last().0 {
                assert(entry_keys(es.drop_last()).contains(t));
            }
        }
        assert forall|t: Seq<char>| #[trigger] entry_texts(es).contains(t) implies no_nul(t) by {
            match es.last().1 {
                ValueView::Text(x) => {
                    if t != x {
                        assert(entry_texts(es.drop_last()).contains(t));
                    }
                },
                _ => {
                    assert(entry_texts(es.drop_last()).contains(t));
                },
            }
        }
    }
}

/// The strings of a list whose nodes hold no NUL hold none.
proof fn lemma_list_strings_without_nul(l: Seq<FlatView>)
    requires
        forall|i: int| 0 <= i < l.len() ==> node_without_nul((#[trigger] l[i]).data),
    ensures
        forall|t: Seq<char>| #[trigger] key_strings(l).contains(t) ==> no_nul(t),
        forall|t: Seq<char>| #[trigger] value_strings(l).contains(t) ==> no_nul(t),
        forall|t: Seq<char>| #[trigger] text_strings(l).contains(t) ==> no_nul(t),
    decreases l.len(),
{
    if l.len() > 0 {
        assert forall|i: int| 0 <= i < l.drop_last().len() implies node_without_nul((#[trigger] l.drop_last()[i]).data) by {
            assert(l.drop_last()[i] == l[i]);
        }
        lemma_list_strings_without_nul(l.drop_last());
        let n = l.last();
        assert(n == l[l.len() - 1]);
        assert(node_without_nul(n.data));
        lemma_entry_strings_without_nul(n.data.tags);
        let l0 = l.drop_last();
        assert forall|t: Seq<char>| #[trigger] key_strings(l).contains(t) implies no_nul(t) by {
            if t != n.data.node_type && !entry_keys(n.data.tags).contains(t) {
                assert(key_strings(l0).contains(t));
            }
        }
        assert forall|t: Seq<char>| #[trigger] value_strings(l).contains(t) implies no_nul(t) by {
            if !entry_texts(n.data.tags).contains(t) {
                assert(value_strings(l0).contains(t));
            }
        }
        assert forall|t: Seq<char>| #[trigger] text_strings(l).contains(t) implies no_nul(t) by {
            if t != n.data.text {
                assert(text_strings(l0).contains(t));
            }
        }
    }
}

/// The tables built for a nonempty list whose nodes hold no NUL are packed
/// one after the other.
proof fn lemma_built_tables_packed(l: Seq<FlatView>)
    requires
        file_fits(l),
        l.len() > 0,
        forall|i: int| 0 <= i < l.len() ==> node_without_nul((#[trigger] l[i]).data),
    ensures
        tables_laid_out(utf8_table(l), Some(utf16_table(l))),
        table_end(utf8_table(l), false) == utf8_end(l),
{
    lemma_sorted_sets(l);
    lemma_list_strings_without_nul(l);
    lemma_node_strings(l, 0);
    let ks = sorted_keys(l);
    let vs = sorted_values(l);
    let ts = sorted_texts(l);
    assert(ks.to_set().contains(l[0].data.node_type));
    assert(ks.len() > 0);
    assert(ts.to_set().contains(l[0].data.text));
    assert(ts.len() > 0);
    assert forall|k: int| 0 <= k < ks.len() implies no_nul(#[trigger] ks[k]) by {
        assert(ks.to_set().contains(ks[k]));
    }
    assert forall|k: int| 0 <= k < vs.len() implies no_nul(#[trigger] vs[k]) by {
        assert(vs.to_set().contains(vs[k]));
    }
    assert forall|k: int| 0 <= k < ts.len() implies no_nul(#[trigger] ts[k]) by {
        assert(ts.to_set().contains(ts[k]));
    }
    lemma_total_span_nonneg(ks, false);
    lemma_total_span_nonneg(vs, false);
    lemma_total_span_nonneg(ts, true);
    let tk = total_span(ks, false);
    lemma_laid_out_packed(ks, 0, false);
    if vs.len() > 0 {
        lemma_laid_out_packed(vs, tk, false);
    } else {
        assert(vs =~= Seq::<Seq<char>>::empty());
    }
    lemma_packed_concat(laid_out(ks, 0, false), laid_out(vs, tk, false), 0, false);
    lemma_laid_out_packed(ts, utf8_end(l), true);
}

/// The text offset of a version-3 record.
pub open spec fn text_off(b: NodeDataBView) -> i32 {
    match b {
        NodeDataBView::Version3 { text_offset, .. } => text_offset,
        _ => 0,
    }
}

proof fn lemma_text_bounds_prefix(bs: Seq<NodeDataBView>, m: int)
    requires
        1 <= m <= bs.len(),
        forall|i: int| 0 <= i < bs.len() ==> (#[trigger] bs[i]) is Version3,
    ensures
        text_bounds(bs.take(m)) matches Some((a, b)) && (forall|i: int| 0 <= i < m ==> a <= #[trigger] text_off(bs[i]) <= b)
            && (exists|i: int| 0 <= i < m && #[trigger] text_off(bs[i]) == a) && (exists|i: int|
            0 <= i < m && #[trigger] text_off(bs[i]) == b),
    decreases m,
{
    let q = bs.take(m);
    assert(q.drop_last() =~= bs.take(m - 1));
    assert(q.last() == bs[m - 1]);
    assert(bs[m - 1] is Version3);
    if m == 1 {
        assert(bs.take(0) =~= Seq::<NodeDataBView>::empty());
        assert(text_off(bs[0]) == text_off(bs[0]));
    } else {
        lemma_text_bounds_prefix(bs, m - 1);
        let (a, b) = text_bounds(bs.take(m - 1)).unwrap();
        let x = text_off(bs[m - 1]);
        let (a2, b2) = text_bounds(q).unwrap();
        assert(a2 == min_i32(a, x) && b2 == max_i32(b, x));
        if x < a {
            assert(text_off(bs[m - 1]) == a2);
        } else {
            let i = choose|i: int| 0 <= i < m - 1 && #[trigger] text_off(bs[i]) == a;
            assert(text_off(bs[i]) == a2);
        }
        if b < x {
            assert(text_off(bs[m - 1]) == b2);
        } else {
            let i = choose|i: int| 0 <= i < m - 1 && #[trigger] text_off(bs[i]) == b;
            assert(text_off(bs[i]) == b2);
        }
    }
}

/// Version-3 records whose text offsets lie between two that some of them
/// have: their text bounds are those two.
proof fn lemma_text_bounds_are(bs: Seq<NodeDataBView>, lo: i32, hi: i32, i_lo: int, i_hi: int)
    requires
        bs.len() > 0,
        forall|i: int| 0 <= i < bs.len() ==> (#[trigger] bs[i]) is Version3,
        forall|i: int| 0 <= i < bs.len() ==> lo <= #[trigger] text_off(bs[i]) <= hi,
        0 <= i_lo < bs.len(),
        0 <= i_hi < bs.len(),
        text_off(bs[i_lo]) == lo,
        text_off(bs[i_hi]) == hi,
    ensures
        text_bounds(bs) == Some((lo, hi)),
{
    lemma_text_bounds_prefix(bs, bs.len() as int);
    assert(bs.take(bs.len() as int) =~= bs);
    let (a, b) = text_bounds(bs).unwrap();
    assert(a <= text_off(bs[i_lo]));
    assert(text_off(bs[i_hi]) <= b);
    let i = choose|i: int| 0 <= i < bs.len() && #[trigger] text_off(bs[i]) == a;
    let j = choose|j: int| 0 <= j < bs.len() && #[trigger] text_off(bs[j]) == b;
    assert(lo <= text_off(bs[i]));
    assert(text_off(bs[j]) <= hi);
}

/// A node of the list has each of the list's inner texts.
proof fn lemma_text_owner(l: Seq<FlatView>, t: Seq<char>) -> (i: int)
    requires
        text_strings(l).contains(t),
    ensures
        0 <= i < l.len(),
        l[i].data.text == t,
    decreases l.len(),
{
    if l.last().data.text == t {
        l.len() - 1
    } else {
        let i = lemma_text_owner(l.drop_last(), t);
        assert(l.drop_last()[i] == l[i]);
        i
    }
}

/// Where a text of the list stands in its UTF-16 table.
proof fn lemma_text_found(l: Seq<FlatView>, t: Seq<char>) -> (k: int)
    requires
        file_fits(l),
        text_strings(l).contains(t),
    ensures
        0 <= k < utf16_table(l).len(),
        table_find(utf16_table(l), t) == Some(utf16_table(l)[k].0),
        utf16_table(l)[k].1 == t,
        utf16_table(l)[0].0 <= utf16_table(l)[k].0 <= utf16_table(l).last().0,
{
    lemma_sorted_sets(l);
    let ts = sorted_texts(l);
    let w = utf16_table(l);
    lemma_total_span_nonneg(sorted_keys(l), false);
    lemma_total_span_nonneg(sorted_values(l), false);
    lemma_laid_out_offsets(ts, utf8_end(l), true);
    assert(ts.to_set().contains(t));
    let j = choose|j: int| 0 <= j < ts.len() && ts[j] == t;
    assert(w[j].1 == t);
    lemma_table_find_some(w, t, j);
    let k = lemma_table_find_index(w, t);
    if k > 0 {
        assert(w[0].0 < w[k].0);
    }
    if k < w.len() - 1 {
        assert(w[k].0 < w[w.len() - 1].0);
    }
    k
}

/// In a strictly sorted sequence, a text stands at one place only.
proof fn lemma_sorted_place(q: Seq<Seq<char>>, i: int, j: int)
    requires
        strictly_sorted(q),
        0 <= i < q.len(),
        0 <= j < q.len(),
        q[i] == q[j],
    ensures
        i == j,
{
    lemma_text_lt_order(q[i], q[i], q[i]);
    if i < j {
        assert(text_lt(q[i], q[j]));
    } else if j < i {
        assert(text_lt(q[j], q[i]));
    }
}

/// The texts of the records built for a nonempty list of typed nodes are
/// where the reader looks for the ends of the tables.
proof fn lemma_built_texts_placed(l: Seq<FlatView>)
    requires
        file_fits(l),
        all_typed(l),
        l.len() > 0,
    ensures
        texts_placed(encoded_bs(l), utf8_table(l), Some(utf16_table(l))),
{
    let bs = encoded_bs(l);
    let u = utf8_table(l);
    let w = utf16_table(l);
    let ts = sorted_texts(l);
    lemma_sorted_sets(l);
    assert forall|i: int| 0 <= i < bs.len() implies (#[trigger] bs[i]) is Version3 && w[0].0 <= text_off(bs[i])
        <= w.last().0 by {
        assert(l[i].data.node_type.len() > 0);
        lemma_node_strings(l, i);
        let k = lemma_text_found(l, l[i].data.text);
        assert(bs[i] == encode_b(l[i], u, w));
    }
    lemma_node_strings(l, 0);
    assert(ts.to_set().contains(l[0].data.text));
    let t_lo = ts[0];
    let t_hi = ts[ts.len() - 1];
    assert(ts.to_set().contains(t_lo));
    assert(ts.to_set().contains(t_hi));
    let i_lo = lemma_text_owner(l, t_lo);
    let i_hi = lemma_text_owner(l, t_hi);
    let k_lo = lemma_text_found(l, t_lo);
    let k_hi = lemma_text_found(l, t_hi);
    assert(w[k_lo].1 == ts[k_lo]);
    assert(w[k_hi].1 == ts[k_hi]);
    lemma_sorted_place(ts, k_lo, 0);
    lemma_sorted_place(ts, k_hi, ts.len() - 1);
    assert(bs[i_lo] == encode_b(l[i_lo], u, w));
    assert(bs[i_hi] == encode_b(l[i_hi], u, w));
    assert(l[i_lo].data.node_type.len() > 0);
    assert(l[i_hi].data.node_type.len() > 0);
    lemma_text_bounds_are(bs, w[0].0, w.last().0, i_lo, i_hi);
}

/// The file built from a breadth-first list of typed nodes holding no NUL
/// is one the reader gives back from its bytes.
proof fn lemma_built_file_readable(l: Seq<FlatView>, j: Jxb)
    requires
        bfs_layout(l),
        file_fits(l),
        jxb_encodes(j, l),
        all_typed(l),
        forall|i: int| 0 <= i < l.len() ==> node_without_nul((#[trigger] l[i]).data),
    ensures
        readable(jxb_view(j)),
{
    let v = jxb_view(j);
    let u = utf8_table(l);
    let w = utf16_table(l);
    let a_s = encoded_as(l);
    let bs = encoded_bs(l);
    assert(v.a_s == a_s && v.bs == bs);
    assert(v.utf8 == u);
    assert(v.utf16 == Some(w));
    assert forall|i: int| 0 <= i < bs.len() implies record_matches(#[trigger] a_s[i], bs[i]) by {
        assert(l[i].data.node_type.len() > 0);
        lemma_built_record_matches(l, i, total_b_size(l.take(i)), u, w);
    }
    assert forall|i: int| 0 <= i < l.len() implies (#[trigger] a_s[i]).parent_index == l[i].parent_index by {
        assert(a_s[i] == encode_a(l[i], total_b_size(l.take(i))));
    }
    assert forall|i: int| 0 <= i < l.len() implies ((#[trigger] bs[i]) matches NodeDataBView::Version3 {
        children_start_index,
        child_count,
        ..
    } && children_start_index == l[i].children_start_index && child_count == l[i].child_count) by {
        assert(l[i].data.node_type.len() > 0);
        assert(bs[i] == encode_b(l[i], u, w));
    }
    lemma_children_checked(l, a_s, bs, 0);
    lemma_built_tables_packed(l);
    lemma_built_texts_placed(l);
}

/// A file built from the breadth-first list of a tree whose nodes all have
/// a type, hold no NUL and repeat no tag key reads back from the bytes
/// written for it, and reads back as the list.
pub proof fn lemma_built_bytes_read_back(l: Seq<FlatView>, j: Jxb)
    requires
        bfs_layout(l),
        l.len() <= i32::MAX,
        file_fits(l),
        jxb_encodes(j, l),
        jxb_layout_fits(j.node_data_as@, bs_view(j.node_data_bs@), j.key_string_offsets@),
        all_typed(l),
        forall|i: int|
            0 <= i < l.len() ==> node_without_nul((#[trigger] l[i]).data) && keys_unique(l[i].data.tags),
    ensures
        ({
            let d = jxb_bytes(
                j.node_data_as@,
                bs_view(j.node_data_bs@),
                j.key_string_offsets@,
                table_texts(pool_view(j.string_pool.utf8_strings@)),
                opt_table_texts(j.string_pool.utf16_strings),
            );
            parse_jxb(d, 0) == Ok::<(JxbView, int), ParseError>((jxb_view(j), d.len() as int))
        }),
        j.spec_flat_list() == Ok::<Seq<FlatView>, Seq<char>>(l),
{
    lemma_built_file_readable(l, j);
    lemma_jxb_bytes_read_back(j);
    assert forall|i: int| 0 <= i < l.len() implies keys_unique((#[trigger] l[i]).data.tags) && (is_v1(l[i])
        ==> l[i].child_count == 0) by {
        assert(l[i].data.node_type.len() > 0);
    }
    lemma_tree_file_reads_back(l, j);
}

} // verus!
