//! Building a `jxb` file's records from a flat list of nodes: the string
//! tables with their offsets, and each node's records pointing into them.

use vstd::prelude::*;
use crate::strset::{lemma_sorted_insert, lemma_sorted_of, lemma_sorted_of_set, sorted_insert, sorted_of, lemma_text_lt_order, search, set_insert, strictly_sorted, text_lt, texts, utf8_of};
use crate::node::{NodeDataView, entries_insert, entry_index, tag_entries, tags_get_index, tags_len, value_type_id, Value, ValueView};
use crate::tree::{lemma_bfs_layout_unique, bfs_layout, flat_view, lemma_children_before_monotonic, pointers_wf, tree_at, tree_size, FlatView, Node, NodeDataWithPointers};
use crate::text::{str_chars, text_eq};
use crate::jxb::{b_tags, decode_all, decode_flat, flat_node, spec_node_data, decode_tags, lemma_table_get_index, spec_get_string, spec_value_new, bs_view, offsets_increasing, pool_view, FormatError, Jxb, StringPool, spec_tag_type_id, NodeDataA, NodeDataB, NodeDataBView, TagData, TagDatas};

verus! {

broadcast use vstd::string::group_string_axioms;

/// The number of UTF-16 code units of a text.
pub open spec fn utf16_len(t: Seq<char>) -> nat
    decreases t.len(),
{
    if t.len() == 0 {
        0
    } else {
        utf16_len(t.drop_last()) + if (t.last() as u32) >= 0x10000 { 2nat } else { 1nat }
    }
}

/// The room a text takes in a table: its UTF-8 bytes and a terminating
/// zero byte, or, in a wide table, its UTF-16 units and a terminating zero
/// unit, two bytes each.
pub open spec fn span(t: Seq<char>, wide: bool) -> int {
    if wide {
        ((utf16_len(t) + 1) * 2) as int
    } else {
        utf8_of(t).len() + 1int
    }
}

/// The room a sequence of texts takes in a table.
pub open spec fn total_span(strs: Seq<Seq<char>>, wide: bool) -> int
    decreases strs.len(),
{
    if strs.len() == 0 {
        0
    } else {
        total_span(strs.drop_last(), wide) + span(strs.last(), wide)
    }
}

/// The table of texts laid out one after another from offset `start`.
pub open spec fn laid_out(strs: Seq<Seq<char>>, start: int, wide: bool) -> Seq<(i32, Seq<char>)> {
    Seq::new(strs.len(), |k: int| ((start + total_span(strs.take(k), wide)) as i32, strs[k]))
}

pub proof fn lemma_total_span_nonneg(strs: Seq<Seq<char>>, wide: bool)
    ensures
        total_span(strs, wide) >= 0,
    decreases strs.len(),
{
    if strs.len() > 0 {
        lemma_total_span_nonneg(strs.drop_last(), wide);
    }
}

/// A longer prefix takes more room.
pub proof fn lemma_total_span_prefix(strs: Seq<Seq<char>>, wide: bool, j: int, k: int)
    requires
        0 <= j < k <= strs.len(),
    ensures
        total_span(strs.take(j), wide) < total_span(strs.take(k), wide),
        total_span(strs.take(k), wide) <= total_span(strs, wide),
    decreases k - j,
{
    assert(strs.take(k).drop_last() =~= strs.take(k - 1));
    if j < k - 1 {
        lemma_total_span_prefix(strs, wide, j, k - 1);
    }
    lemma_total_span_upto(strs, wide, k);
}

pub proof fn lemma_total_span_upto(strs: Seq<Seq<char>>, wide: bool, k: int)
    requires
        0 <= k <= strs.len(),
    ensures
        total_span(strs.take(k), wide) <= total_span(strs, wide),
    decreases strs.len() - k,
{
    if k < strs.len() {
        assert(strs.take(k + 1).drop_last() =~= strs.take(k));
        lemma_total_span_upto(strs, wide, k + 1);
    } else {
        assert(strs.take(k) =~= strs);
    }
}

/// The number of UTF-16 code units of `s`, where it is at most `i32::MAX`.
pub fn count_utf16(s: &str) -> (r: Option<u32>)
    ensures
        match r {
            Some(n) => n == utf16_len(s@) && n <= i32::MAX,
            None => utf16_len(s@) > i32::MAX,
        },
{
    let chars = str_chars(s);
    let mut n: u32 = 0;
    let mut i: usize = 0;
    while i < chars.len()
        invariant
            i <= chars@.len(),
            chars@ == s@,
            n == utf16_len(chars@.take(i as int)),
            n <= i32::MAX,
        decreases chars@.len() - i,
    {
        proof {
            assert(chars@.take(i + 1).drop_last() =~= chars@.take(i as int));
        }
        let c = chars[i];
        let w: u32 = if (c as u32) >= 0x10000 { 2 } else { 1 };
        assert(chars@.take(i + 1).last() == c);
        if n > 0x7fff_ffff - w {
            proof {
                lemma_utf16_len_prefix(chars@, i + 1);
            }
            return None;
        }
        n = n + w;
        i = i + 1;
    }
    proof {
        assert(chars@.take(i as int) =~= chars@);
    }
    Some(n)
}

proof fn lemma_utf16_len_prefix(t: Seq<char>, k: int)
    requires
        0 <= k <= t.len(),
    ensures
        utf16_len(t.take(k)) <= utf16_len(t),
    decreases t.len() - k,
{
    if k < t.len() {
        assert(t.take(k + 1).drop_last() =~= t.take(k));
        lemma_utf16_len_prefix(t, k + 1);
    } else {
        assert(t.take(k) =~= t);
    }
}

/// The room `s` takes in a table, where it is at most `i32::MAX`.
fn span_of(s: &str, wide: bool) -> (r: Option<i64>)
    ensures
        match r {
            Some(n) => n == span(s@, wide) && n <= i32::MAX,
            None => span(s@, wide) > i32::MAX,
        },
{
    if wide {
        match count_utf16(s) {
            Some(n) => {
                let m: i64 = (n as i64 + 1) * 2;
                if m > 0x7fff_ffff {
                    None
                } else {
                    Some(m)
                }
            },
            None => None,
        }
    } else {
        let len = s.as_bytes().len();
        if len >= 0x7fff_ffff {
            None
        } else {
            Some(len as i64 + 1)
        }
    }
}

/// Appends the texts of `strs` to a table, laid out from offset `start`.
/// Returns the offset after the last text, where every offset fits in an
/// `i32`; else `None`, and the table is left unfinished.
pub fn lay_out(strs: &Vec<String>, start: i64, wide: bool, table: &mut Vec<(i32, String)>) -> (r: Option<i64>)
    requires
        0 <= start <= i32::MAX,
    ensures
        match r {
            Some(end) => end == start + total_span(texts(strs@), wide) && end <= i32::MAX
                && pool_view(final(table)@) == pool_view(old(table)@) + laid_out(texts(strs@), start as int, wide),
            None => start + total_span(texts(strs@), wide) > i32::MAX,
        },
{
    let ghost ts = texts(strs@);
    let ghost before = pool_view(table@);
    let mut offset: i64 = start;
    let mut i: usize = 0;
    while i < strs.len()
        invariant
            i <= strs@.len(),
            ts == texts(strs@),
            0 <= start <= i32::MAX,
            offset == start + total_span(ts.take(i as int), wide),
            offset <= i32::MAX,
            pool_view(table@) == before + laid_out(ts.take(i as int), start as int, wide),
        decreases strs@.len() - i,
    {
        proof {
            assert(ts.take(i + 1).drop_last() =~= ts.take(i as int));
            assert(ts[i as int] == strs@[i as int]@);
        }
        let s = match span_of(strs[i].as_str(), wide) {
            Some(n) => n,
            None => {
                proof {
                    lemma_total_span_nonneg(ts.take(i as int), wide);
                    lemma_total_span_upto(ts, wide, i + 1);
                }
                return None;
            },
        };
        let ghost old_table = table@;
        table.push((offset as i32, strs[i].clone()));
        proof {
            assert(pool_view(table@) =~= pool_view(old_table).push((offset as i32, ts[i as int])));
            let a = laid_out(ts.take(i + 1), start as int, wide);
            let b = laid_out(ts.take(i as int), start as int, wide);
            assert forall|k: int| 0 <= k < i implies #[trigger] a[k] == b[k] by {
                assert(ts.take(i + 1).take(k) =~= ts.take(i as int).take(k));
            }
            assert(ts.take(i + 1).take(i as int) =~= ts.take(i as int));
            assert(a =~= b.push((offset as i32, ts[i as int])));
            assert(pool_view(table@) =~= before + a);
        }
        if offset + s > 0x7fff_ffff {
            proof {
                lemma_total_span_upto(ts, wide, i + 1);
            }
            return None;
        }
        offset = offset + s;
        i = i + 1;
    }
    proof {
        assert(ts.take(i as int) =~= ts);
    }
    Some(offset)
}

/// The keys of a sequence of tag entries.
pub open spec fn entry_keys(es: Seq<(Seq<char>, ValueView)>) -> Set<Seq<char>>
    decreases es.len(),
{
    if es.len() == 0 {
        Set::empty()
    } else {
        entry_keys(es.drop_last()).insert(es.last().0)
    }
}

/// The text values of a sequence of tag entries.
pub open spec fn entry_texts(es: Seq<(Seq<char>, ValueView)>) -> Set<Seq<char>>
    decreases es.len(),
{
    if es.len() == 0 {
        Set::empty()
    } else {
        match es.last().1 {
            ValueView::Text(t) => entry_texts(es.drop_last()).insert(t),
            _ => entry_texts(es.drop_last()),
        }
    }
}

/// The texts a list keeps in the key part of its UTF-8 table: node types
/// and tag keys.
pub open spec fn key_strings(l: Seq<FlatView>) -> Set<Seq<char>>
    decreases l.len(),
{
    if l.len() == 0 {
        Set::empty()
    } else {
        key_strings(l.drop_last()).insert(l.last().data.node_type).union(entry_keys(l.last().data.tags))
    }
}

/// The texts a list keeps in the value part of its UTF-8 table: the text
/// values of tags.
pub open spec fn value_strings(l: Seq<FlatView>) -> Set<Seq<char>>
    decreases l.len(),
{
    if l.len() == 0 {
        Set::empty()
    } else {
        value_strings(l.drop_last()).union(entry_texts(l.last().data.tags))
    }
}

/// The texts a list keeps in its UTF-16 table: the inner texts.
pub open spec fn text_strings(l: Seq<FlatView>) -> Set<Seq<char>>
    decreases l.len(),
{
    if l.len() == 0 {
        Set::empty()
    } else {
        text_strings(l.drop_last()).insert(l.last().data.text)
    }
}

/// The three sets of texts of a flat list, each sorted: keys, text values
/// and inner texts.
fn collect_strings(list: &Vec<NodeDataWithPointers>) -> (r: (Vec<String>, Vec<String>, Vec<String>))
    ensures
        all_keys_unique(flat_view(list@)),
        strictly_sorted(texts(r.0@)),
        texts(r.0@).to_set() == key_strings(flat_view(list@)),
        strictly_sorted(texts(r.1@)),
        texts(r.1@).to_set() == value_strings(flat_view(list@)),
        strictly_sorted(texts(r.2@)),
        texts(r.2@).to_set() == text_strings(flat_view(list@)),
{
    let ghost l = flat_view(list@);
    let mut keys: Vec<String> = Vec::new();
    let mut values: Vec<String> = Vec::new();
    let mut inner: Vec<String> = Vec::new();
    proof {
        assert(texts(keys@).to_set() =~= Set::<Seq<char>>::empty());
        assert(l.take(0) =~= Seq::<FlatView>::empty());
    }
    let mut i: usize = 0;
    while i < list.len()
        invariant
            i <= list@.len(),
            l == flat_view(list@),
            strictly_sorted(texts(keys@)),
            strictly_sorted(texts(values@)),
            strictly_sorted(texts(inner@)),
            texts(keys@).to_set() == key_strings(l.take(i as int)),
            texts(values@).to_set() == value_strings(l.take(i as int)),
            texts(inner@).to_set() == text_strings(l.take(i as int)),
            forall|q: int| 0 <= q < i ==> keys_unique(#[trigger] l[q].data.tags),
        decreases list@.len() - i,
    {
        let node = &list[i];
        let ghost d = node.data@;
        proof {
            assert(l.take(i + 1).drop_last() =~= l.take(i as int));
            assert(l.take(i + 1).last() == node@);
        }
        set_insert(&mut keys, node.data.node_type.as_str());
        set_insert(&mut inner, node.data.text.as_str());
        let ghost keys0 = key_strings(l.take(i as int)).insert(d.node_type);
        let ghost values0 = value_strings(l.take(i as int));
        let n = tags_len(&node.data.tags);
        let mut k: usize = 0;
        proof {
            assert(d.tags.take(0) =~= Seq::<(Seq<char>, ValueView)>::empty());
            assert(keys0.union(entry_keys(d.tags.take(0))) =~= keys0);
            assert(values0.union(entry_texts(d.tags.take(0))) =~= values0);
        }
        while k < n
            invariant
                k <= n,
                n == d.tags.len(),
                d == node.data@,
                d.tags == tag_entries(node.data.tags),
                strictly_sorted(texts(keys@)),
                strictly_sorted(texts(values@)),
                texts(keys@).to_set() == keys0.union(entry_keys(d.tags.take(k as int))),
                texts(values@).to_set() == values0.union(entry_texts(d.tags.take(k as int))),
                forall|a: int, j: int| 0 <= a < k && 0 <= j < n && j != a ==> (#[trigger] d.tags[j]).0 != (#[trigger] d.tags[a]).0,
            decreases n - k,
        {
            let (key, value) = tags_get_index(&node.data.tags, k);
            proof {
                assert(d.tags.take(k + 1).drop_last() =~= d.tags.take(k as int));
                assert(d.tags.take(k + 1).last() == d.tags[k as int]);
            }
            set_insert(&mut keys, key.as_str());
            proof {
                assert(keys0.union(entry_keys(d.tags.take(k as int))).insert(key@)
                    =~= keys0.union(entry_keys(d.tags.take(k + 1))));
            }
            match value {
                Value::Text(t) => {
                    set_insert(&mut values, t.as_str());
                    proof {
                        assert(values0.union(entry_texts(d.tags.take(k as int))).insert(t@)
                            =~= values0.union(entry_texts(d.tags.take(k + 1))));
                    }
                },
                _ => {
                    proof {
                        assert(values0.union(entry_texts(d.tags.take(k as int)))
                            =~= values0.union(entry_texts(d.tags.take(k + 1))));
                    }
                },
            }
            k = k + 1;
        }
        proof {
            assert(d.tags.take(n as int) =~= d.tags);
            assert(l[i as int].data.tags == d.tags);
            assert(keys_unique(d.tags));
            assert(texts(keys@).to_set() =~= key_strings(l.take(i + 1)));
            assert(texts(values@).to_set() =~= value_strings(l.take(i + 1)));
        }
        i = i + 1;
    }
    proof {
        assert(l.take(i as int) =~= l);
    }
    (keys, values, inner)
}

/// The first offset at which `t` stands in a table.
pub open spec fn table_find(p: Seq<(i32, Seq<char>)>, t: Seq<char>) -> Option<i32>
    decreases p.len(),
{
    if p.len() == 0 {
        None
    } else if p[0].1 == t {
        Some(p[0].0)
    } else {
        table_find(p.drop_first(), t)
    }
}

proof fn lemma_table_find_first(p: Seq<(i32, Seq<char>)>, t: Seq<char>, k: int)
    requires
        0 <= k < p.len(),
        p[k].1 == t,
        forall|j: int| 0 <= j < k ==> (#[trigger] p[j]).1 != t,
    ensures
        table_find(p, t) == Some(p[k].0),
    decreases k,
{
    if k > 0 {
        assert forall|j: int| 0 <= j < k - 1 implies (#[trigger] p.drop_first()[j]).1 != t by {
            assert(p.drop_first()[j] == p[j + 1]);
        }
        lemma_table_find_first(p.drop_first(), t, k - 1);
    }
}

proof fn lemma_table_find_none(p: Seq<(i32, Seq<char>)>, t: Seq<char>)
    requires
        forall|j: int| 0 <= j < p.len() ==> (#[trigger] p[j]).1 != t,
    ensures
        table_find(p, t) is None,
    decreases p.len(),
{
    if p.len() > 0 {
        assert forall|j: int| 0 <= j < p.len() - 1 implies (#[trigger] p.drop_first()[j]).1 != t by {
            assert(p.drop_first()[j] == p[j + 1]);
        }
        lemma_table_find_none(p.drop_first(), t);
    }
}

/// The offsets of a laid-out table rise strictly, from `start` up to, not
/// including, the end of its room.
pub proof fn lemma_laid_out_offsets(strs: Seq<Seq<char>>, start: int, wide: bool)
    requires
        0 <= start,
        start + total_span(strs, wide) <= i32::MAX,
    ensures
        offsets_increasing(laid_out(strs, start, wide)),
        forall|k: int| 0 <= k < strs.len() ==> start <= (#[trigger] laid_out(strs, start, wide)[k]).0 < start + total_span(strs, wide),
        forall|k: int| 0 <= k < strs.len() ==> (#[trigger] laid_out(strs, start, wide)[k]).0 == start + total_span(strs.take(k), wide),
{
    let p = laid_out(strs, start, wide);
    assert forall|k: int| 0 <= k < strs.len() implies start <= (#[trigger] p[k]).0 < start + total_span(strs, wide)
        && p[k].0 == start + total_span(strs.take(k), wide) by {
        lemma_total_span_nonneg(strs.take(k), wide);
        lemma_total_span_prefix(strs, wide, k, k + 1);
    }
    assert forall|i: int, j: int| 0 <= i < j < p.len() implies (#[trigger] p[i]).0 < (#[trigger] p[j]).0 by {
        lemma_total_span_nonneg(strs.take(i), wide);
        lemma_total_span_prefix(strs, wide, i, j);
        lemma_total_span_prefix(strs, wide, j, j + 1);
    }
}

/// Two tables one after the other keep their offsets rising.
proof fn lemma_offsets_concat(a: Seq<(i32, Seq<char>)>, b: Seq<(i32, Seq<char>)>, mid: int)
    requires
        offsets_increasing(a),
        offsets_increasing(b),
        forall|k: int| 0 <= k < a.len() ==> (#[trigger] a[k]).0 < mid,
        forall|k: int| 0 <= k < b.len() ==> mid <= (#[trigger] b[k]).0,
    ensures
        offsets_increasing(a + b),
{
    let c = a + b;
    assert forall|i: int, j: int| 0 <= i < j < c.len() implies (#[trigger] c[i]).0 < (#[trigger] c[j]).0 by {
        if j < a.len() {
        } else if i < a.len() {
            assert(c[i] == a[i]);
            assert(c[j] == b[j - a.len()]);
        } else {
            assert(c[i] == b[i - a.len()]);
            assert(c[j] == b[j - a.len()]);
        }
    }
}

/// A text is none of the entries of a sorted sequence that `search` did
/// not find it in.
proof fn lemma_not_found(v: Seq<Seq<char>>, t: Seq<char>, pos: int)
    requires
        0 <= pos <= v.len(),
        forall|i: int| 0 <= i < pos ==> text_lt(#[trigger] v[i], t),
        forall|i: int| pos < i < v.len() ==> text_lt(t, #[trigger] v[i]),
        pos < v.len() ==> v[pos] != t,
    ensures
        forall|i: int| 0 <= i < v.len() ==> #[trigger] v[i] != t,
{
    assert forall|i: int| 0 <= i < v.len() implies #[trigger] v[i] != t by {
        lemma_text_lt_order(t, t, t);
    }
}

/// The first offset at which `t` stands in a table of strings, if it
/// stands there at all.
pub fn offset_lookup(strings: &Vec<(i32, String)>, t: &str) -> (r: Option<i32>)
    ensures
        r == table_find(pool_view(strings@), t@),
{
    let ghost p = pool_view(strings@);
    let mut k: usize = 0;
    assert(p.skip(0) =~= p);
    while k < strings.len()
        invariant
            k <= strings@.len(),
            p == pool_view(strings@),
            table_find(p, t@) == table_find(p.skip(k as int), t@),
        decreases strings@.len() - k,
    {
        proof {
            let q = p.skip(k as int);
            assert(q[0] == p[k as int]);
            assert(q.drop_first() =~= p.skip(k + 1));
        }
        proof {
            assert(strings@[k as int].1@ == p[k as int].1);
        }
        if text_eq(strings[k].1.as_str(), t) {
            return Some(strings[k].0);
        }
        k = k + 1;
    }
    proof {
        assert(p.skip(k as int).len() == 0);
    }
    None
}

/// The first offset of `t` in a UTF-8 table laid out as the keys, then the
/// values.
fn find_offset(keys: &Vec<String>, values: &Vec<String>, table: &Vec<(i32, String)>, t: &str) -> (r: Option<i32>)
    requires
        strictly_sorted(texts(keys@)),
        strictly_sorted(texts(values@)),
        table@.len() == keys@.len() + values@.len(),
        forall|k: int| 0 <= k < table@.len() ==> (#[trigger] pool_view(table@)[k]).1 == (texts(keys@) + texts(values@))[k],
    ensures
        r == table_find(pool_view(table@), t@),
{
    let ghost p = pool_view(table@);
    let ghost kv = texts(keys@) + texts(values@);
    assert(texts(keys@).subrange(0, keys@.len() as int) =~= texts(keys@));
    let (pos, found) = search(keys, 0, keys.len(), t);
    if found {
        proof {
            assert(kv[pos as int] == texts(keys@)[pos as int]);
            assert forall|j: int| 0 <= j < pos implies (#[trigger] p[j]).1 != t@ by {
                assert(kv[j] == texts(keys@)[j]);
                lemma_text_lt_order(texts(keys@)[j], t@, t@);
            }
            lemma_table_find_first(p, t@, pos as int);
        }
        return Some(table[pos].0);
    }
    proof {
        lemma_not_found(texts(keys@), t@, pos as int);
    }
    assert(texts(values@).subrange(0, values@.len() as int) =~= texts(values@));
    let (vpos, vfound) = search(values, 0, values.len(), t);
    if vfound {
        let total = table.len();
        let at = keys.len() + vpos;
        proof {
            assert(kv[at as int] == texts(values@)[vpos as int]);
            assert forall|j: int| 0 <= j < at implies (#[trigger] p[j]).1 != t@ by {
                if j < keys@.len() {
                    assert(kv[j] == texts(keys@)[j]);
                } else {
                    assert(kv[j] == texts(values@)[j - keys@.len()]);
                    lemma_text_lt_order(texts(values@)[j - keys@.len()], t@, t@);
                }
            }
            lemma_table_find_first(p, t@, at as int);
        }
        return Some(table[at].0);
    }
    proof {
        lemma_not_found(texts(values@), t@, vpos as int);
        assert forall|j: int| 0 <= j < p.len() implies (#[trigger] p[j]).1 != t@ by {
            if j < keys@.len() {
                assert(kv[j] == texts(keys@)[j]);
            } else {
                assert(kv[j] == texts(values@)[j - keys@.len()]);
            }
        }
        lemma_table_find_none(p, t@);
    }
    None
}

/// The word a value is stored as, with a text looked up in the UTF-8 table.
pub open spec fn value_word(v: ValueView, utf8: Seq<(i32, Seq<char>)>) -> i32 {
    match v {
        ValueView::Node(x) => x,
        ValueView::Text(t) => table_find(utf8, t).unwrap(),
        ValueView::Float(bits) => bits,
        ValueView::Int(x) => x,
        ValueView::Bool(b) => if b { 1i32 } else { 0i32 },
    }
}

/// The stored form of a node's tags.
pub open spec fn encode_tags(es: Seq<(Seq<char>, ValueView)>, utf8: Seq<(i32, Seq<char>)>) -> Seq<TagData> {
    Seq::new(
        es.len(),
        |k: int|
            TagData {
                key_offset: table_find(utf8, es[k].0).unwrap(),
                type_id: value_type_id(es[k].1),
                value: value_word(es[k].1, utf8),
            },
    )
}

/// The type id the tags of a node are stored with.
pub open spec fn entries_type_id(es: Seq<(Seq<char>, ValueView)>) -> u16 {
    spec_tag_type_id(Seq::new(es.len(), |k: int| TagData { key_offset: 0, type_id: value_type_id(es[k].1), value: 0 }))
}

/// A node is stored with a version-2 record: it has no type, no text and
/// no tags.
pub open spec fn is_v2(n: FlatView) -> bool {
    n.data.node_type.len() == 0 && n.data.text.len() == 0 && n.data.tags.len() == 0
}

/// A node is stored with a version-1 record: it has no type and no text,
/// but tags.
pub open spec fn is_v1(n: FlatView) -> bool {
    n.data.node_type.len() == 0 && n.data.text.len() == 0 && n.data.tags.len() > 0
}

/// The bytes the tags take: a key and a value each, and the type too
/// where the tags do not share one.
pub open spec fn tags_size(es: Seq<(Seq<char>, ValueView)>) -> int {
    es.len() * (if entries_type_id(es) == 1 { 12int } else { 8int })
}

/// The bytes a node's variable record takes.
pub open spec fn node_b_size(n: FlatView) -> int {
    if is_v2(n) {
        4 * (if n.child_count > 0 { n.child_count as int } else { 0 })
    } else if is_v1(n) {
        tags_size(n.data.tags)
    } else {
        16 + tags_size(n.data.tags)
    }
}

/// The bytes the variable records of a list take.
pub open spec fn total_b_size(l: Seq<FlatView>) -> int
    decreases l.len(),
{
    if l.len() == 0 {
        0
    } else {
        total_b_size(l.drop_last()) + node_b_size(l.last())
    }
}

/// The variable record a node is stored with.
pub open spec fn encode_b(n: FlatView, utf8: Seq<(i32, Seq<char>)>, utf16: Seq<(i32, Seq<char>)>) -> NodeDataBView {
    let tags = encode_tags(n.data.tags, utf8);
    if is_v2(n) {
        NodeDataBView::Version2 {
            child_indexes: Seq::new(
                (if n.child_count > 0 { n.child_count as int } else { 0 }) as nat,
                |k: int| (n.children_start_index + k) as i32,
            ),
        }
    } else if is_v1(n) {
        NodeDataBView::Version1 { tags }
    } else {
        NodeDataBView::Version3 {
            node_type_offset: table_find(utf8, n.data.node_type).unwrap(),
            children_start_index: n.children_start_index,
            child_count: n.child_count,
            text_offset: table_find(utf16, n.data.text).unwrap(),
            tags,
        }
    }
}

/// The fixed record a node is stored with, its variable record at
/// `b_offset` of the variable part.
pub open spec fn encode_a(n: FlatView, b_offset: int) -> NodeDataA {
    if is_v2(n) {
        NodeDataA {
            node_version: 2,
            tags_type_id: 2,
            tag_count: n.child_count as u32,
            b_offset: n.children_start_index,
            parent_index: n.parent_index,
        }
    } else {
        NodeDataA {
            node_version: if is_v1(n) { 1u16 } else { 3u16 },
            tags_type_id: entries_type_id(n.data.tags),
            tag_count: n.data.tags.len() as u32,
            b_offset: b_offset as i32,
            parent_index: n.parent_index,
        }
    }
}

/// The sorted keys of a list.
pub open spec fn sorted_keys(l: Seq<FlatView>) -> Seq<Seq<char>> {
    sorted_of(key_strings(l))
}

/// The sorted text values of a list.
pub open spec fn sorted_values(l: Seq<FlatView>) -> Seq<Seq<char>> {
    sorted_of(value_strings(l))
}

/// The sorted inner texts of a list.
pub open spec fn sorted_texts(l: Seq<FlatView>) -> Seq<Seq<char>> {
    sorted_of(text_strings(l))
}

/// Where the UTF-8 table of a list ends: its keys, then its text values.
pub open spec fn utf8_end(l: Seq<FlatView>) -> int {
    total_span(sorted_keys(l), false) + total_span(sorted_values(l), false)
}

/// The UTF-8 table of a list: its keys, then its text values.
pub open spec fn utf8_table(l: Seq<FlatView>) -> Seq<(i32, Seq<char>)> {
    laid_out(sorted_keys(l), 0, false) + laid_out(sorted_values(l), total_span(sorted_keys(l), false), false)
}

/// The UTF-16 table of a list: its inner texts, after the UTF-8 table.
pub open spec fn utf16_table(l: Seq<FlatView>) -> Seq<(i32, Seq<char>)> {
    laid_out(sorted_texts(l), utf8_end(l), true)
}

/// The offsets of the key part of a list's UTF-8 table.
pub open spec fn key_offsets(l: Seq<FlatView>) -> Seq<i32> {
    laid_out(sorted_keys(l), 0, false).map_values(|e: (i32, Seq<char>)| e.0)
}

/// The variable records of a list.
pub open spec fn encoded_bs(l: Seq<FlatView>) -> Seq<NodeDataBView> {
    Seq::new(l.len(), |i: int| encode_b(l[i], utf8_table(l), utf16_table(l)))
}

/// The fixed records of a list.
pub open spec fn encoded_as(l: Seq<FlatView>) -> Seq<NodeDataA> {
    Seq::new(l.len(), |i: int| encode_a(l[i], total_b_size(l.take(i))))
}

/// A file built from the list keeps every offset within `i32`.
pub open spec fn file_fits(l: Seq<FlatView>) -> bool {
    &&& utf8_end(l) + total_span(sorted_texts(l), true) <= i32::MAX
    &&& total_b_size(l) <= i32::MAX
}

/// Every node stored with a version-2 record can list its children by
/// index within `i32`.
pub open spec fn child_ranges_fit(l: Seq<FlatView>) -> bool {
    forall|i: int| 0 <= i < l.len() && is_v2(#[trigger] l[i]) ==> i32::MIN <= l[i].children_start_index + l[i].child_count <= i32::MAX
}

pub proof fn lemma_table_find_some(p: Seq<(i32, Seq<char>)>, t: Seq<char>, j: int)
    requires
        0 <= j < p.len(),
        p[j].1 == t,
    ensures
        table_find(p, t) is Some,
    decreases j,
{
    if j > 0 && p[0].1 != t {
        assert(p.drop_first()[j - 1] == p[j]);
        lemma_table_find_some(p.drop_first(), t, j - 1);
    }
}

proof fn lemma_entry_keys_has(es: Seq<(Seq<char>, ValueView)>, k: int)
    requires
        0 <= k < es.len(),
    ensures
        entry_keys(es).contains(es[k].0),
    decreases es.len(),
{
    if k < es.len() - 1 {
        assert(es.drop_last()[k] == es[k]);
        lemma_entry_keys_has(es.drop_last(), k);
    }
}

proof fn lemma_entry_texts_has(es: Seq<(Seq<char>, ValueView)>, k: int, t: Seq<char>)
    requires
        0 <= k < es.len(),
        es[k].1 == ValueView::Text(t),
    ensures
        entry_texts(es).contains(t),
    decreases es.len(),
{
    if k < es.len() - 1 {
        assert(es.drop_last()[k] == es[k]);
        lemma_entry_texts_has(es.drop_last(), k, t);
    }
}

/// Each node's strings are among the list's sets.
pub proof fn lemma_node_strings(l: Seq<FlatView>, i: int)
    requires
        0 <= i < l.len(),
    ensures
        key_strings(l).contains(l[i].data.node_type),
        entry_keys(l[i].data.tags).subset_of(key_strings(l)),
        entry_texts(l[i].data.tags).subset_of(value_strings(l)),
        text_strings(l).contains(l[i].data.text),
    decreases l.len(),
{
    if i < l.len() - 1 {
        assert(l.drop_last()[i] == l[i]);
        lemma_node_strings(l.drop_last(), i);
    }
}

/// The first offset of a text known to be in the table.
fn find_known(keys: &Vec<String>, values: &Vec<String>, table: &Vec<(i32, String)>, t: &str) -> (r: i32)
    requires
        strictly_sorted(texts(keys@)),
        strictly_sorted(texts(values@)),
        table@.len() == keys@.len() + values@.len(),
        forall|k: int| 0 <= k < table@.len() ==> (#[trigger] pool_view(table@)[k]).1 == (texts(keys@) + texts(values@))[k],
        (texts(keys@) + texts(values@)).contains(t@),
    ensures
        table_find(pool_view(table@), t@) == Some(r),
{
    proof {
        let j = choose|j: int| 0 <= j < (texts(keys@) + texts(values@)).len() && (texts(keys@) + texts(values@))[j] == t@;
        lemma_table_find_some(pool_view(table@), t@, j);
    }
    find_offset(keys, values, table, t).unwrap()
}

/// The sets of a list, kept sorted, and its tables laid out from them.
pub struct Tables {
    pub keys: Vec<String>,
    pub values: Vec<String>,
    pub inner: Vec<String>,
    pub no_values: Vec<String>,
    pub utf8: Vec<(i32, String)>,
    pub utf16: Vec<(i32, String)>,
}

impl Tables {
    /// The tables hold the sorted sets laid out as the list's tables.
    pub open spec fn wf_for(&self, l: Seq<FlatView>) -> bool {
        &&& strictly_sorted(texts(self.keys@))
        &&& strictly_sorted(texts(self.values@))
        &&& strictly_sorted(texts(self.inner@))
        &&& self.no_values@.len() == 0
        &&& texts(self.keys@) == sorted_keys(l)
        &&& texts(self.values@) == sorted_values(l)
        &&& texts(self.inner@) == sorted_texts(l)
        &&& texts(self.keys@).to_set() == key_strings(l)
        &&& texts(self.values@).to_set() == value_strings(l)
        &&& texts(self.inner@).to_set() == text_strings(l)
        &&& pool_view(self.utf8@) == utf8_table(l)
        &&& pool_view(self.utf16@) == utf16_table(l)
        &&& self.utf8@.len() == self.keys@.len() + self.values@.len()
        &&& self.utf16@.len() == self.inner@.len()
        &&& forall|k: int| 0 <= k < self.utf8@.len() ==> (#[trigger] pool_view(self.utf8@)[k]).1 == (texts(self.keys@) + texts(self.values@))[k]
        &&& forall|k: int| 0 <= k < self.utf16@.len() ==> (#[trigger] pool_view(self.utf16@)[k]).1 == (texts(self.inner@) + texts(self.no_values@))[k]
    }
}

/// The word a value is stored as.
fn value_word_of(v: &Value, t: &Tables, Ghost(l): Ghost<Seq<FlatView>>) -> (r: i32)
    requires
        t.wf_for(l),
        v@ is Text ==> value_strings(l).contains(v@->Text_0),
    ensures
        r == value_word(v@, utf8_table(l)),
{
    match v {
        Value::Node(x) => *x,
        Value::Text(s) => {
            proof {
                assert(texts(t.values@).contains(s@));
                let j = choose|j: int| 0 <= j < texts(t.values@).len() && texts(t.values@)[j] == s@;
                assert((texts(t.keys@) + texts(t.values@))[t.keys@.len() + j] == s@);
            }
            find_known(&t.keys, &t.values, &t.utf8, s.as_str())
        },
        Value::Float(bits) => *bits,
        Value::Int(x) => *x,
        Value::Bool(b) => if *b { 1 } else { 0 },
    }
}

/// The stored form of a node's tags.
fn encode_tags_of(m: &indexmap::IndexMap<String, Value>, t: &Tables, Ghost(l): Ghost<Seq<FlatView>>) -> (r: Vec<TagData>)
    requires
        t.wf_for(l),
        entry_keys(tag_entries(*m)).subset_of(key_strings(l)),
        entry_texts(tag_entries(*m)).subset_of(value_strings(l)),
    ensures
        r@ == encode_tags(tag_entries(*m), utf8_table(l)),
{
    let ghost es = tag_entries(*m);
    let n = tags_len(m);
    let mut out: Vec<TagData> = Vec::new();
    let mut k: usize = 0;
    while k < n
        invariant
            t.wf_for(l),
            es == tag_entries(*m),
            n == es.len(),
            entry_keys(es).subset_of(key_strings(l)),
            entry_texts(es).subset_of(value_strings(l)),
            k <= n,
            out@ == encode_tags(es.take(k as int), utf8_table(l)),
        decreases n - k,
    {
        let (key, value) = tags_get_index(m, k);
        proof {
            lemma_entry_keys_has(es, k as int);
            assert(texts(t.keys@).contains(key@));
            let j = choose|j: int| 0 <= j < texts(t.keys@).len() && texts(t.keys@)[j] == key@;
            assert((texts(t.keys@) + texts(t.values@))[j] == key@);
            if let ValueView::Text(x) = value@ {
                lemma_entry_texts_has(es, k as int, x);
            }
        }
        let key_offset = find_known(&t.keys, &t.values, &t.utf8, key.as_str());
        let word = value_word_of(value, t, Ghost(l));
        let tag = TagData { key_offset, type_id: value.type_id(), value: word };
        out.push(tag);
        proof {
            assert(out@ =~= encode_tags(es.take(k + 1), utf8_table(l)));
        }
        k = k + 1;
    }
    proof {
        assert(es.take(n as int) =~= es);
    }
    out
}

proof fn lemma_type_id_of_encoded(es: Seq<(Seq<char>, ValueView)>, utf8: Seq<(i32, Seq<char>)>)
    ensures
        spec_tag_type_id(encode_tags(es, utf8)) == entries_type_id(es),
{
    let a = encode_tags(es, utf8);
    let b = Seq::new(es.len(), |k: int| TagData { key_offset: 0, type_id: value_type_id(es[k].1), value: 0 });
    assert(forall|i: int| 0 <= i < es.len() ==> #[trigger] a[i].type_id == b[i].type_id);
    if es.len() > 0 {
        if forall|i: int| 0 <= i < a.len() ==> #[trigger] a[i].type_id == a[0].type_id {
            assert forall|i: int| 0 <= i < b.len() implies #[trigger] b[i].type_id == b[0].type_id by {
                assert(a[i].type_id == a[0].type_id);
            }
        }
        if forall|i: int| 0 <= i < b.len() ==> #[trigger] b[i].type_id == b[0].type_id {
            assert forall|i: int| 0 <= i < a.len() implies #[trigger] a[i].type_id == a[0].type_id by {
                assert(b[i].type_id == b[0].type_id);
            }
        }
    }
}

/// The variable record a node is stored with.
fn encode_node_b(n: &NodeDataWithPointers, t: &Tables, Ghost(l): Ghost<Seq<FlatView>>) -> (r: NodeDataB)
    requires
        t.wf_for(l),
        key_strings(l).contains(n@.data.node_type),
        entry_keys(n@.data.tags).subset_of(key_strings(l)),
        entry_texts(n@.data.tags).subset_of(value_strings(l)),
        text_strings(l).contains(n@.data.text),
        is_v2(n@) ==> i32::MIN <= n.children_start_index + n.child_count <= i32::MAX,
    ensures
        r@ == encode_b(n@, utf8_table(l), utf16_table(l)),
{
    let no_type = n.data.node_type.as_str().is_empty();
    let no_text = n.data.text.as_str().is_empty();
    let tag_count = tags_len(&n.data.tags);
    if no_type && no_text && tag_count == 0 {
        let start = n.children_start_index;
        let count = n.child_count;
        let mut child_indexes: Vec<i32> = Vec::new();
        let mut k: i32 = 0;
        while k < count
            invariant
                0 <= k,
                count > 0 ==> k <= count,
                count <= 0 ==> k == 0,
                start == n.children_start_index,
                count == n.child_count,
                i32::MIN <= start + count <= i32::MAX,
                child_indexes@ == Seq::new(k as nat, |j: int| (start + j) as i32),
            decreases count - k,
        {
            child_indexes.push(start + k);
            proof {
                assert(child_indexes@ =~= Seq::new((k + 1) as nat, |j: int| (start + j) as i32));
            }
            k = k + 1;
        }
        let r = NodeDataB::Version2 { child_indexes };
        proof {
            assert(r@ =~= encode_b(n@, utf8_table(l), utf16_table(l)));
        }
        r
    } else {
        let tags = TagDatas { tags: encode_tags_of(&n.data.tags, t, Ghost(l)) };
        if no_type && no_text {
            NodeDataB::Version1 { tags }
        } else {
            proof {
                assert(texts(t.keys@).contains(n@.data.node_type));
                let j = choose|j: int| 0 <= j < texts(t.keys@).len() && texts(t.keys@)[j] == n@.data.node_type;
                assert((texts(t.keys@) + texts(t.values@))[j] == n@.data.node_type);
                assert(texts(t.inner@).contains(n@.data.text));
                let m = choose|m: int| 0 <= m < texts(t.inner@).len() && texts(t.inner@)[m] == n@.data.text;
                assert((texts(t.inner@) + texts(t.no_values@))[m] == n@.data.text);
                assert(texts(t.no_values@) =~= Seq::<Seq<char>>::empty());
                assert(texts(t.inner@) + texts(t.no_values@) =~= texts(t.inner@));
                assert(strictly_sorted(texts(t.no_values@)));
            }
            let node_type_offset = find_known(&t.keys, &t.values, &t.utf8, n.data.node_type.as_str());
            let text_offset = find_known(&t.inner, &t.no_values, &t.utf16, n.data.text.as_str());
            NodeDataB::Version3 {
                node_type_offset,
                children_start_index: n.children_start_index,
                child_count: n.child_count,
                text_offset,
                tags,
            }
        }
    }
}

/// The bytes a node's variable record takes, where at most `i32::MAX`.
fn node_b_size_of(n: &NodeDataWithPointers, b: &NodeDataB, Ghost(l): Ghost<Seq<FlatView>>) -> (r: Option<i64>)
    requires
        b@ == encode_b(n@, utf8_table(l), utf16_table(l)),
    ensures
        match r {
            Some(x) => x == node_b_size(n@) && 0 <= x <= i32::MAX,
            None => node_b_size(n@) > i32::MAX,
        },
{
    match b {
        NodeDataB::Version2 { child_indexes } => {
            let len = child_indexes.len();
            if len > 0x1fff_ffff {
                None
            } else {
                Some(4 * len as i64)
            }
        },
        NodeDataB::Version1 { tags } => {
            proof {
                lemma_type_id_of_encoded(n@.data.tags, utf8_table(l));
            }
            let len = tags.tags.len();
            let width: i64 = if tags.tag_type_id() == 1 { 12 } else { 8 };
            if len > 0x0fff_ffff {
                None
            } else {
                let x = len as i64 * width;
                if x > 0x7fff_ffff {
                    None
                } else {
                    Some(x)
                }
            }
        },
        NodeDataB::Version3 { tags, .. } => {
            proof {
                lemma_type_id_of_encoded(n@.data.tags, utf8_table(l));
            }
            let len = tags.tags.len();
            let width: i64 = if tags.tag_type_id() == 1 { 12 } else { 8 };
            if len > 0x0fff_ffff {
                None
            } else {
                let x = 16 + len as i64 * width;
                if x > 0x7fff_ffff {
                    None
                } else {
                    Some(x)
                }
            }
        },
    }
}

/// The tables of a list, where their room fits in `i32`.
fn build_tables(list: &Vec<NodeDataWithPointers>) -> (r: Option<Tables>)
    ensures
        all_keys_unique(flat_view(list@)),
        match r {
            Some(t) => t.wf_for(flat_view(list@)) && utf8_end(flat_view(list@)) + total_span(sorted_texts(flat_view(list@)), true) <= i32::MAX,
            None => utf8_end(flat_view(list@)) + total_span(sorted_texts(flat_view(list@)), true) > i32::MAX,
        },
{
    let ghost l = flat_view(list@);
    let (keys, values, inner) = collect_strings(list);
    proof {
        lemma_sorted_of(texts(keys@));
        lemma_sorted_of(texts(values@));
        lemma_sorted_of(texts(inner@));
        lemma_total_span_nonneg(texts(keys@), false);
        lemma_total_span_nonneg(texts(values@), false);
        lemma_total_span_nonneg(texts(inner@), true);
    }
    let mut utf8: Vec<(i32, String)> = Vec::new();
    let end_keys = match lay_out(&keys, 0, false, &mut utf8) {
        Some(e) => e,
        None => {
            return None;
        },
    };
    let ghost key_part = pool_view(utf8@);
    let end_values = match lay_out(&values, end_keys, false, &mut utf8) {
        Some(e) => e,
        None => {
            return None;
        },
    };
    let mut utf16: Vec<(i32, String)> = Vec::new();
    let end = match lay_out(&inner, end_values, true, &mut utf16) {
        Some(e) => e,
        None => {
            return None;
        },
    };
    let no_values: Vec<String> = Vec::new();
    let t = Tables { keys, values, inner, no_values, utf8, utf16 };
    proof {
        assert(pool_view(Seq::<(i32, String)>::empty()) =~= Seq::<(i32, Seq<char>)>::empty());
        assert(pool_view(t.utf8@) =~= utf8_table(l));
        assert(pool_view(t.utf16@) =~= utf16_table(l));
        assert forall|k: int| 0 <= k < t.utf8@.len() implies (#[trigger] pool_view(t.utf8@)[k]).1 == (texts(t.keys@) + texts(t.values@))[k] by {
            if k < t.keys@.len() {
            } else {
            }
        }
        assert(texts(t.no_values@) =~= Seq::<Seq<char>>::empty());
        assert(texts(t.inner@) + texts(t.no_values@) =~= texts(t.inner@));
    }
    Some(t)
}

proof fn lemma_total_b_size_prefix(l: Seq<FlatView>, k: int)
    requires
        0 <= k <= l.len(),
    ensures
        0 <= total_b_size(l.take(k)) <= total_b_size(l),
    decreases l.len() - k,
{
    lemma_total_b_size_nonneg(l.take(k));
    if k < l.len() {
        assert(l.take(k + 1).drop_last() =~= l.take(k));
        lemma_total_b_size_prefix(l, k + 1);
    } else {
        assert(l.take(k) =~= l);
    }
}

proof fn lemma_total_b_size_nonneg(l: Seq<FlatView>)
    ensures
        total_b_size(l) >= 0,
    decreases l.len(),
{
    if l.len() > 0 {
        lemma_total_b_size_nonneg(l.drop_last());
    }
}

/// The fixed record of a node whose variable record is `b`, placed at
/// `b_offset`.
fn encode_node_a(n: &NodeDataWithPointers, b: &NodeDataB, b_offset: i32, Ghost(l): Ghost<Seq<FlatView>>) -> (r: NodeDataA)
    requires
        b@ == encode_b(n@, utf8_table(l), utf16_table(l)),
        n@.data.tags.len() <= 0x0fff_ffff,
    ensures
        r == encode_a(n@, b_offset as int),
{
    match b {
        NodeDataB::Version2 { .. } => NodeDataA {
            node_version: 2,
            tags_type_id: 2,
            tag_count: #[verifier::truncate] (n.child_count as u32),
            b_offset: n.children_start_index,
            parent_index: n.parent_index,
        },
        NodeDataB::Version1 { tags } => {
            proof {
                lemma_type_id_of_encoded(n@.data.tags, utf8_table(l));
            }
            NodeDataA {
                node_version: 1,
                tags_type_id: tags.tag_type_id(),
                tag_count: tags.tags.len() as u32,
                b_offset,
                parent_index: n.parent_index,
            }
        },
        NodeDataB::Version3 { tags, .. } => {
            proof {
                lemma_type_id_of_encoded(n@.data.tags, utf8_table(l));
            }
            NodeDataA {
                node_version: 3,
                tags_type_id: tags.tag_type_id(),
                tag_count: tags.tags.len() as u32,
                b_offset,
                parent_index: n.parent_index,
            }
        },
    }
}

/// The records and tables of a `jxb` file are those built from the list.
pub open spec fn jxb_encodes(j: Jxb, l: Seq<FlatView>) -> bool {
    &&& bs_view(j.node_data_bs@) == encoded_bs(l)
    &&& j.node_data_as@ == encoded_as(l)
    &&& j.key_string_offsets@ == key_offsets(l)
    &&& pool_view(j.string_pool.utf8_strings@) == utf8_table(l)
    &&& j.string_pool.utf16_strings matches Some(v) && pool_view(v@) == utf16_table(l)
}

pub proof fn lemma_tables_increasing(l: Seq<FlatView>)
    requires
        utf8_end(l) + total_span(sorted_texts(l), true) <= i32::MAX,
    ensures
        offsets_increasing(utf8_table(l)),
        offsets_increasing(utf16_table(l)),
{
    let ks = sorted_keys(l);
    let vs = sorted_values(l);
    lemma_total_span_nonneg(ks, false);
    lemma_total_span_nonneg(vs, false);
    lemma_total_span_nonneg(sorted_texts(l), true);
    lemma_laid_out_offsets(ks, 0, false);
    lemma_laid_out_offsets(vs, total_span(ks, false), false);
    lemma_laid_out_offsets(sorted_texts(l), utf8_end(l), true);
    lemma_offsets_concat(laid_out(ks, 0, false), laid_out(vs, total_span(ks, false), false), total_span(ks, false));
}

impl NodeDataWithPointers {
    /// The `jxb` records and string tables of a flat list of nodes: the
    /// node types and tag keys sorted, then the text values sorted, in the
    /// UTF-8 table; the inner texts sorted in the UTF-16 table after it; a
    /// version-2 record for a node with no type, text or tags, version 1
    /// for one with tags only, version 3 for the others. Fails when an
    /// offset would not fit in an `i32`.
    pub fn into_jxb(node_list: Vec<NodeDataWithPointers>) -> (r: Result<Jxb, FormatError>)
        requires
            node_list@.len() <= i32::MAX,
            child_ranges_fit(flat_view(node_list@)),
        ensures
            all_keys_unique(flat_view(node_list@)),
            match r {
                Ok(j) => file_fits(flat_view(node_list@)) && j.wf() && jxb_encodes(j, flat_view(node_list@))
                    && j.node_data_as@.len() == node_list@.len() && j.node_data_bs@.len() == node_list@.len()
                    && forall|i: int| 0 <= i < node_list@.len() ==> {
                        &&& (#[trigger] j.node_data_as@[i]).parent_index == node_list@[i].parent_index
                        &&& spec_node_data(j.node_data_bs@[i]@, j.string_pool.utf8_view(), j.string_pool.text_view())
                            == Ok::<NodeDataView, Seq<char>>(node_list@[i].data@)
                    },
                Err(e) => !file_fits(flat_view(node_list@)) && e is TooLarge,
            },
    {
        let ghost l = flat_view(node_list@);
        let tables = match build_tables(&node_list) {
            Some(t) => t,
            None => {
                return Err(FormatError::TooLarge);
            },
        };
        let mut node_data_as: Vec<NodeDataA> = Vec::new();
        let mut node_data_bs: Vec<NodeDataB> = Vec::new();
        let mut b_offset: i64 = 0;
        let mut i: usize = 0;
        proof {
            assert(l.take(0) =~= Seq::<FlatView>::empty());
            assert(bs_view(node_data_bs@) =~= Seq::<NodeDataBView>::empty());
        }
        while i < node_list.len()
            invariant
                l == flat_view(node_list@),
                l.len() <= i32::MAX,
                child_ranges_fit(l),
                all_keys_unique(l),
                tables.wf_for(l),
                i <= l.len(),
                b_offset == total_b_size(l.take(i as int)),
                b_offset <= i32::MAX,
                node_data_as@.len() == i,
                node_data_bs@.len() == i,
                forall|k: int| 0 <= k < i ==> #[trigger] bs_view(node_data_bs@)[k] == encode_b(l[k], utf8_table(l), utf16_table(l)),
                forall|k: int| 0 <= k < i ==> #[trigger] node_data_as@[k] == encode_a(l[k], total_b_size(l.take(k))),
            decreases l.len() - i,
        {
            let n = &node_list[i];
            proof {
                assert(l[i as int] == n@);
                lemma_node_strings(l, i as int);
                assert(l.take(i + 1).drop_last() =~= l.take(i as int));
                assert(l.take(i + 1).last() == n@);
            }
            let b = encode_node_b(n, &tables, Ghost(l));
            let size = match node_b_size_of(n, &b, Ghost(l)) {
                Some(x) => x,
                None => {
                    proof {
                        lemma_total_b_size_nonneg(l.take(i as int));
                        lemma_total_b_size_prefix(l, i + 1);
                    }
                    return Err(FormatError::TooLarge);
                },
            };
            if b_offset + size > 0x7fff_ffff {
                proof {
                    lemma_total_b_size_prefix(l, i + 1);
                }
                return Err(FormatError::TooLarge);
            }
            proof {
                if !is_v2(n@) {
                    assert(n@.data.tags.len() <= 0x0fff_ffff) by {
                        lemma_type_id_of_encoded(n@.data.tags, utf8_table(l));
                    }
                }
            }
            let a = encode_node_a(n, &b, b_offset as i32, Ghost(l));
            let ghost before_bs = node_data_bs@;
            node_data_as.push(a);
            node_data_bs.push(b);
            proof {
                assert forall|k: int| 0 <= k < i + 1 implies #[trigger] bs_view(node_data_bs@)[k] == encode_b(l[k], utf8_table(l), utf16_table(l)) by {
                    if k < i {
                        assert(bs_view(node_data_bs@)[k] == node_data_bs@[k]@);
                        assert(bs_view(before_bs)[k] == before_bs[k]@);
                    }
                }
            }
            b_offset = b_offset + size;
            i = i + 1;
        }
        let mut key_string_offsets: Vec<i32> = Vec::new();
        let mut k: usize = 0;
        while k < tables.keys.len()
            invariant
                tables.wf_for(l),
                k <= tables.keys@.len(),
                key_string_offsets@ == key_offsets(l).take(k as int),
            decreases tables.keys@.len() - k,
        {
            proof {
                assert(pool_view(tables.utf8@)[k as int] == utf8_table(l)[k as int]);
                assert(utf8_table(l)[k as int] == laid_out(sorted_keys(l), 0, false)[k as int]);
            }
            key_string_offsets.push(tables.utf8[k].0);
            proof {
                assert(key_string_offsets@ =~= key_offsets(l).take(k + 1));
            }
            k = k + 1;
        }
        proof {
            assert(key_offsets(l).take(k as int) =~= key_offsets(l));
            assert(l.take(i as int) =~= l);
            lemma_tables_increasing(l);
        }
        let Tables { utf8, utf16, .. } = tables;
        let j = Jxb {
            node_data_as,
            node_data_bs,
            key_string_offsets,
            string_pool: StringPool { utf8_strings: utf8, utf16_strings: Some(utf16) },
        };
        proof {
            assert(bs_view(j.node_data_bs@) =~= encoded_bs(l));
            assert(j.node_data_as@ =~= encoded_as(l));
            assert forall|x: int| 0 <= x < j.node_data_bs@.len() && (#[trigger] j.node_data_bs@[x])@ is Version2
                implies j.node_data_bs@[x]@->child_indexes.len() <= i32::MAX by {
                assert(bs_view(j.node_data_bs@)[x] == j.node_data_bs@[x]@);
            }
            assert forall|x: int| 0 <= x < node_list@.len() implies {
                &&& (#[trigger] j.node_data_as@[x]).parent_index == node_list@[x].parent_index
                &&& spec_node_data(j.node_data_bs@[x]@, j.string_pool.utf8_view(), j.string_pool.text_view())
                    == Ok::<NodeDataView, Seq<char>>(node_list@[x].data@)
            } by {
                assert(l[x] == node_list@[x]@);
                assert(bs_view(j.node_data_bs@)[x] == j.node_data_bs@[x]@);
                lemma_node_data_reads_back(l, x, total_b_size(l.take(x)));
            }
        }
        Ok(j)
    }
}

proof fn sorted_with_keys(q: Seq<Seq<char>>, es: Seq<(Seq<char>, ValueView)>) -> (r: Seq<Seq<char>>)
    requires
        strictly_sorted(q),
    ensures
        strictly_sorted(r),
        r.to_set() == q.to_set().union(entry_keys(es)),
    decreases es.len(),
{
    if es.len() == 0 {
        assert(q.to_set().union(entry_keys(es)) =~= q.to_set());
        q
    } else {
        let r1 = sorted_with_keys(q, es.drop_last());
        lemma_sorted_insert(r1, es.last().0);
        let r = sorted_insert(r1, es.last().0);
        assert(r.to_set() =~= q.to_set().union(entry_keys(es)));
        r
    }
}

proof fn sorted_with_texts(q: Seq<Seq<char>>, es: Seq<(Seq<char>, ValueView)>) -> (r: Seq<Seq<char>>)
    requires
        strictly_sorted(q),
    ensures
        strictly_sorted(r),
        r.to_set() == q.to_set().union(entry_texts(es)),
    decreases es.len(),
{
    if es.len() == 0 {
        assert(q.to_set().union(entry_texts(es)) =~= q.to_set());
        q
    } else {
        let r1 = sorted_with_texts(q, es.drop_last());
        match es.last().1 {
            ValueView::Text(t) => {
                lemma_sorted_insert(r1, t);
                let r = sorted_insert(r1, t);
                assert(r.to_set() =~= q.to_set().union(entry_texts(es)));
                r
            },
            _ => {
                assert(r1.to_set() =~= q.to_set().union(entry_texts(es)));
                r1
            },
        }
    }
}

proof fn sorted_key_strings(l: Seq<FlatView>) -> (r: Seq<Seq<char>>)
    ensures
        strictly_sorted(r),
        r.to_set() == key_strings(l),
    decreases l.len(),
{
    if l.len() == 0 {
        let r = Seq::<Seq<char>>::empty();
        assert(r.to_set() =~= Set::<Seq<char>>::empty());
        r
    } else {
        let r0 = sorted_key_strings(l.drop_last());
        lemma_sorted_insert(r0, l.last().data.node_type);
        sorted_with_keys(sorted_insert(r0, l.last().data.node_type), l.last().data.tags)
    }
}

proof fn sorted_value_strings(l: Seq<FlatView>) -> (r: Seq<Seq<char>>)
    ensures
        strictly_sorted(r),
        r.to_set() == value_strings(l),
    decreases l.len(),
{
    if l.len() == 0 {
        let r = Seq::<Seq<char>>::empty();
        assert(r.to_set() =~= Set::<Seq<char>>::empty());
        r
    } else {
        let r0 = sorted_value_strings(l.drop_last());
        sorted_with_texts(r0, l.last().data.tags)
    }
}

proof fn sorted_text_strings(l: Seq<FlatView>) -> (r: Seq<Seq<char>>)
    ensures
        strictly_sorted(r),
        r.to_set() == text_strings(l),
    decreases l.len(),
{
    if l.len() == 0 {
        let r = Seq::<Seq<char>>::empty();
        assert(r.to_set() =~= Set::<Seq<char>>::empty());
        r
    } else {
        let r0 = sorted_text_strings(l.drop_last());
        lemma_sorted_insert(r0, l.last().data.text);
        sorted_insert(r0, l.last().data.text)
    }
}

/// The sorted sequences of a list's sets enumerate them.
pub proof fn lemma_sorted_sets(l: Seq<FlatView>)
    ensures
        strictly_sorted(sorted_keys(l)),
        sorted_keys(l).to_set() == key_strings(l),
        strictly_sorted(sorted_values(l)),
        sorted_values(l).to_set() == value_strings(l),
        strictly_sorted(sorted_texts(l)),
        sorted_texts(l).to_set() == text_strings(l),
{
    let ks = sorted_key_strings(l);
    let vs = sorted_value_strings(l);
    let ts = sorted_text_strings(l);
    lemma_sorted_of_set(ks, key_strings(l));
    lemma_sorted_of_set(vs, value_strings(l));
    lemma_sorted_of_set(ts, text_strings(l));
}

pub proof fn lemma_table_find_index(p: Seq<(i32, Seq<char>)>, t: Seq<char>) -> (k: int)
    requires
        table_find(p, t) is Some,
    ensures
        0 <= k < p.len(),
        p[k].0 == table_find(p, t).unwrap(),
        p[k].1 == t,
    decreases p.len(),
{
    if p[0].1 == t {
        0
    } else {
        let k = lemma_table_find_index(p.drop_first(), t);
        assert(p.drop_first()[k] == p[k + 1]);
        k + 1
    }
}

/// Looking up the first offset of a text in a sound table, then the text
/// at that offset, gives the text back.
proof fn lemma_find_then_get(p: Seq<(i32, Seq<char>)>, t: Seq<char>, j: int)
    requires
        offsets_increasing(p),
        forall|k: int| 0 <= k < p.len() ==> (#[trigger] p[k]).0 >= 0,
        0 <= j < p.len(),
        p[j].1 == t,
    ensures
        table_find(p, t) is Some,
        spec_get_string(table_find(p, t).unwrap(), p) == Some(t),
{
    lemma_table_find_some(p, t, j);
    let k = lemma_table_find_index(p, t);
    lemma_table_get_index(p, k);
    assert(p[k].0 >= 0);
}

/// The UTF-8 table of a list finds each of its keys and text values.
proof fn lemma_utf8_lookup(l: Seq<FlatView>, t: Seq<char>)
    requires
        utf8_end(l) + total_span(sorted_texts(l), true) <= i32::MAX,
        key_strings(l).contains(t) || value_strings(l).contains(t),
    ensures
        table_find(utf8_table(l), t) is Some,
        spec_get_string(table_find(utf8_table(l), t).unwrap(), utf8_table(l)) == Some(t),
{
    lemma_sorted_sets(l);
    lemma_tables_increasing(l);
    let ks = sorted_keys(l);
    let vs = sorted_values(l);
    let p = utf8_table(l);
    lemma_total_span_nonneg(ks, false);
    lemma_total_span_nonneg(vs, false);
    lemma_total_span_nonneg(sorted_texts(l), true);
    lemma_laid_out_offsets(ks, 0, false);
    lemma_laid_out_offsets(vs, total_span(ks, false), false);
    assert forall|k: int| 0 <= k < p.len() implies (#[trigger] p[k]).0 >= 0 by {
        if k < ks.len() {
            assert(p[k] == laid_out(ks, 0, false)[k]);
        } else {
            assert(p[k] == laid_out(vs, total_span(ks, false), false)[k - ks.len()]);
        }
    }
    if ks.to_set().contains(t) {
        let j = choose|j: int| 0 <= j < ks.len() && ks[j] == t;
        assert(p[j] == laid_out(ks, 0, false)[j]);
        lemma_find_then_get(p, t, j);
    } else {
        assert(vs.to_set().contains(t));
        let j = choose|j: int| 0 <= j < vs.len() && vs[j] == t;
        assert(p[ks.len() + j] == laid_out(vs, total_span(ks, false), false)[j]);
        lemma_find_then_get(p, t, ks.len() + j);
    }
}

/// The UTF-16 table of a list finds each of its inner texts.
proof fn lemma_utf16_lookup(l: Seq<FlatView>, t: Seq<char>)
    requires
        utf8_end(l) + total_span(sorted_texts(l), true) <= i32::MAX,
        text_strings(l).contains(t),
    ensures
        table_find(utf16_table(l), t) is Some,
        spec_get_string(table_find(utf16_table(l), t).unwrap(), utf16_table(l)) == Some(t),
{
    lemma_sorted_sets(l);
    lemma_tables_increasing(l);
    let ts = sorted_texts(l);
    let p = utf16_table(l);
    lemma_total_span_nonneg(sorted_keys(l), false);
    lemma_total_span_nonneg(sorted_values(l), false);
    lemma_total_span_nonneg(ts, true);
    lemma_laid_out_offsets(ts, utf8_end(l), true);
    let j = choose|j: int| 0 <= j < ts.len() && ts[j] == t;
    lemma_find_then_get(p, t, j);
}

/// No two tags have the same key.
pub open spec fn keys_unique(es: Seq<(Seq<char>, ValueView)>) -> bool {
    forall|i: int, j: int| 0 <= i < j < es.len() ==> (#[trigger] es[i]).0 != (#[trigger] es[j]).0
}

/// No node of a list has two tags with the same key.
pub open spec fn all_keys_unique(l: Seq<FlatView>) -> bool {
    forall|i: int| 0 <= i < l.len() ==> keys_unique(#[trigger] l[i].data.tags)
}

proof fn lemma_entry_index_none(es: Seq<(Seq<char>, ValueView)>, key: Seq<char>)
    requires
        forall|i: int| 0 <= i < es.len() ==> (#[trigger] es[i]).0 != key,
    ensures
        entry_index(es, key) is None,
    decreases es.len(),
{
    if es.len() > 0 {
        assert forall|i: int| 0 <= i < es.drop_last().len() implies (#[trigger] es.drop_last()[i]).0 != key by {
            assert(es.drop_last()[i] == es[i]);
        }
        lemma_entry_index_none(es.drop_last(), key);
    }
}

/// Reading back the stored tags of a node gives its entries.
proof fn lemma_tags_decode(l: Seq<FlatView>, es: Seq<(Seq<char>, ValueView)>)
    requires
        utf8_end(l) + total_span(sorted_texts(l), true) <= i32::MAX,
        keys_unique(es),
        entry_keys(es).subset_of(key_strings(l)),
        entry_texts(es).subset_of(value_strings(l)),
    ensures
        decode_tags(encode_tags(es, utf8_table(l)), utf8_table(l)) == Ok::<Seq<(Seq<char>, ValueView)>, Seq<char>>(es),
    decreases es.len(),
{
    let p = utf8_table(l);
    let enc = encode_tags(es, p);
    if es.len() == 0 {
        assert(enc =~= Seq::<TagData>::empty());
        assert(es =~= Seq::<(Seq<char>, ValueView)>::empty());
    } else {
        let front = es.drop_last();
        assert(enc.drop_last() =~= encode_tags(front, p));
        assert(keys_unique(front)) by {
            assert forall|i: int, j: int| 0 <= i < j < front.len() implies (#[trigger] front[i]).0 != (#[trigger] front[j]).0 by {
                assert(front[i] == es[i] && front[j] == es[j]);
            }
        }
        lemma_entry_keys_has(es, es.len() - 1);
        assert(entry_keys(front).subset_of(key_strings(l))) by {
            assert forall|x: Seq<char>| entry_keys(front).contains(x) implies key_strings(l).contains(x) by {
                assert(entry_keys(es).contains(x));
            }
        }
        assert(entry_texts(front).subset_of(value_strings(l))) by {
            assert forall|x: Seq<char>| entry_texts(front).contains(x) implies value_strings(l).contains(x) by {
                assert(entry_texts(es).contains(x));
            }
        }
        lemma_tags_decode(l, front);
        let last = es.last();
        assert(enc.last() == enc[es.len() - 1]);
        lemma_utf8_lookup(l, last.0);
        if let ValueView::Text(t) = last.1 {
            lemma_entry_texts_has(es, es.len() - 1, t);
            lemma_utf8_lookup(l, t);
        }
        assert(spec_value_new(enc.last(), p) == Ok::<ValueView, Seq<char>>(last.1));
        assert forall|i: int| 0 <= i < front.len() implies (#[trigger] front[i]).0 != last.0 by {
            assert(front[i] == es[i]);
        }
        lemma_entry_index_none(front, last.0);
        assert(entries_insert(front, last.0, last.1) =~= es);
    }
}

/// A node that its records give back unchanged: its child count is not
/// negative, a node without children points to `-1`, a node kept with a
/// version-1 record (no type, no text, but tags) has no children, since
/// that record keeps none, and its tag keys are distinct.
pub open spec fn reads_back(n: FlatView) -> bool {
    &&& n.child_count >= 0
    &&& n.child_count == 0 ==> n.children_start_index == -1
    &&& is_v1(n) ==> n.child_count == 0
    &&& keys_unique(n.data.tags)
}

/// The records built for any node of a list give its data back, wherever
/// its tag keys are distinct, and keep its parent.
pub proof fn lemma_node_data_reads_back(l: Seq<FlatView>, i: int, b_offset: int)
    requires
        file_fits(l),
        0 <= i < l.len(),
        keys_unique(l[i].data.tags),
    ensures
        spec_node_data(encode_b(l[i], utf8_table(l), utf16_table(l)), utf8_table(l), utf16_table(l))
            == Ok::<NodeDataView, Seq<char>>(l[i].data),
        encode_a(l[i], b_offset).parent_index == l[i].parent_index,
{
    let n = l[i];
    let u = utf8_table(l);
    let w = utf16_table(l);
    let b = encode_b(n, u, w);
    lemma_node_strings(l, i);
    lemma_tags_decode(l, n.data.tags);
    if is_v2(n) {
        assert(n.data.tags =~= Seq::<(Seq<char>, ValueView)>::empty());
        assert(encode_tags(n.data.tags, u) =~= Seq::<TagData>::empty());
        assert(n.data.node_type =~= Seq::<char>::empty());
        assert(n.data.text =~= Seq::<char>::empty());
        assert(b_tags(b) =~= Seq::<TagData>::empty());
    } else if is_v1(n) {
        assert(n.data.node_type =~= Seq::<char>::empty());
        assert(n.data.text =~= Seq::<char>::empty());
    } else {
        lemma_utf8_lookup(l, n.data.node_type);
        lemma_utf16_lookup(l, n.data.text);
    }
}

proof fn lemma_node_decodes(l: Seq<FlatView>, i: int, b_offset: int)
    requires
        file_fits(l),
        child_ranges_fit(l),
        0 <= i < l.len(),
        reads_back(l[i]),
    ensures
        spec_node_data(encode_b(l[i], utf8_table(l), utf16_table(l)), utf8_table(l), utf16_table(l))
            == Ok::<NodeDataView, Seq<char>>(l[i].data),
        flat_node(encode_a(l[i], b_offset), encode_b(l[i], utf8_table(l), utf16_table(l)), l[i].data) == l[i],
{
    let n = l[i];
    let u = utf8_table(l);
    let w = utf16_table(l);
    let b = encode_b(n, u, w);
    lemma_node_strings(l, i);
    lemma_tags_decode(l, n.data.tags);
    if is_v2(n) {
        assert(n.data.tags =~= Seq::<(Seq<char>, ValueView)>::empty());
        assert(encode_tags(n.data.tags, u) =~= Seq::<TagData>::empty());
        assert(n.data.node_type =~= Seq::<char>::empty());
        assert(n.data.text =~= Seq::<char>::empty());
        assert(b_tags(b) =~= Seq::<TagData>::empty());
    } else if is_v1(n) {
        assert(n.data.node_type =~= Seq::<char>::empty());
        assert(n.data.text =~= Seq::<char>::empty());
    } else {
        lemma_utf8_lookup(l, n.data.node_type);
        lemma_utf16_lookup(l, n.data.text);
    }
}

proof fn lemma_decode_all_encoded(l: Seq<FlatView>, k: int)
    requires
        file_fits(l),
        child_ranges_fit(l),
        forall|i: int| 0 <= i < l.len() ==> reads_back(#[trigger] l[i]),
        0 <= k <= l.len(),
    ensures
        decode_all(encoded_bs(l).take(k), utf8_table(l), utf16_table(l))
            == Ok::<Seq<NodeDataView>, Seq<char>>(Seq::new(k as nat, |i: int| l[i].data)),
    decreases k,
{
    let bs = encoded_bs(l);
    if k == 0 {
        assert(bs.take(0) =~= Seq::<NodeDataBView>::empty());
        assert(Seq::new(0, |i: int| l[i].data) =~= Seq::<NodeDataView>::empty());
    } else {
        lemma_decode_all_encoded(l, k - 1);
        assert(bs.take(k).drop_last() =~= bs.take(k - 1));
        assert(bs.take(k).last() == encode_b(l[k - 1], utf8_table(l), utf16_table(l)));
        lemma_node_decodes(l, k - 1, 0);
        assert(Seq::new((k - 1) as nat, |i: int| l[i].data).push(l[k - 1].data) =~= Seq::new(k as nat, |i: int| l[i].data));
    }
}

/// The records built from a list read back as the list, wherever each
/// node is one that its records can give back.
pub proof fn lemma_encoded_reads_back(l: Seq<FlatView>)
    requires
        file_fits(l),
        child_ranges_fit(l),
        forall|i: int| 0 <= i < l.len() ==> reads_back(#[trigger] l[i]),
    ensures
        decode_flat(encoded_as(l), encoded_bs(l), utf8_table(l), utf16_table(l)) == Ok::<Seq<FlatView>, Seq<char>>(l),
{
    let bs = encoded_bs(l);
    lemma_decode_all_encoded(l, l.len() as int);
    assert(bs.take(l.len() as int) =~= bs);
    let ds = Seq::new(l.len(), |i: int| l[i].data);
    let out = Seq::new(bs.len(), |i: int| flat_node(encoded_as(l)[i], bs[i], ds[i]));
    assert forall|i: int| 0 <= i < l.len() implies #[trigger] out[i] == l[i] by {
        lemma_node_decodes(l, i, total_b_size(l.take(i)));
    }
    assert(out =~= l);
}

/// A `jxb` file built from a list reads back as the list, wherever each
/// node is one that its records can give back.
pub proof fn lemma_built_file_reads_back(l: Seq<FlatView>, j: Jxb)
    requires
        jxb_encodes(j, l),
        file_fits(l),
        child_ranges_fit(l),
        forall|i: int| 0 <= i < l.len() ==> reads_back(#[trigger] l[i]),
    ensures
        j.spec_flat_list() == Ok::<Seq<FlatView>, Seq<char>>(l),
{
    lemma_encoded_reads_back(l);
}

/// A breadth-first list gives each block of children a range within the
/// list.
proof fn lemma_layout_ranges_fit(l: Seq<FlatView>)
    requires
        bfs_layout(l),
        l.len() <= i32::MAX,
    ensures
        child_ranges_fit(l),
{
    assert forall|i: int| 0 <= i < l.len() && is_v2(#[trigger] l[i]) implies i32::MIN <= l[i].children_start_index
        + l[i].child_count <= i32::MAX by {
        if l[i].child_count > 0 {
            lemma_children_before_monotonic(l, i + 1, l.len() as int);
        }
    }
}

impl Jxb {
    /// The file of the one tree that an xml file holds.
    pub fn from_trees(nodes: Vec<Node>) -> (r: Result<Jxb, FormatError>)
        ensures
            nodes@.len() != 1 ==> (r matches Err(FormatError::InvalidData(m)) && m@ == "xml file contains more than one top-level node"@),
            nodes@.len() == 1 && tree_size(nodes@[0]@) > i32::MAX ==> r matches Err(FormatError::TooLarge),
            nodes@.len() == 1 ==> (r is Ok || r matches Err(FormatError::TooLarge)),
            r matches Ok(j) ==> nodes@.len() == 1 && exists|l: Seq<FlatView>| {
                &&& bfs_layout(l)
                &&& pointers_wf(l)
                &&& tree_at(l, 0) == nodes@[0]@
                &&& l.len() == tree_size(nodes@[0]@)
                &&& file_fits(l)
                &&& all_keys_unique(l)
                &&& j.wf()
                &&& #[trigger] jxb_encodes(j, l)
            },
            r matches Err(FormatError::TooLarge) ==> nodes@.len() == 1 && (tree_size(nodes@[0]@) > i32::MAX || forall|l: Seq<FlatView>|
                bfs_layout(l) && pointers_wf(l) && tree_at(l, 0) == nodes@[0]@ && l.len() == tree_size(nodes@[0]@)
                    ==> !#[trigger] file_fits(l)),
    {
        let mut nodes = nodes;
        if nodes.len() != 1 {
            return Err(FormatError::InvalidData(String::from_str("xml file contains more than one top-level node")));
        }
        let node = nodes.pop().unwrap();
        if node.count_nodes(0x8000_0000) > 0x7fff_ffff {
            return Err(FormatError::TooLarge);
        }
        let ghost tv = node@;
        let list = node.into_node_list();
        let ghost l0 = flat_view(list@);
        proof {
            lemma_layout_ranges_fit(l0);
        }
        let r = NodeDataWithPointers::into_jxb(list);
        proof {
            if r is Err {
                assert forall|l: Seq<FlatView>|
                    bfs_layout(l) && pointers_wf(l) && tree_at(l, 0) == tv && l.len() == tree_size(tv)
                        implies !#[trigger] file_fits(l) by {
                    lemma_bfs_layout_unique(l0, l);
                }
            }
        }
        r
    }
}

/// A file built from the breadth-first list of a tree reads back as that
/// list, so its root node is the tree again, wherever no node repeats a tag
/// key and no node without type and text but with tags has children.
pub proof fn lemma_tree_file_reads_back(l: Seq<FlatView>, j: Jxb)
    requires
        bfs_layout(l),
        l.len() <= i32::MAX,
        file_fits(l),
        jxb_encodes(j, l),
        forall|i: int| 0 <= i < l.len() ==> keys_unique((#[trigger] l[i]).data.tags) && (is_v1(l[i]) ==> l[i].child_count == 0),
    ensures
        j.spec_flat_list() == Ok::<Seq<FlatView>, Seq<char>>(l),
{
    lemma_layout_ranges_fit(l);
    assert forall|i: int| 0 <= i < l.len() implies reads_back(#[trigger] l[i]) by {
        assert(keys_unique(l[i].data.tags) && (is_v1(l[i]) ==> l[i].child_count == 0));
    }
    lemma_built_file_reads_back(l, j);
}

} // verus!
