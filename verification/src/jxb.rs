//! The `jxb` format's data: node records (an "A" part of fixed size and a
//! "B" part with the node's strings and tags), and the string pool they
//! point into.

use vstd::prelude::*;
use crate::node::{
    entries_insert, tag_entries, tags_insert, tags_new, NodeData, NodeDataView, Value, ValueView,
};
use crate::tree::{flat_view, pointers_wf, tree_at, FlatView, Node, NodeDataWithPointers};
use crate::table::{hex_form, push_hex};

verus! {

/// The fixed-size record of a node.
#[derive(Clone, Copy)]
pub struct NodeDataA {
    pub node_version: u16,
    pub tags_type_id: u16,
    pub tag_count: u32,
    pub b_offset: i32,
    pub parent_index: i32,
}

/// A tag as stored: offsets of its key and value, and its value's type.
#[derive(Clone, Copy)]
pub struct TagData {
    pub key_offset: i32,
    pub type_id: u32,
    pub value: i32,
}

/// The tags of a node.
pub struct TagDatas {
    pub tags: Vec<TagData>,
}

/// The variable part of a node's record: tags only (version 1), the
/// indices of the children only (version 2), or type, children, text and
/// tags (version 3).
pub enum NodeDataB {
    Version1 { tags: TagDatas },
    Version2 { child_indexes: Vec<i32> },
    Version3 {
        node_type_offset: i32,
        children_start_index: i32,
        child_count: i32,
        text_offset: i32,
        tags: TagDatas,
    },
}

/// What a node's variable record holds.
pub enum NodeDataBView {
    Version1 { tags: Seq<TagData> },
    Version2 { child_indexes: Seq<i32> },
    Version3 {
        node_type_offset: i32,
        children_start_index: i32,
        child_count: i32,
        text_offset: i32,
        tags: Seq<TagData>,
    },
}

impl View for NodeDataB {
    type V = NodeDataBView;

    open spec fn view(&self) -> NodeDataBView {
        match self {
            NodeDataB::Version1 { tags } => NodeDataBView::Version1 { tags: tags.tags@ },
            NodeDataB::Version2 { child_indexes } => NodeDataBView::Version2 { child_indexes: child_indexes@ },
            NodeDataB::Version3 { node_type_offset, children_start_index, child_count, text_offset, tags } =>
                NodeDataBView::Version3 {
                node_type_offset: *node_type_offset,
                children_start_index: *children_start_index,
                child_count: *child_count,
                text_offset: *text_offset,
                tags: tags.tags@,
            },
        }
    }
}

/// A table of strings by offset, in increasing order of offset.
pub open spec fn pool_view(v: Seq<(i32, String)>) -> Seq<(i32, Seq<char>)> {
    v.map_values(|e: (i32, String)| (e.0, e.1@))
}

/// The offsets of a table are strictly increasing.
pub open spec fn offsets_increasing(p: Seq<(i32, Seq<char>)>) -> bool {
    forall|i: int, j: int| 0 <= i < j < p.len() ==> (#[trigger] p[i]).0 < (#[trigger] p[j]).0
}

/// The strings of a file: UTF-8 keys and values, and the texts, in UTF-16
/// when the file keeps them apart.
pub struct StringPool {
    pub utf8_strings: Vec<(i32, String)>,
    pub utf16_strings: Option<Vec<(i32, String)>>,
}

/// A `jxb` file's data.
pub struct Jxb {
    pub node_data_as: Vec<NodeDataA>,
    pub node_data_bs: Vec<NodeDataB>,
    pub key_string_offsets: Vec<i32>,
    pub string_pool: StringPool,
}

/// The type id that a node's tags are stored with: 0 when there are none,
/// the common type when all have one, else 1 (each tag then stores its own).
pub open spec fn spec_tag_type_id(tags: Seq<TagData>) -> u16 {
    if tags.len() == 0 {
        0
    } else if forall|i: int| 0 <= i < tags.len() ==> #[trigger] tags[i].type_id == tags[0].type_id {
        tags[0].type_id as u16
    } else {
        1
    }
}

impl TagDatas {
    /// The type id that the tags are stored with.
    pub fn tag_type_id(&self) -> (r: u16)
        ensures
            r == spec_tag_type_id(self.tags@),
    {
        if self.tags.len() == 0 {
            return 0;
        }
        let first = self.tags[0].type_id;
        let mut i: usize = 1;
        while i < self.tags.len()
            invariant
                1 <= i <= self.tags@.len(),
                first == self.tags@[0].type_id,
                forall|j: int| 0 <= j < i ==> #[trigger] self.tags@[j].type_id == first,
            decreases self.tags@.len() - i,
        {
            if self.tags[i].type_id != first {
                return 1;
            }
            i = i + 1;
        }
        first as u16
    }
}

/// Errors in a file's data.
#[derive(Debug)]
pub enum FormatError {
    /// The data does not hold together; the text says how.
    InvalidData(String),
    /// A file built from the data would need offsets beyond `i32::MAX`.
    TooLarge,
}

/// The string at `offset` in a table, if any.
pub open spec fn table_get(p: Seq<(i32, Seq<char>)>, offset: i32) -> Option<Seq<char>>
    decreases p.len(),
{
    if p.len() == 0 {
        None
    } else if p[0].0 == offset {
        Some(p[0].1)
    } else {
        table_get(p.drop_first(), offset)
    }
}

/// The string at `offset`, where `-1` stands for the empty string.
pub open spec fn spec_get_string(offset: i32, p: Seq<(i32, Seq<char>)>) -> Option<Seq<char>> {
    if offset == -1 {
        Some(Seq::empty())
    } else {
        table_get(p, offset)
    }
}

/// The message for a missing string.
pub open spec fn missing_string_message(offset: i32) -> Seq<char> {
    "Could not find string at "@ + hex_form(offset as u32)
}

pub proof fn lemma_table_get_index(p: Seq<(i32, Seq<char>)>, k: int)
    requires
        offsets_increasing(p),
        0 <= k < p.len(),
    ensures
        table_get(p, p[k].0) == Some(p[k].1),
    decreases p.len(),
{
    if k > 0 {
        assert(p[0].0 < p[k].0);
        assert(offsets_increasing(p.drop_first()));
        lemma_table_get_index(p.drop_first(), k - 1);
    }
}

proof fn lemma_table_get_absent(p: Seq<(i32, Seq<char>)>, offset: i32)
    requires
        forall|k: int| 0 <= k < p.len() ==> (#[trigger] p[k]).0 != offset,
    ensures
        table_get(p, offset) is None,
    decreases p.len(),
{
    if p.len() > 0 {
        assert forall|k: int| 0 <= k < p.drop_first().len() implies (#[trigger] p.drop_first()[k]).0 != offset by {
            assert(p.drop_first()[k] == p[k + 1]);
        }
        lemma_table_get_absent(p.drop_first(), offset);
    }
}

/// The string at `offset` of a table; `-1` stands for the empty string.
pub fn get_string<'a>(offset: i32, strings: &'a Vec<(i32, String)>) -> (r: Result<&'a str, FormatError>)
    requires
        offsets_increasing(pool_view(strings@)),
    ensures
        match spec_get_string(offset, pool_view(strings@)) {
            Some(t) => r matches Ok(s) && s@ == t,
            None => r matches Err(FormatError::InvalidData(m)) && m@ == missing_string_message(offset),
        },
{
    if offset == -1 {
        proof {
            reveal_strlit("");
        }
        return Ok("");
    }
    let ghost p = pool_view(strings@);
    let mut low: usize = 0;
    let mut high: usize = strings.len();
    while low < high
        invariant
            low <= high <= strings@.len(),
            offset != -1,
            p == pool_view(strings@),
            offsets_increasing(p),
            forall|k: int| 0 <= k < low ==> (#[trigger] p[k]).0 < offset,
            forall|k: int| high <= k < p.len() ==> (#[trigger] p[k]).0 > offset,
        decreases high - low,
    {
        let mid = low + (high - low) / 2;
        let here = strings[mid].0;
        assert(p[mid as int].0 == here);
        if here == offset {
            let found: &'a String = &strings[mid].1;
            let r = found.as_str();
            proof {
                lemma_table_get_index(p, mid as int);
                assert(p[mid as int].1 == strings@[mid as int].1@);
                assert(r@ == found@);
            }
            return Ok(r);
        } else if here < offset {
            low = mid + 1;
        } else {
            high = mid;
        }
    }
    proof {
        lemma_table_get_absent(p, offset);
    }
    let mut message = String::from_str("Could not find string at ");
    push_hex(&mut message, #[verifier::truncate] (offset as u32));
    Err(FormatError::InvalidData(message))
}


impl StringPool {
    /// The UTF-8 table: keys, types and text values of tags.
    pub open spec fn utf8_view(&self) -> Seq<(i32, Seq<char>)> {
        pool_view(self.utf8_strings@)
    }

    /// The table the inner texts are read from: the UTF-16 one where the
    /// file has it, else the UTF-8 one.
    pub open spec fn text_view(&self) -> Seq<(i32, Seq<char>)> {
        match self.utf16_strings {
            Some(v) => pool_view(v@),
            None => pool_view(self.utf8_strings@),
        }
    }

    /// Each table holds its offsets in strictly increasing order.
    pub open spec fn wf(&self) -> bool {
        &&& offsets_increasing(self.utf8_view())
        &&& offsets_increasing(self.text_view())
    }

    /// The table the inner texts are read from.
    pub fn text_strings(&self) -> (r: &Vec<(i32, String)>)
        ensures
            pool_view(r@) == self.text_view(),
    {
        match &self.utf16_strings {
            Some(v) => v,
            None => &self.utf8_strings,
        }
    }
}

/// The message for a boolean tag whose value is neither 0 nor 1.
pub open spec fn bool_message(value: i32) -> Seq<char> {
    "Invalid boolean value "@ + hex_form(value as u32) + "!"@
}

/// The message for a tag of an unknown type.
pub open spec fn tag_type_message(type_id: u32, value: i32) -> Seq<char> {
    "Invalid tag type! type_id: "@ + hex_form(type_id) + ", value: "@ + hex_form(value as u32)
}

/// The value a stored tag stands for, with text values looked up in `p`,
/// or the message of the error.
pub open spec fn spec_value_new(tag: TagData, p: Seq<(i32, Seq<char>)>) -> Result<ValueView, Seq<char>> {
    if tag.type_id == 2 {
        Ok(ValueView::Node(tag.value))
    } else if tag.type_id == 3 {
        match spec_get_string(tag.value, p) {
            Some(t) => Ok(ValueView::Text(t)),
            None => Err(missing_string_message(tag.value)),
        }
    } else if tag.type_id == 4 {
        Ok(ValueView::Float(tag.value))
    } else if tag.type_id == 5 {
        Ok(ValueView::Int(tag.value))
    } else if tag.type_id == 6 {
        if tag.value == 0 {
            Ok(ValueView::Bool(false))
        } else if tag.value == 1 {
            Ok(ValueView::Bool(true))
        } else {
            Err(bool_message(tag.value))
        }
    } else {
        Err(tag_type_message(tag.type_id, tag.value))
    }
}

fn hex_of_i32(v: i32) -> (r: u32)
    ensures
        r == v as u32,
{
    #[verifier::truncate] (v as u32)
}

impl Value {
    /// The value a stored tag stands for; text values are looked up in
    /// `strings`.
    pub fn new(tag: &TagData, strings: &Vec<(i32, String)>) -> (r: Result<Value, FormatError>)
        requires
            offsets_increasing(pool_view(strings@)),
        ensures
            match spec_value_new(*tag, pool_view(strings@)) {
                Ok(v) => r matches Ok(x) && x@ == v,
                Err(m) => r matches Err(FormatError::InvalidData(e)) && e@ == m,
            },
    {
        if tag.type_id == 2 {
            Ok(Value::Node(tag.value))
        } else if tag.type_id == 3 {
            match get_string(tag.value, strings) {
                Ok(t) => Ok(Value::Text(t.to_owned())),
                Err(e) => Err(e),
            }
        } else if tag.type_id == 4 {
            Ok(Value::Float(tag.value))
        } else if tag.type_id == 5 {
            Ok(Value::Int(tag.value))
        } else if tag.type_id == 6 {
            if tag.value == 0 {
                Ok(Value::Bool(false))
            } else if tag.value == 1 {
                Ok(Value::Bool(true))
            } else {
                let mut message = String::from_str("Invalid boolean value ");
                push_hex(&mut message, hex_of_i32(tag.value));
                message.append("!");
                Err(FormatError::InvalidData(message))
            }
        } else {
            let mut message = String::from_str("Invalid tag type! type_id: ");
            push_hex(&mut message, tag.type_id);
            message.append(", value: ");
            push_hex(&mut message, hex_of_i32(tag.value));
            Err(FormatError::InvalidData(message))
        }
    }
}

/// The tags a node's variable record holds.
pub open spec fn b_tags(b: NodeDataBView) -> Seq<TagData> {
    match b {
        NodeDataBView::Version1 { tags } => tags,
        NodeDataBView::Version2 { .. } => Seq::empty(),
        NodeDataBView::Version3 { tags, .. } => tags,
    }
}

/// The index of a node's first child, `-1` where it has none.
pub open spec fn b_children_start_index(b: NodeDataBView) -> i32 {
    match b {
        NodeDataBView::Version1 { .. } => -1i32,
        NodeDataBView::Version2 { child_indexes } => if child_indexes.len() == 0 {
            -1i32
        } else {
            child_indexes[0]
        },
        NodeDataBView::Version3 { children_start_index, .. } => children_start_index,
    }
}

/// The number of a node's children.
pub open spec fn b_child_count(b: NodeDataBView) -> int {
    match b {
        NodeDataBView::Version1 { .. } => 0,
        NodeDataBView::Version2 { child_indexes } => child_indexes.len() as int,
        NodeDataBView::Version3 { child_count, .. } => child_count as int,
    }
}

impl NodeDataB {
    /// The node's tags.
    pub fn tags(&self) -> (r: &[TagData])
        ensures
            r@ == b_tags(self@),
    {
        match self {
            NodeDataB::Version1 { tags } => tags.tags.as_slice(),
            NodeDataB::Version2 { .. } => &[],
            NodeDataB::Version3 { tags, .. } => tags.tags.as_slice(),
        }
    }

    /// The index of the node's first child, `-1` where it has none.
    pub fn children_start_index(&self) -> (r: i32)
        ensures
            r == b_children_start_index(self@),
    {
        match self {
            NodeDataB::Version1 { .. } => -1,
            NodeDataB::Version2 { child_indexes } => if child_indexes.len() == 0 {
                -1
            } else {
                child_indexes[0]
            },
            NodeDataB::Version3 { children_start_index, .. } => *children_start_index,
        }
    }

    /// The number of the node's children.
    pub fn child_count(&self) -> (r: i32)
        requires
            self@ is Version2 ==> self@->child_indexes.len() <= i32::MAX,
        ensures
            r == b_child_count(self@),
    {
        match self {
            NodeDataB::Version1 { .. } => 0,
            NodeDataB::Version2 { child_indexes } => child_indexes.len() as i32,
            NodeDataB::Version3 { child_count, .. } => *child_count,
        }
    }
}

/// The entries of a node's tags: each key and value looked up in `p`, put
/// in the map in order; or the message of the first error.
pub open spec fn decode_tags(tags: Seq<TagData>, p: Seq<(i32, Seq<char>)>) -> Result<Seq<(Seq<char>, ValueView)>, Seq<char>>
    decreases tags.len(),
{
    if tags.len() == 0 {
        Ok(Seq::empty())
    } else {
        match decode_tags(tags.drop_last(), p) {
            Err(m) => Err(m),
            Ok(entries) => match spec_get_string(tags.last().key_offset, p) {
                None => Err(missing_string_message(tags.last().key_offset)),
                Some(key) => match spec_value_new(tags.last(), p) {
                    Err(m) => Err(m),
                    Ok(v) => Ok(entries_insert(entries, key, v)),
                },
            },
        }
    }
}

/// The data a node's variable record stands for, with its strings looked
/// up: types, keys and text values in `utf8`, the inner text in `texts`.
/// The first error met, in the order type, tags, text, gives the message.
pub open spec fn spec_node_data(
    b: NodeDataBView,
    utf8: Seq<(i32, Seq<char>)>,
    texts: Seq<(i32, Seq<char>)>,
) -> Result<NodeDataView, Seq<char>> {
    let node_type = match b {
        NodeDataBView::Version3 { node_type_offset, .. } => spec_get_string(node_type_offset, utf8),
        _ => Some(Seq::empty()),
    };
    match node_type {
        None => Err(missing_string_message(b->Version3_node_type_offset)),
        Some(node_type) => match decode_tags(b_tags(b), utf8) {
            Err(m) => Err(m),
            Ok(tags) => {
                let text = match b {
                    NodeDataBView::Version3 { text_offset, .. } => spec_get_string(text_offset, texts),
                    _ => Some(Seq::empty()),
                };
                match text {
                    None => Err(missing_string_message(b->Version3_text_offset)),
                    Some(text) => Ok(NodeDataView { node_type, tags, text }),
                }
            },
        },
    }
}

/// Maps the outcome of a spec decoding to what an exec result must match.
pub open spec fn result_matches_data(r: Result<NodeData, FormatError>, s: Result<NodeDataView, Seq<char>>) -> bool {
    match s {
        Ok(v) => r matches Ok(x) && x@ == v,
        Err(m) => r matches Err(FormatError::InvalidData(e)) && e@ == m,
    }
}

fn decode_tag_map(tags: &[TagData], strings: &Vec<(i32, String)>) -> (r: Result<indexmap::IndexMap<String, Value>, FormatError>)
    requires
        offsets_increasing(pool_view(strings@)),
    ensures
        match decode_tags(tags@, pool_view(strings@)) {
            Ok(entries) => r matches Ok(m) && tag_entries(m) == entries,
            Err(msg) => r matches Err(FormatError::InvalidData(e)) && e@ == msg,
        },
{
    let ghost p = pool_view(strings@);
    let mut map = tags_new();
    let mut i: usize = 0;
    while i < tags.len()
        invariant
            i <= tags@.len(),
            p == pool_view(strings@),
            offsets_increasing(p),
            decode_tags(tags@.take(i as int), p) == Ok::<Seq<(Seq<char>, ValueView)>, Seq<char>>(tag_entries(map)),
        decreases tags@.len() - i,
    {
        let tag = &tags[i];
        proof {
            assert(tags@.take(i + 1).drop_last() =~= tags@.take(i as int));
            assert(tags@.take(i + 1).last() == tags@[i as int]);
        }
        let key = match get_string(tag.key_offset, strings) {
            Ok(k) => k,
            Err(e) => {
                proof {
                    assert(decode_tags(tags@.take(i + 1), p) is Err);
                    lemma_decode_tags_err_stays(tags@, p, i + 1);
                }
                return Err(e);
            },
        };
        let value = match Value::new(tag, strings) {
            Ok(v) => v,
            Err(e) => {
                proof {
                    lemma_decode_tags_err_stays(tags@, p, i + 1);
                }
                return Err(e);
            },
        };
        tags_insert(&mut map, key.to_owned(), value);
        i = i + 1;
    }
    proof {
        assert(tags@.take(tags@.len() as int) =~= tags@);
    }
    Ok(map)
}

proof fn lemma_decode_tags_err_stays(tags: Seq<TagData>, p: Seq<(i32, Seq<char>)>, k: int)
    requires
        0 <= k <= tags.len(),
        decode_tags(tags.take(k), p) is Err,
    ensures
        decode_tags(tags, p) == decode_tags(tags.take(k), p),
    decreases tags.len() - k,
{
    if k < tags.len() {
        assert(tags.take(k + 1).drop_last() =~= tags.take(k));
        lemma_decode_tags_err_stays(tags, p, k + 1);
    } else {
        assert(tags.take(k) =~= tags);
    }
}

impl NodeData {
    /// The data a node's variable record stands for, with its strings
    /// looked up in the pool.
    pub fn new(b: &NodeDataB, string_pool: &StringPool) -> (r: Result<NodeData, FormatError>)
        requires
            string_pool.wf(),
        ensures
            result_matches_data(r, spec_node_data(b@, string_pool.utf8_view(), string_pool.text_view())),
    {
        let key_value_strings = &string_pool.utf8_strings;
        let text_strings = string_pool.text_strings();
        let node_type: &str = match b {
            NodeDataB::Version3 { node_type_offset, .. } => match get_string(*node_type_offset, key_value_strings) {
                Ok(t) => t,
                Err(e) => {
                    return Err(e);
                },
            },
            _ => {
                proof {
                    reveal_strlit("");
                }
                ""
            },
        };
        let tags = match decode_tag_map(b.tags(), key_value_strings) {
            Ok(m) => m,
            Err(e) => {
                return Err(e);
            },
        };
        let text: &str = match b {
            NodeDataB::Version3 { text_offset, .. } => match get_string(*text_offset, text_strings) {
                Ok(t) => t,
                Err(e) => {
                    return Err(e);
                },
            },
            _ => {
                proof {
                    reveal_strlit("");
                }
                ""
            },
        };
        let r = NodeData { node_type: node_type.to_owned(), tags, text: text.to_owned() };
        proof {
            let sv = spec_node_data(b@, string_pool.utf8_view(), string_pool.text_view());
            assert(r@.node_type == node_type@);
            assert(r@.text == text@);
            if b@ is Version3 {
                assert(spec_get_string(b@->Version3_node_type_offset, string_pool.utf8_view()) == Some(node_type@));
                assert(spec_get_string(b@->Version3_text_offset, string_pool.text_view()) == Some(text@));
            } else {
                assert(node_type@ == Seq::<char>::empty());
                assert(text@ == Seq::<char>::empty());
            }
            assert(decode_tags(b_tags(b@), string_pool.utf8_view()) == Ok::<Seq<(Seq<char>, ValueView)>, Seq<char>>(r@.tags));
            assert(sv == Ok::<NodeDataView, Seq<char>>(r@));
        }
        Ok(r)
    }
}

/// The data of each node record, in order, or the message of the first
/// error.
pub open spec fn decode_all(
    bs: Seq<NodeDataBView>,
    utf8: Seq<(i32, Seq<char>)>,
    texts: Seq<(i32, Seq<char>)>,
) -> Result<Seq<NodeDataView>, Seq<char>>
    decreases bs.len(),
{
    if bs.len() == 0 {
        Ok(Seq::empty())
    } else {
        match decode_all(bs.drop_last(), utf8, texts) {
            Err(m) => Err(m),
            Ok(done) => match spec_node_data(bs.last(), utf8, texts) {
                Err(m) => Err(m),
                Ok(d) => Ok(done.push(d)),
            },
        }
    }
}

/// The flat node a pair of records stands for.
pub open spec fn flat_node(a: NodeDataA, b: NodeDataBView, data: NodeDataView) -> FlatView {
    FlatView {
        data,
        parent_index: a.parent_index,
        children_start_index: b_children_start_index(b),
        child_count: b_child_count(b) as i32,
    }
}

/// The flat list a file's records stand for, or the message of the first
/// error.
pub open spec fn decode_flat(
    a_s: Seq<NodeDataA>,
    bs: Seq<NodeDataBView>,
    utf8: Seq<(i32, Seq<char>)>,
    texts: Seq<(i32, Seq<char>)>,
) -> Result<Seq<FlatView>, Seq<char>> {
    match decode_all(bs, utf8, texts) {
        Err(m) => Err(m),
        Ok(ds) => Ok(Seq::new(bs.len(), |i: int| flat_node(a_s[i], bs[i], ds[i]))),
    }
}

pub proof fn lemma_decode_all_len(bs: Seq<NodeDataBView>, utf8: Seq<(i32, Seq<char>)>, texts: Seq<(i32, Seq<char>)>)
    ensures
        decode_all(bs, utf8, texts) matches Ok(ds) ==> ds.len() == bs.len()
            && forall|i: int| 0 <= i < bs.len() ==> spec_node_data(bs[i], utf8, texts) == Ok::<NodeDataView, Seq<char>>(#[trigger] ds[i]),
    decreases bs.len(),
{
    if bs.len() > 0 {
        lemma_decode_all_len(bs.drop_last(), utf8, texts);
        if let Ok(ds) = decode_all(bs, utf8, texts) {
            assert forall|i: int| 0 <= i < bs.len() implies spec_node_data(bs[i], utf8, texts) == Ok::<NodeDataView, Seq<char>>(#[trigger] ds[i]) by {
                if i < bs.len() - 1 {
                    assert(bs.drop_last()[i] == bs[i]);
                }
            }
        }
    }
}

proof fn lemma_decode_all_err_stays(bs: Seq<NodeDataBView>, utf8: Seq<(i32, Seq<char>)>, texts: Seq<(i32, Seq<char>)>, k: int)
    requires
        0 <= k <= bs.len(),
        decode_all(bs.take(k), utf8, texts) is Err,
    ensures
        decode_all(bs, utf8, texts) == decode_all(bs.take(k), utf8, texts),
    decreases bs.len() - k,
{
    if k < bs.len() {
        assert(bs.take(k + 1).drop_last() =~= bs.take(k));
        lemma_decode_all_err_stays(bs, utf8, texts, k + 1);
    } else {
        assert(bs.take(k) =~= bs);
    }
}

/// The views of a file's variable records.
pub open spec fn bs_view(bs: Seq<NodeDataB>) -> Seq<NodeDataBView> {
    bs.map_values(|b: NodeDataB| b@)
}

impl NodeDataWithPointers {
    /// The flat node a pair of records stands for, with its strings looked
    /// up in the pool.
    pub fn from_records(a: &NodeDataA, b: &NodeDataB, string_pool: &StringPool) -> (r: Result<NodeDataWithPointers, FormatError>)
        requires
            string_pool.wf(),
            b@ is Version2 ==> b@->child_indexes.len() <= i32::MAX,
        ensures
            match spec_node_data(b@, string_pool.utf8_view(), string_pool.text_view()) {
                Ok(d) => r matches Ok(n) && n@ == flat_node(*a, b@, d),
                Err(m) => r matches Err(FormatError::InvalidData(e)) && e@ == m,
            },
    {
        match NodeData::new(b, string_pool) {
            Ok(data) => Ok(NodeDataWithPointers {
                data,
                parent_index: a.parent_index,
                children_start_index: b.children_start_index(),
                child_count: b.child_count(),
            }),
            Err(e) => Err(e),
        }
    }
}

impl Jxb {
    /// The records agree in number, each version-2 record's child count
    /// fits in an `i32`, and the string tables are sorted.
    pub open spec fn wf(&self) -> bool {
        &&& self.node_data_as@.len() == self.node_data_bs@.len()
        &&& self.node_data_bs@.len() <= i32::MAX
        &&& self.string_pool.wf()
        &&& forall|i: int| 0 <= i < self.node_data_bs@.len() ==> (#[trigger] self.node_data_bs@[i])@ is Version2
            ==> self.node_data_bs@[i]@->child_indexes.len() <= i32::MAX
    }

    /// What the file's records decode to, in order.
    pub open spec fn spec_node_list(&self) -> Result<Seq<NodeDataView>, Seq<char>> {
        decode_all(bs_view(self.node_data_bs@), self.string_pool.utf8_view(), self.string_pool.text_view())
    }

    /// The flat list the file's records decode to.
    pub open spec fn spec_flat_list(&self) -> Result<Seq<FlatView>, Seq<char>> {
        decode_flat(self.node_data_as@, bs_view(self.node_data_bs@), self.string_pool.utf8_view(), self.string_pool.text_view())
    }

    /// The data of every node, in order.
    pub fn node_list(&self) -> (r: Result<Vec<NodeData>, FormatError>)
        requires
            self.string_pool.wf(),
        ensures
            match self.spec_node_list() {
                Ok(ds) => r matches Ok(v) && v@.map_values(|n: NodeData| n@) == ds,
                Err(m) => r matches Err(FormatError::InvalidData(e)) && e@ == m,
            },
    {
        let ghost bs = bs_view(self.node_data_bs@);
        let ghost utf8 = self.string_pool.utf8_view();
        let ghost texts = self.string_pool.text_view();
        let mut out: Vec<NodeData> = Vec::new();
        let mut i: usize = 0;
        proof {
            assert(bs.take(0) =~= Seq::<NodeDataBView>::empty());
            assert(out@.map_values(|n: NodeData| n@) =~= Seq::<NodeDataView>::empty());
        }
        while i < self.node_data_bs.len()
            invariant
                i <= self.node_data_bs@.len(),
                bs == bs_view(self.node_data_bs@),
                utf8 == self.string_pool.utf8_view(),
                texts == self.string_pool.text_view(),
                self.string_pool.wf(),
                decode_all(bs.take(i as int), utf8, texts) == Ok::<Seq<NodeDataView>, Seq<char>>(out@.map_values(|n: NodeData| n@)),
            decreases self.node_data_bs@.len() - i,
        {
            proof {
                assert(bs.take(i + 1).drop_last() =~= bs.take(i as int));
                assert(bs.take(i + 1).last() == self.node_data_bs@[i as int]@);
            }
            match NodeData::new(&self.node_data_bs[i], &self.string_pool) {
                Ok(d) => {
                    let ghost before = out@;
                    out.push(d);
                    proof {
                        assert(out@.map_values(|n: NodeData| n@) =~= before.map_values(|n: NodeData| n@).push(d@));
                    }
                },
                Err(e) => {
                    proof {
                        lemma_decode_all_err_stays(bs, utf8, texts, i + 1);
                    }
                    return Err(e);
                },
            }
            i = i + 1;
        }
        proof {
            assert(bs.take(i as int) =~= bs);
        }
        Ok(out)
    }

    /// The data of the node at `index`.
    pub fn get_node_data(&self, index: i32) -> (r: Result<NodeData, FormatError>)
        requires
            self.string_pool.wf(),
            0 <= index < self.node_data_bs@.len(),
        ensures
            result_matches_data(r, spec_node_data(self.node_data_bs@[index as int]@, self.string_pool.utf8_view(), self.string_pool.text_view())),
    {
        NodeData::new(&self.node_data_bs[index as usize], &self.string_pool)
    }

    /// The flat list the file's records decode to.
    pub fn flat_list(&self) -> (r: Result<Vec<NodeDataWithPointers>, FormatError>)
        requires
            self.wf(),
        ensures
            match self.spec_flat_list() {
                Ok(l) => r matches Ok(v) && flat_view(v@) == l,
                Err(m) => r matches Err(FormatError::InvalidData(e)) && e@ == m,
            },
    {
        let ghost bs = bs_view(self.node_data_bs@);
        let ghost utf8 = self.string_pool.utf8_view();
        let ghost texts = self.string_pool.text_view();
        let mut out: Vec<NodeDataWithPointers> = Vec::new();
        let ghost mut datas: Seq<NodeDataView> = Seq::empty();
        let mut i: usize = 0;
        while i < self.node_data_bs.len()
            invariant
                self.wf(),
                i <= self.node_data_bs@.len(),
                bs == bs_view(self.node_data_bs@),
                utf8 == self.string_pool.utf8_view(),
                texts == self.string_pool.text_view(),
                decode_all(bs.take(i as int), utf8, texts) == Ok::<Seq<NodeDataView>, Seq<char>>(datas),
                datas.len() == i,
                out@.len() == i,
                forall|j: int| 0 <= j < i ==> (#[trigger] out@[j])@ == flat_node(self.node_data_as@[j], bs[j], datas[j]),
            decreases self.node_data_bs@.len() - i,
        {
            proof {
                assert(bs.take(i + 1).drop_last() =~= bs.take(i as int));
                assert(bs.take(i + 1).last() == self.node_data_bs@[i as int]@);
                assert(bs[i as int] == self.node_data_bs@[i as int]@);
            }
            match NodeDataWithPointers::from_records(&self.node_data_as[i], &self.node_data_bs[i], &self.string_pool) {
                Ok(n) => {
                    out.push(n);
                    proof {
                        datas = datas.push(n@.data);
                    }
                },
                Err(e) => {
                    proof {
                        lemma_decode_all_err_stays(bs, utf8, texts, i + 1);
                    }
                    return Err(e);
                },
            }
            i = i + 1;
        }
        proof {
            assert(bs.take(i as int) =~= bs);
            let l = Seq::new(bs.len(), |k: int| flat_node(self.node_data_as@[k], bs[k], datas[k]));
            assert(flat_view(out@) =~= l);
        }
        Ok(out)
    }

    /// The tree rooted at the first node, where the decoded pointers are
    /// sound.
    pub fn root_node(&self) -> (r: Result<Node, FormatError>)
        requires
            self.wf(),
            self.node_data_bs@.len() > 0,
            self.spec_flat_list() matches Ok(l) ==> pointers_wf(l),
        ensures
            match self.spec_flat_list() {
                Ok(l) => r matches Ok(n) && n@ == tree_at(l, 0),
                Err(m) => r matches Err(FormatError::InvalidData(e)) && e@ == m,
            },
    {
        let list = match self.flat_list() {
            Ok(l) => l,
            Err(e) => {
                return Err(e);
            },
        };
        proof {
            assert(flat_view(list@).len() == list@.len());
        }
        Ok(Node::new(list, 0))
    }
}

fn offsets_rise(v: &Vec<(i32, String)>) -> (r: bool)
    ensures
        r == offsets_increasing(pool_view(v@)),
{
    let ghost p = pool_view(v@);
    let mut i: usize = 1;
    if v.len() == 0 {
        return true;
    }
    while i < v.len()
        invariant
            1 <= i <= v@.len(),
            p == pool_view(v@),
            forall|a: int, b: int| 0 <= a < b < i ==> (#[trigger] p[a]).0 < (#[trigger] p[b]).0,
        decreases v@.len() - i,
    {
        if v[i - 1].0 >= v[i].0 {
            proof {
                assert(p[i - 1].0 >= p[i as int].0);
            }
            return false;
        }
        proof {
            assert forall|a: int, b: int| 0 <= a < b < i + 1 implies (#[trigger] p[a]).0 < (#[trigger] p[b]).0 by {
                if b == i && a < i - 1 {
                    assert(p[a].0 < p[i - 1].0);
                }
            }
        }
        i = i + 1;
    }
    true
}

impl Jxb {
    /// Whether the file's records and tables hold together as `wf` says.
    pub fn check_wf(&self) -> (r: bool)
        ensures
            r == self.wf(),
    {
        if self.node_data_as.len() != self.node_data_bs.len() || self.node_data_bs.len() > 0x7fff_ffff {
            return false;
        }
        if !offsets_rise(&self.string_pool.utf8_strings) {
            return false;
        }
        if !offsets_rise(self.string_pool.text_strings()) {
            return false;
        }
        let mut i: usize = 0;
        while i < self.node_data_bs.len()
            invariant
                i <= self.node_data_bs@.len(),
                forall|k: int| 0 <= k < i && (#[trigger] self.node_data_bs@[k])@ is Version2
                    ==> self.node_data_bs@[k]@->child_indexes.len() <= i32::MAX,
            decreases self.node_data_bs@.len() - i,
        {
            match &self.node_data_bs[i] {
                NodeDataB::Version2 { child_indexes } => {
                    if child_indexes.len() > 0x7fff_ffff {
                        return false;
                    }
                },
                _ => {},
            }
            i = i + 1;
        }
        true
    }
}

} // verus!
