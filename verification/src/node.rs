//! The data of a node of a `jxb` tree: a type name, tags (an ordered map
//! from key to value) and inner text.

use vstd::prelude::*;
use crate::text::string_push;
use crate::encode::keys_unique;

verus! {

#[verifier::external_type_specification]
#[verifier::external_body]
#[verifier::reject_recursive_types(K)]
#[verifier::reject_recursive_types(V)]
#[verifier::reject_recursive_types(S)]
pub struct ExIndexMap<K, V, S>(indexmap::IndexMap<K, V, S>);

/// The value of a tag. A float is kept as the bits of its `f32`, as the
/// binary format stores it.
pub enum Value {
    Node(i32),
    Text(String),
    Float(i32),
    Int(i32),
    Bool(bool),
}

/// What a value holds, with text as characters.
pub enum ValueView {
    Node(i32),
    Text(Seq<char>),
    Float(i32),
    Int(i32),
    Bool(bool),
}

impl View for Value {
    type V = ValueView;

    open spec fn view(&self) -> ValueView {
        match self {
            Value::Node(v) => ValueView::Node(*v),
            Value::Text(t) => ValueView::Text(t@),
            Value::Float(v) => ValueView::Float(*v),
            Value::Int(v) => ValueView::Int(*v),
            Value::Bool(v) => ValueView::Bool(*v),
        }
    }
}

impl Value {
    /// A copy of the value.
    pub fn duplicate(&self) -> (r: Value)
        ensures
            r@ == self@,
    {
        match self {
            Value::Node(v) => Value::Node(*v),
            Value::Text(t) => Value::Text(t.clone()),
            Value::Float(v) => Value::Float(*v),
            Value::Int(v) => Value::Int(*v),
            Value::Bool(v) => Value::Bool(*v),
        }
    }

    /// The type id of the value in the binary format.
    pub fn type_id(&self) -> (r: u32)
        ensures
            r == value_type_id(self@),
    {
        match self {
            Value::Node(_) => 2,
            Value::Text(_) => 3,
            Value::Float(_) => 4,
            Value::Int(_) => 5,
            Value::Bool(_) => 6,
        }
    }
}

impl Clone for Value {
    fn clone(&self) -> (r: Value)
        ensures
            r@ == self@,
    {
        self.duplicate()
    }
}

/// The type id of a value in the binary format.
pub open spec fn value_type_id(v: ValueView) -> u32 {
    match v {
        ValueView::Node(_) => 2,
        ValueView::Text(_) => 3,
        ValueView::Float(_) => 4,
        ValueView::Int(_) => 5,
        ValueView::Bool(_) => 6,
    }
}

/// The entries of a tag map, in order.
pub uninterp spec fn tag_entries(m: indexmap::IndexMap<String, Value>) -> Seq<(Seq<char>, ValueView)>;

/// The first position of `key` among the entries, if any.
pub open spec fn entry_index(entries: Seq<(Seq<char>, ValueView)>, key: Seq<char>) -> Option<int>
    decreases entries.len(),
{
    if entries.len() == 0 {
        None
    } else if entries.last().0 == key && entry_index(entries.drop_last(), key) is None {
        Some(entries.len() - 1)
    } else {
        entry_index(entries.drop_last(), key)
    }
}

/// The entries after inserting `key` with `value`: the value of an equal
/// key is replaced where it stands, else the pair goes last.
pub open spec fn entries_insert(
    entries: Seq<(Seq<char>, ValueView)>,
    key: Seq<char>,
    value: ValueView,
) -> Seq<(Seq<char>, ValueView)> {
    match entry_index(entries, key) {
        Some(i) => entries.update(i, (entries[i].0, value)),
        None => entries.push((key, value)),
    }
}

/// The value of `key` among the entries.
pub open spec fn entries_get(entries: Seq<(Seq<char>, ValueView)>, key: Seq<char>) -> Option<ValueView> {
    match entry_index(entries, key) {
        Some(i) => Some(entries[i].1),
        None => None,
    }
}

/// An empty `indexmap::IndexMap::new`.
#[verifier::external_body]
pub(crate) fn tags_new() -> (r: indexmap::IndexMap<String, Value>)
    ensures
        tag_entries(r) == Seq::<(Seq<char>, ValueView)>::empty(),
{
    indexmap::IndexMap::new()
}

/// `indexmap::IndexMap::insert`: as its documentation says, an equal key
/// keeps its place and gets the new value, a new key goes last; the map
/// holds each key once.
#[verifier::external_body]
pub(crate) fn tags_insert(m: &mut indexmap::IndexMap<String, Value>, key: String, value: Value)
    ensures
        tag_entries(*final(m)) == entries_insert(tag_entries(*old(m)), key@, value@),
        keys_unique(tag_entries(*final(m))),
{
    m.insert(key, value);
}

/// `indexmap::IndexMap::get`: the value of an equal key, if any.
#[verifier::external_body]
pub(crate) fn tags_get<'a>(m: &'a indexmap::IndexMap<String, Value>, key: &str) -> (r: Option<&'a Value>)
    ensures
        match r {
            Some(v) => entries_get(tag_entries(*m), key@) == Some(v@),
            None => entries_get(tag_entries(*m), key@) is None,
        },
{
    m.get(key)
}

/// `indexmap::IndexMap::len`: the number of entries.
#[verifier::external_body]
pub(crate) fn tags_len(m: &indexmap::IndexMap<String, Value>) -> (r: usize)
    ensures
        r == tag_entries(*m).len(),
{
    m.len()
}

/// `indexmap::IndexMap::get_index`: the entry at a position; a map holds
/// each key once, so no other entry has its key.
#[verifier::external_body]
pub(crate) fn tags_get_index<'a>(m: &'a indexmap::IndexMap<String, Value>, i: usize) -> (r: (&'a String, &'a Value))
    requires
        i < tag_entries(*m).len(),
    ensures
        (r.0@, r.1@) == tag_entries(*m)[i as int],
        forall|j: int| 0 <= j < tag_entries(*m).len() && j != i ==> (#[trigger] tag_entries(*m)[j]).0 != r.0@,
{
    let (key, value) = m.get_index(i).unwrap();
    (key, value)
}

/// `indexmap::IndexMap::clone`: a map with the same entries, each key
/// once.
#[verifier::external_body]
pub(crate) fn tags_clone(m: &indexmap::IndexMap<String, Value>) -> (r: indexmap::IndexMap<String, Value>)
    ensures
        tag_entries(r) == tag_entries(*m),
        keys_unique(tag_entries(r)),
{
    m.clone()
}

/// The data of a node.
pub struct NodeData {
    pub node_type: String,
    pub tags: indexmap::IndexMap<String, Value>,
    pub text: String,
}

/// What a node's data holds.
pub struct NodeDataView {
    pub node_type: Seq<char>,
    pub tags: Seq<(Seq<char>, ValueView)>,
    pub text: Seq<char>,
}

impl View for NodeData {
    type V = NodeDataView;

    open spec fn view(&self) -> NodeDataView {
        NodeDataView { node_type: self.node_type@, tags: tag_entries(self.tags), text: self.text@ }
    }
}

/// Why a text tag cannot be read.
#[derive(Debug)]
pub enum TagError {
    /// No tag has the key.
    Missing(String),
    /// The tag with the key does not hold text.
    NotText(String),
}

impl NodeData {
    /// Data with an empty type, no tags and empty text.
    pub fn empty() -> (r: NodeData)
        ensures
            r@ == (NodeDataView { node_type: Seq::empty(), tags: Seq::empty(), text: Seq::empty() }),
    {
        NodeData { node_type: String::new(), tags: tags_new(), text: String::new() }
    }

    /// A copy of the data.
    pub fn duplicate(&self) -> (r: NodeData)
        ensures
            r@ == self@,
    {
        NodeData { node_type: self.node_type.clone(), tags: tags_clone(&self.tags), text: self.text.clone() }
    }

    /// The node's type.
    pub fn get_type(&self) -> (r: &str)
        ensures
            r@ == self.node_type@,
    {
        self.node_type.as_str()
    }

    /// The node's inner text.
    pub fn get_inner_text(&self) -> (r: &str)
        ensures
            r@ == self.text@,
    {
        self.text.as_str()
    }

    /// The text of the tag with key `key`.
    pub fn get_text_tag(&self, key: &str) -> (r: Result<&str, TagError>)
        ensures
            match entries_get(tag_entries(self.tags), key@) {
                Some(ValueView::Text(t)) => r matches Ok(s) && s@ == t,
                Some(_) => r matches Err(TagError::NotText(m)) && m@ == "Tag with key "@ + key@
                    + " on node is not a string"@,
                None => r matches Err(TagError::Missing(m)) && m@ == "Could not find tag with key "@
                    + key@ + " on node"@,
            },
    {
        match tags_get(&self.tags, key) {
            Some(Value::Text(text)) => Ok(text.as_str()),
            Some(_) => {
                let mut message = String::from_str("Tag with key ");
                message.append(key);
                message.append(" on node is not a string");
                Err(TagError::NotText(message))
            },
            None => {
                let mut message = String::from_str("Could not find tag with key ");
                message.append(key);
                message.append(" on node");
                Err(TagError::Missing(message))
            },
        }
    }
}

} // verus!
