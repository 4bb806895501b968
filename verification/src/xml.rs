//! Trees and xml: the events that write a tree as xml, and the state
//! machine that builds trees back from the events a reader hands it.

use vstd::prelude::*;
use crate::node::{entries_insert, tag_entries, tags_insert, tags_new, tags_clone, NodeData, NodeDataView, Value, ValueView};
use crate::inject::{all_digits, digits_value, parse_i32, spec_parse_i32};
use crate::table::{decimal, digit_char, digits, push_decimal};
use crate::text::{str_chars, string_push, text_eq};
use crate::tree::{node_view, Node, TreeView};

verus! {

broadcast use vstd::string::group_string_axioms;

/// An xml event: an element that opens, an element without content, an
/// element that closes, a text, the end of the input.
pub enum XmlEvent {
    Start(NodeData),
    Empty(NodeData),
    End(String),
    Text(String),
    Eof,
}

/// What an event holds.
pub enum XmlEventView {
    Start(NodeDataView),
    Empty(NodeDataView),
    End(Seq<char>),
    Text(Seq<char>),
    Eof,
}

impl View for XmlEvent {
    type V = XmlEventView;

    open spec fn view(&self) -> XmlEventView {
        match self {
            XmlEvent::Start(d) => XmlEventView::Start(d@),
            XmlEvent::Empty(d) => XmlEventView::Empty(d@),
            XmlEvent::End(n) => XmlEventView::End(n@),
            XmlEvent::Text(t) => XmlEventView::Text(t@),
            XmlEvent::Eof => XmlEventView::Eof,
        }
    }
}

/// Why events do not make a tree.
#[derive(Debug)]
pub enum XmlError {
    /// The node, of the type given, would hold both text and child nodes.
    TextAndChildren(String),
    /// An element closes that was never opened.
    UnmatchedEndTag(String),
    /// An element closes with another name than the one open.
    MismatchedEndTag { expected: String, found: String },
    /// The input ends while the element of the type given is open.
    MissingEndTag(String),
}

/// What an error holds.
pub enum XmlErrorView {
    TextAndChildren(Seq<char>),
    UnmatchedEndTag(Seq<char>),
    MismatchedEndTag { expected: Seq<char>, found: Seq<char> },
    MissingEndTag(Seq<char>),
}

impl View for XmlError {
    type V = XmlErrorView;

    open spec fn view(&self) -> XmlErrorView {
        match self {
            XmlError::TextAndChildren(n) => XmlErrorView::TextAndChildren(n@),
            XmlError::UnmatchedEndTag(n) => XmlErrorView::UnmatchedEndTag(n@),
            XmlError::MismatchedEndTag { expected, found } => XmlErrorView::MismatchedEndTag {
                expected: expected@,
                found: found@,
            },
            XmlError::MissingEndTag(n) => XmlErrorView::MissingEndTag(n@),
        }
    }
}

/// A character with the Unicode `White_Space` property, as
/// `char::is_whitespace` tells.
pub open spec fn is_white_space(c: char) -> bool {
    let u = c as u32;
    (0x9 <= u <= 0xD) || u == 0x20 || u == 0x85 || u == 0xA0 || u == 0x1680 || (0x2000 <= u <= 0x200A)
        || u == 0x2028 || u == 0x2029 || u == 0x202F || u == 0x205F || u == 0x3000
}

/// Every character of the text is white space.
pub open spec fn all_white_space(t: Seq<char>) -> bool {
    forall|i: int| 0 <= i < t.len() ==> is_white_space(#[trigger] t[i])
}

/// Whether `c` has the Unicode `White_Space` property.
pub fn char_is_white_space(c: char) -> (r: bool)
    ensures
        r == is_white_space(c),
{
    let u = c as u32;
    (0x9 <= u && u <= 0xD) || u == 0x20 || u == 0x85 || u == 0xA0 || u == 0x1680 || (0x2000 <= u && u <= 0x200A)
        || u == 0x2028 || u == 0x2029 || u == 0x202F || u == 0x205F || u == 0x3000
}

/// Whether every character of `t` is white space.
pub fn text_is_white_space(t: &str) -> (r: bool)
    ensures
        r == all_white_space(t@),
{
    let chars = str_chars(t);
    let mut i: usize = 0;
    while i < chars.len()
        invariant
            i <= chars@.len(),
            chars@ == t@,
            forall|j: int| 0 <= j < i ==> is_white_space(#[trigger] chars@[j]),
        decreases chars@.len() - i,
    {
        if !char_is_white_space(chars[i]) {
            return false;
        }
        i = i + 1;
    }
    true
}

/// A tree of one node without children.
pub open spec fn leaf(d: NodeDataView) -> TreeView {
    TreeView { data: d, children: Seq::empty() }
}

/// The tree with `child` added as its last child.
pub open spec fn with_child(t: TreeView, child: TreeView) -> TreeView {
    TreeView { data: t.data, children: t.children.push(child) }
}

/// The stack of open elements after one event, or the error it meets. The
/// bottom of the stack holds the finished top-level trees as its children.
pub open spec fn spec_step(stack: Seq<TreeView>, ev: XmlEventView) -> Result<Seq<TreeView>, XmlErrorView> {
    let top = stack.last();
    match ev {
        XmlEventView::Empty(d) => if top.data.text.len() > 0 {
            Err(XmlErrorView::TextAndChildren(top.data.node_type))
        } else {
            Ok(stack.update(stack.len() - 1, with_child(top, leaf(d))))
        },
        XmlEventView::Start(d) => if top.data.text.len() > 0 {
            Err(XmlErrorView::TextAndChildren(top.data.node_type))
        } else {
            Ok(stack.push(leaf(d)))
        },
        XmlEventView::End(name) => {
            let rest = stack.drop_last();
            if rest.len() == 0 {
                Err(XmlErrorView::UnmatchedEndTag(name))
            } else if top.data.node_type != name {
                Err(XmlErrorView::MismatchedEndTag { expected: top.data.node_type, found: name })
            } else {
                Ok(rest.update(rest.len() - 1, with_child(rest.last(), top)))
            }
        },
        XmlEventView::Text(t) => if all_white_space(t) {
            Ok(stack)
        } else if top.children.len() > 0 || top.data.text.len() > 0 {
            Err(XmlErrorView::TextAndChildren(top.data.node_type))
        } else {
            Ok(stack.update(stack.len() - 1, TreeView { data: NodeDataView { text: t, ..top.data }, children: top.children }))
        },
        XmlEventView::Eof => Ok(stack),
    }
}

/// The views of a stack of trees.
pub open spec fn stack_view(v: Seq<Node>) -> Seq<TreeView> {
    v.map_values(|n: Node| node_view(n))
}

/// Builds trees from the events of an xml reader, one event at a time.
pub struct TreeBuilder {
    stack: Vec<Node>,
}

impl TreeBuilder {
    /// The stack of open elements; its bottom holds the finished trees.
    pub closed spec fn stack(&self) -> Seq<TreeView> {
        stack_view(self.stack@)
    }

    /// Before any event: only the bottom of the stack, with empty data and
    /// no trees yet.
    pub fn new() -> (r: TreeBuilder)
        ensures
            r.stack() == seq![leaf(NodeDataView { node_type: Seq::empty(), tags: Seq::empty(), text: Seq::empty() })],
    {
        let mut stack: Vec<Node> = Vec::new();
        stack.push(Node { data: NodeData::empty(), children: Vec::new() });
        let r = TreeBuilder { stack };
        proof {
            assert(node_view(r.stack@[0]).children =~= Seq::<TreeView>::empty());
            assert(r.stack() =~= seq![leaf(NodeDataView { node_type: Seq::empty(), tags: Seq::empty(), text: Seq::empty() })]);
        }
        r
    }
}

fn add_child(parent: &mut Node, child: Node)
    ensures
        node_view(*final(parent)) == with_child(node_view(*old(parent)), node_view(child)),
{
    let ghost before = node_view(*parent);
    let ghost c = node_view(child);
    parent.children.push(child);
    proof {
        let after = node_view(*parent);
        assert(after.children =~= before.children.push(c)) by {
            assert forall|i: int| 0 <= i < after.children.len() implies after.children[i] == before.children.push(c)[i] by {
                if i < before.children.len() {
                    assert(parent.children@[i] == old(parent).children@[i]);
                }
            }
        }
    }
}

fn leaf_node(data: NodeData) -> (r: Node)
    ensures
        node_view(r) == leaf(data@),
{
    let r = Node { data, children: Vec::new() };
    proof {
        assert(node_view(r).children =~= Seq::<TreeView>::empty());
    }
    r
}

impl TreeBuilder {
    /// Takes in one event of the reader.
    pub fn step(&mut self, ev: XmlEvent) -> (r: Result<(), XmlError>)
        requires
            old(self).stack().len() >= 1,
        ensures
            match spec_step(old(self).stack(), ev@) {
                Ok(s) => r is Ok && final(self).stack() == s && s.len() >= 1,
                Err(e) => r matches Err(x) && x@ == e,
            },
    {
        let ghost s0 = self.stack();
        let ghost n0 = self.stack@.len();
        let mut top = self.stack.pop().unwrap();
        proof {
            assert(node_view(top) == s0.last());
            assert(stack_view(self.stack@) =~= s0.drop_last());
        }
        match ev {
            XmlEvent::Empty(d) => {
                if !top.data.text.as_str().is_empty() {
                    return Err(XmlError::TextAndChildren(top.data.node_type.clone()));
                }
                add_child(&mut top, leaf_node(d));
                self.stack.push(top);
                proof {
                    assert(self.stack() =~= s0.update(s0.len() - 1, with_child(s0.last(), leaf(ev@->Empty_0))));
                }
                Ok(())
            },
            XmlEvent::Start(d) => {
                if !top.data.text.as_str().is_empty() {
                    return Err(XmlError::TextAndChildren(top.data.node_type.clone()));
                }
                self.stack.push(top);
                self.stack.push(leaf_node(d));
                proof {
                    assert(self.stack() =~= s0.push(leaf(ev@->Start_0)));
                }
                Ok(())
            },
            XmlEvent::End(name) => {
                if self.stack.len() == 0 {
                    return Err(XmlError::UnmatchedEndTag(name));
                }
                if !crate::text::text_eq(top.data.node_type.as_str(), name.as_str()) {
                    return Err(XmlError::MismatchedEndTag { expected: top.data.node_type.clone(), found: name });
                }
                let mut parent = self.stack.pop().unwrap();
                let ghost rest = s0.drop_last();
                proof {
                    assert(node_view(parent) == rest.last());
                }
                add_child(&mut parent, top);
                self.stack.push(parent);
                proof {
                    assert(self.stack() =~= rest.update(rest.len() - 1, with_child(rest.last(), s0.last())));
                }
                Ok(())
            },
            XmlEvent::Text(t) => {
                if text_is_white_space(t.as_str()) {
                    self.stack.push(top);
                    proof {
                        assert(self.stack() =~= s0);
                    }
                    return Ok(());
                }
                if top.children.len() > 0 || !top.data.text.as_str().is_empty() {
                    return Err(XmlError::TextAndChildren(top.data.node_type.clone()));
                }
                let ghost before = node_view(top);
                top.data.text = t;
                proof {
                    assert(node_view(top).children =~= before.children);
                }
                self.stack.push(top);
                proof {
                    assert(self.stack() =~= s0.update(s0.len() - 1, TreeView {
                        data: NodeDataView { text: ev@->Text_0, ..s0.last().data },
                        children: s0.last().children,
                    }));
                }
                Ok(())
            },
            XmlEvent::Eof => {
                self.stack.push(top);
                proof {
                    assert(self.stack() =~= s0);
                }
                Ok(())
            },
        }
    }

    /// The trees read, once the input has ended: every element must be
    /// closed.
    pub fn finish(self) -> (r: Result<Vec<Node>, XmlError>)
        requires
            self.stack().len() >= 1,
        ensures
            if self.stack().len() == 1 {
                r matches Ok(v) && v@.map_values(|n: Node| node_view(n)) == self.stack()[0].children
            } else {
                r matches Err(e) && e@ == XmlErrorView::MissingEndTag(self.stack().last().data.node_type)
            },
    {
        let mut stack = self.stack;
        if stack.len() != 1 {
            let top = stack.pop().unwrap();
            return Err(XmlError::MissingEndTag(top.data.node_type));
        }
        let root = stack.pop().unwrap();
        let ghost rv = node_view(root);
        let r = root.children;
        proof {
            assert(r@.map_values(|n: Node| node_view(n)) =~= rv.children);
        }
        Ok(r)
    }
}

/// The data an element's opening event carries: its type and tags, but
/// not its text.
pub open spec fn start_data(d: NodeDataView) -> NodeDataView {
    NodeDataView { text: Seq::empty(), ..d }
}

/// The events that write a tree: an element with its text where it has
/// text (its children are then not written), else an element around its
/// children where it has some, else an empty element.
pub open spec fn tree_events(t: TreeView) -> Seq<XmlEventView>
    decreases t,
{
    if t.data.text.len() > 0 {
        seq![XmlEventView::Start(start_data(t.data)), XmlEventView::Text(t.data.text), XmlEventView::End(t.data.node_type)]
    } else if t.children.len() > 0 {
        seq![XmlEventView::Start(start_data(t.data))] + forest_events(t.children) + seq![XmlEventView::End(t.data.node_type)]
    } else {
        seq![XmlEventView::Empty(t.data)]
    }
}

/// The events that write a sequence of trees, one after the other.
pub open spec fn forest_events(f: Seq<TreeView>) -> Seq<XmlEventView>
    decreases f,
{
    if f.len() == 0 {
        Seq::empty()
    } else {
        forest_events(f.drop_last()) + tree_events(f.last())
    }
}

/// The views of a sequence of events.
pub open spec fn events_view(v: Seq<XmlEvent>) -> Seq<XmlEventView> {
    v.map_values(|e: XmlEvent| e@)
}

fn start_event_data(d: &NodeData) -> (r: NodeData)
    ensures
        r@ == start_data(d@),
{
    NodeData { node_type: d.node_type.clone(), tags: tags_clone(&d.tags), text: String::new() }
}

impl Node {
    /// Appends the events that write the tree.
    pub fn xml_events(&self, out: &mut Vec<XmlEvent>)
        ensures
            events_view(final(out)@) == events_view(old(out)@) + tree_events(self@),
        decreases self@,
    {
        let ghost before = events_view(out@);
        let ghost t = self@;
        if !self.data.text.as_str().is_empty() {
            out.push(XmlEvent::Start(start_event_data(&self.data)));
            out.push(XmlEvent::Text(self.data.text.clone()));
            out.push(XmlEvent::End(self.data.node_type.clone()));
            proof {
                assert(events_view(out@) =~= before + tree_events(t));
            }
        } else if self.children.len() > 0 {
            out.push(XmlEvent::Start(start_event_data(&self.data)));
            let ghost mid = events_view(out@);
            proof {
                assert(mid =~= before + seq![XmlEventView::Start(start_data(t.data))]);
            }
            let mut k: usize = 0;
            while k < self.children.len()
                invariant
                    k <= self.children@.len(),
                    t == self@,
                    t.children.len() == self.children@.len(),
                    events_view(out@) == mid + forest_events(t.children.take(k as int)),
                decreases self.children@.len() - k,
            {
                proof {
                    assert(t.children[k as int] == self.children@[k as int]@);
                    assert(t.children.take(k + 1).drop_last() =~= t.children.take(k as int));
                    assert(t.children.take(k + 1).last() == t.children[k as int]);
                }
                self.children[k].xml_events(out);
                proof {
                    assert(events_view(out@) =~= mid + forest_events(t.children.take(k + 1)));
                }
                k = k + 1;
            }
            out.push(XmlEvent::End(self.data.node_type.clone()));
            proof {
                assert(t.children.take(k as int) =~= t.children);
                let f = forest_events(t.children);
                let st = seq![XmlEventView::Start(start_data(t.data))];
                let en = seq![XmlEventView::End(t.data.node_type)];
                assert(events_view(out@) =~= (before + st + f) + en);
                assert(tree_events(t) == st + f + en);
                assert((before + st + f) + en =~= before + (st + f + en));
            }
        } else {
            out.push(XmlEvent::Empty(self.data.duplicate()));
            proof {
                assert(events_view(out@) =~= before + tree_events(t));
            }
        }
    }
}

/// The stack after a sequence of events, or the first error met.
pub open spec fn run_events(s: Seq<TreeView>, evs: Seq<XmlEventView>) -> Result<Seq<TreeView>, XmlErrorView>
    decreases evs.len(),
{
    if evs.len() == 0 {
        Ok(s)
    } else {
        match spec_step(s, evs[0]) {
            Err(e) => Err(e),
            Ok(s2) => run_events(s2, evs.drop_first()),
        }
    }
}

proof fn lemma_run_concat(s: Seq<TreeView>, a: Seq<XmlEventView>, b: Seq<XmlEventView>)
    ensures
        run_events(s, a + b) == match run_events(s, a) {
            Ok(s2) => run_events(s2, b),
            Err(e) => Err(e),
        },
    decreases a.len(),
{
    if a.len() == 0 {
        assert(a + b =~= b);
    } else {
        assert((a + b)[0] == a[0]);
        assert((a + b).drop_first() =~= a.drop_first() + b);
        if let Ok(s2) = spec_step(s, a[0]) {
            lemma_run_concat(s2, a.drop_first(), b);
        }
    }
}

/// A tree that xml keeps: a node with text has no children, since only
/// the text is written, and its text is not all white space, which a
/// reader passes over; and so for every node.
pub open spec fn writable(t: TreeView) -> bool
    decreases t,
{
    &&& (t.data.text.len() > 0 ==> t.children.len() == 0 && !all_white_space(t.data.text))
    &&& forest_writable(t.children)
}

/// Every tree of the sequence is one that xml keeps.
pub open spec fn forest_writable(f: Seq<TreeView>) -> bool
    decreases f,
{
    f.len() > 0 ==> forest_writable(f.drop_last()) && writable(f.last())
}

/// The tree with `f` added after its children.
pub open spec fn with_children(t: TreeView, f: Seq<TreeView>) -> TreeView {
    TreeView { data: t.data, children: t.children + f }
}

proof fn lemma_tree_events(s: Seq<TreeView>, t: TreeView)
    requires
        s.len() >= 1,
        s.last().data.text.len() == 0,
        writable(t),
    ensures
        run_events(s, tree_events(t)) == Ok::<Seq<TreeView>, XmlErrorView>(s.update(s.len() - 1, with_child(s.last(), t))),
    decreases t,
{
    let sd = start_data(t.data);
    let evs = tree_events(t);
    if t.data.text.len() > 0 {
        let s1 = s.push(leaf(sd));
        let s2 = s.push(TreeView { data: t.data, children: Seq::empty() });
        assert(NodeDataView { text: t.data.text, ..sd } == t.data);
        assert(spec_step(s, evs[0]) == Ok::<Seq<TreeView>, XmlErrorView>(s1));
        assert(s1.update(s1.len() - 1, TreeView { data: NodeDataView { text: t.data.text, ..s1.last().data }, children: s1.last().children }) =~= s2);
        assert(evs.drop_first()[0] == XmlEventView::Text(t.data.text));
        assert(spec_step(s1, evs.drop_first()[0]) == Ok::<Seq<TreeView>, XmlErrorView>(s2));
        assert(evs.drop_first().drop_first()[0] == XmlEventView::End(t.data.node_type));
        assert(s2.drop_last() =~= s);
        assert(t.children =~= Seq::<TreeView>::empty());
        assert(s2.last() == t);
        assert(evs.drop_first().drop_first().drop_first() =~= Seq::<XmlEventView>::empty());
        let s3 = s.update(s.len() - 1, with_child(s.last(), t));
        assert(spec_step(s2, evs.drop_first().drop_first()[0]) == Ok::<Seq<TreeView>, XmlErrorView>(s3));
        assert(run_events(s3, evs.drop_first().drop_first().drop_first()) == Ok::<Seq<TreeView>, XmlErrorView>(s3));
        assert(run_events(s2, evs.drop_first().drop_first()) == Ok::<Seq<TreeView>, XmlErrorView>(s3));
        assert(run_events(s1, evs.drop_first()) == Ok::<Seq<TreeView>, XmlErrorView>(s3));
    } else if t.children.len() > 0 {
        assert(t.data.text =~= Seq::<char>::empty());
        assert(sd == t.data);
        let s1 = s.push(leaf(sd));
        let st = seq![XmlEventView::Start(sd)];
        let f = forest_events(t.children);
        let en = seq![XmlEventView::End(t.data.node_type)];
        assert(evs == st + f + en);
        lemma_run_concat(s, st + f, en);
        lemma_run_concat(s, st, f);
        assert(st.drop_first() =~= Seq::<XmlEventView>::empty());
        assert(st[0] == XmlEventView::Start(sd));
        assert(spec_step(s, st[0]) == Ok::<Seq<TreeView>, XmlErrorView>(s1));
        assert(run_events(s1, st.drop_first()) == Ok::<Seq<TreeView>, XmlErrorView>(s1));
        assert(run_events(s, st) == Ok::<Seq<TreeView>, XmlErrorView>(s1));
        lemma_forest_events(s1, t.children);
        let s2 = s1.update(s1.len() - 1, with_children(s1.last(), t.children));
        assert(leaf(sd).children + t.children =~= t.children);
        assert(s2 =~= s.push(t));
        assert(en.drop_first() =~= Seq::<XmlEventView>::empty());
        assert(s2.drop_last() =~= s);
        assert(s2.last() == t);
        let s3 = s.update(s.len() - 1, with_child(s.last(), t));
        assert(en[0] == XmlEventView::End(t.data.node_type));
        assert(spec_step(s2, en[0]) == Ok::<Seq<TreeView>, XmlErrorView>(s3));
        assert(run_events(s3, en.drop_first()) == Ok::<Seq<TreeView>, XmlErrorView>(s3));
        assert(run_events(s2, en) == Ok::<Seq<TreeView>, XmlErrorView>(s3));
        assert(run_events(s1, f) == Ok::<Seq<TreeView>, XmlErrorView>(s2));
        assert(run_events(s, st + f) == Ok::<Seq<TreeView>, XmlErrorView>(s2));
    } else {
        assert(t.children =~= Seq::<TreeView>::empty());
        assert(leaf(t.data) =~= t);
        assert(evs.drop_first() =~= Seq::<XmlEventView>::empty());
        let s3 = s.update(s.len() - 1, with_child(s.last(), t));
        assert(spec_step(s, evs[0]) == Ok::<Seq<TreeView>, XmlErrorView>(s3));
        assert(run_events(s3, evs.drop_first()) == Ok::<Seq<TreeView>, XmlErrorView>(s3));
    }
}

proof fn lemma_forest_events(s: Seq<TreeView>, f: Seq<TreeView>)
    requires
        s.len() >= 1,
        s.last().data.text.len() == 0,
        forest_writable(f),
    ensures
        run_events(s, forest_events(f)) == Ok::<Seq<TreeView>, XmlErrorView>(s.update(s.len() - 1, with_children(s.last(), f))),
    decreases f,
{
    if f.len() == 0 {
        assert(s.update(s.len() - 1, with_children(s.last(), f)) =~= s) by {
            assert(with_children(s.last(), f) =~= s.last());
        }
    } else {
        lemma_forest_events(s, f.drop_last());
        lemma_run_concat(s, forest_events(f.drop_last()), tree_events(f.last()));
        let s1 = s.update(s.len() - 1, with_children(s.last(), f.drop_last()));
        lemma_tree_events(s1, f.last());
        let x = s.last();
        assert(s1.len() == s.len());
        assert(s1.last() == with_children(x, f.drop_last()));
        assert((x.children + f.drop_last()).push(f.last()) =~= x.children + f);
        assert(with_child(with_children(x, f.drop_last()), f.last()) =~= with_children(x, f));
        assert(s1.update(s1.len() - 1, with_child(s1.last(), f.last())) =~= s.update(s.len() - 1, with_children(s.last(), f)));
    }
}

/// The bottom of the stack before any event.
pub open spec fn empty_root() -> TreeView {
    leaf(NodeDataView { node_type: Seq::empty(), tags: Seq::empty(), text: Seq::empty() })
}

/// Reading back the events written for a tree that xml keeps gives the
/// tree, as the one tree read.
pub proof fn lemma_xml_reads_back(t: TreeView)
    requires
        writable(t),
    ensures
        run_events(seq![empty_root()], tree_events(t)) == Ok::<Seq<TreeView>, XmlErrorView>(seq![with_child(empty_root(), t)]),
{
    lemma_tree_events(seq![empty_root()], t);
    assert(seq![empty_root()].update(0, with_child(empty_root(), t)) =~= seq![with_child(empty_root(), t)]);
}

/// The text an attribute holds for a value; a float is written by the
/// caller, so it has none here.
pub open spec fn value_text(v: ValueView) -> Option<Seq<char>> {
    match v {
        ValueView::Node(x) => Some("NODE"@ + decimal(x as int)),
        ValueView::Text(t) => Some(t),
        ValueView::Float(_) => None,
        ValueView::Int(x) => Some(decimal(x as int)),
        ValueView::Bool(b) => Some(if b { "true"@ } else { "false"@ }),
    }
}

/// The value an attribute's text stands for: `true` and `false` are
/// booleans, `NODE` and an `i32` a node reference, an `i32` an integer, a
/// text that parses as an `f32` (its bits given in `float_bits`) a float,
/// anything else text.
pub open spec fn spec_value_from_str(s: Seq<char>, float_bits: Option<i32>) -> ValueView {
    if s == "true"@ {
        ValueView::Bool(true)
    } else if s == "false"@ {
        ValueView::Bool(false)
    } else if s.len() >= 4 && s.take(4) == "NODE"@ && spec_parse_i32(s.skip(4)) is Some {
        ValueView::Node(spec_parse_i32(s.skip(4)).unwrap())
    } else if spec_parse_i32(s) is Some {
        ValueView::Int(spec_parse_i32(s).unwrap())
    } else if float_bits is Some {
        ValueView::Float(float_bits.unwrap())
    } else {
        ValueView::Text(s)
    }
}

impl Value {
    /// The value an attribute's text stands for. `float_bits` holds the
    /// bits of the `f32` that the text parses as, where it parses as one.
    pub fn from_str(string: String, float_bits: Option<i32>) -> (r: Value)
        ensures
            r@ == spec_value_from_str(string@, float_bits),
    {
        proof {
            reveal_strlit("NODE");
        }
        if text_eq(string.as_str(), "true") {
            return Value::Bool(true);
        }
        if text_eq(string.as_str(), "false") {
            return Value::Bool(false);
        }
        let chars = str_chars(string.as_str());
        if chars.len() >= 4 && chars[0] == 'N' && chars[1] == 'O' && chars[2] == 'D' && chars[3] == 'E' {
            proof {
                assert(chars@.take(4) =~= "NODE"@);
            }
            let mut suffix = String::new();
            let mut k: usize = 4;
            while k < chars.len()
                invariant
                    4 <= k <= chars@.len(),
                    suffix@ == chars@.subrange(4, k as int),
                decreases chars@.len() - k,
            {
                string_push(&mut suffix, chars[k]);
                proof {
                    assert(suffix@ =~= chars@.subrange(4, k + 1));
                }
                k = k + 1;
            }
            proof {
                assert(suffix@ =~= string@.skip(4));
            }
            if let Some(v) = parse_i32(suffix.as_str()) {
                return Value::Node(v);
            }
        } else {
            proof {
                if chars@.len() >= 4 {
                    assert(chars@.take(4) != "NODE"@) by {
                        if chars@.take(4) == "NODE"@ {
                            assert(chars@.take(4)[0] == 'N' && chars@.take(4)[1] == 'O');
                            assert(chars@.take(4)[2] == 'D' && chars@.take(4)[3] == 'E');
                        }
                    }
                }
            }
        }
        if let Some(v) = parse_i32(string.as_str()) {
            return Value::Int(v);
        }
        if let Some(bits) = float_bits {
            return Value::Float(bits);
        }
        Value::Text(string)
    }

    /// The text an attribute holds for the value; `None` for a float,
    /// which the caller writes.
    pub fn to_text(&self) -> (r: Option<String>)
        ensures
            match value_text(self@) {
                Some(t) => r matches Some(x) && x@ == t,
                None => r is None,
            },
    {
        match self {
            Value::Node(x) => {
                let mut s = String::from_str("NODE");
                push_decimal(&mut s, *x);
                Some(s)
            },
            Value::Text(t) => Some(t.clone()),
            Value::Float(_) => None,
            Value::Int(x) => {
                let mut s = String::new();
                push_decimal(&mut s, *x);
                Some(s)
            },
            Value::Bool(b) => if *b {
                Some(String::from_str("true"))
            } else {
                Some(String::from_str("false"))
            },
        }
    }
}

proof fn lemma_digits_parse(n: nat)
    ensures
        digits(n).len() > 0,
        all_digits(digits(n)),
        digits_value(digits(n)) == n,
        '0' <= digits(n)[0] <= '9',
    decreases n,
{
    if n >= 10 {
        lemma_digits_parse(n / 10);
        let d = digits(n);
        assert(d.drop_last() =~= digits(n / 10));
        assert(d.last() == digit_char((n % 10) as int));
        assert forall|i: int| 0 <= i < d.len() implies '0' <= #[trigger] d[i] <= '9' by {
            if i < d.len() - 1 {
                assert(d[i] == digits(n / 10)[i]);
            }
        }
        assert(d[0] == digits(n / 10)[0]);
        assert(digit_char((n % 10) as int) as int == 48 + n % 10);
        assert(digits_value(d) == digits_value(d.drop_last()) * 10 + (d.last() as int - '0' as int));
        assert(digits_value(d.drop_last()) == n / 10);
        assert((n / 10) * 10 + n % 10 == n);
    } else {
        assert(digits(n).drop_last() =~= Seq::<char>::empty());
        assert(digit_char(n as int) as int == 48 + n);
        assert(digits_value(digits(n).drop_last()) == 0);
        assert(digits(n).last() == digit_char(n as int));
    }
}

proof fn lemma_decimal_parse(x: i32)
    ensures
        spec_parse_i32(decimal(x as int)) == Some(x),
        decimal(x as int).len() > 0,
        decimal(x as int)[0] == '-' || '0' <= decimal(x as int)[0] <= '9',
{
    if x < 0 {
        lemma_digits_parse((-x) as nat);
        let d = decimal(x as int);
        assert(d.drop_first() =~= digits((-x) as nat));
    } else {
        lemma_digits_parse(x as nat);
    }
}

/// The text of a node reference, integer or boolean value reads back as the
/// value.
pub proof fn lemma_value_text_reads_back(v: ValueView, float_bits: Option<i32>)
    requires
        !(v is Text),
        !(v is Float),
    ensures
        value_text(v) matches Some(t) && spec_value_from_str(t, float_bits) == v,
{
    reveal_strlit("NODE");
    reveal_strlit("true");
    reveal_strlit("false");
    match v {
        ValueView::Node(x) => {
            lemma_decimal_parse(x);
            let t = "NODE"@ + decimal(x as int);
            assert(t.take(4) =~= "NODE"@);
            assert(t.skip(4) =~= decimal(x as int));
            assert(t[0] == 'N');
            assert(t != "true"@ && t != "false"@) by {
                assert("true"@[0] == 't' && "false"@[0] == 'f');
            }
        },
        ValueView::Int(x) => {
            lemma_decimal_parse(x);
            let t = decimal(x as int);
            assert(t != "true"@ && t != "false"@) by {
                assert("true"@[0] == 't' && "false"@[0] == 'f');
            }
            if t.len() >= 4 && t.take(4) == "NODE"@ {
                assert(t.take(4)[0] == t[0]);
            }
        },
        ValueView::Bool(b) => {
            assert("true"@ != "false"@) by {
                assert("true"@.len() != "false"@.len());
            }
        },
        _ => {},
    }
}

/// The tag entries of an element's attributes: each put into the map in
/// order, a repeated key keeping its first place and taking the later
/// value.
pub open spec fn attribute_entries(attrs: Seq<(Seq<char>, ValueView)>) -> Seq<(Seq<char>, ValueView)>
    decreases attrs.len(),
{
    if attrs.len() == 0 {
        Seq::empty()
    } else {
        entries_insert(attribute_entries(attrs.drop_last()), attrs.last().0, attrs.last().1)
    }
}

impl NodeData {
    /// The data of an element: its name as the type, its attributes as
    /// tags, and no text.
    pub fn from_element(name: String, attributes: Vec<(String, Value)>) -> (r: NodeData)
        ensures
            r@ == (NodeDataView {
                node_type: name@,
                tags: attribute_entries(attributes@.map_values(|a: (String, Value)| (a.0@, a.1@))),
                text: Seq::empty(),
            }),
    {
        let ghost av = attributes@.map_values(|a: (String, Value)| (a.0@, a.1@));
        let mut tags = tags_new();
        let mut k: usize = 0;
        proof {
            assert(av.take(0) =~= Seq::<(Seq<char>, ValueView)>::empty());
        }
        while k < attributes.len()
            invariant
                k <= attributes@.len(),
                av == attributes@.map_values(|a: (String, Value)| (a.0@, a.1@)),
                tag_entries(tags) == attribute_entries(av.take(k as int)),
            decreases attributes@.len() - k,
        {
            proof {
                assert(av.take(k + 1).drop_last() =~= av.take(k as int));
                assert(av.take(k + 1).last() == av[k as int]);
            }
            let key = attributes[k].0.clone();
            let value = attributes[k].1.duplicate();
            tags_insert(&mut tags, key, value);
            k = k + 1;
        }
        proof {
            assert(av.take(k as int) =~= av);
        }
        NodeData { node_type: name, tags, text: String::new() }
    }
}

} // verus!
