//! `jxk` archives: a `jxb` tree of which some nodes stand for files, and
//! the place and size of each such file's data in the archive.

use vstd::prelude::*;
use crate::jxb::{result_matches_data, spec_node_data, FormatError, Jxb};
use crate::node::{entries_get, tag_entries, NodeData, NodeDataView, TagError, ValueView};
use crate::text::{str_chars, string_push, text_eq};
use crate::tree::{pointers_wf, tree_at, FlatView, Node};

verus! {

broadcast use vstd::string::group_string_axioms;

/// Where a file's data is: the index of its node, and the offset and size
/// of its bytes in the archive.
#[derive(Clone, Copy)]
pub struct FileMetadata {
    pub node_index: i32,
    pub data_offset: i32,
    pub data_size: i32,
}

/// An archive: the table of its files and its tree.
pub struct Jxk {
    pub file_metadatas: Vec<FileMetadata>,
    pub jxb: Jxb,
}

/// The indexes of the nodes of type `file`, in order, among the first `k`
/// nodes.
pub open spec fn file_node_indexes(ds: Seq<NodeDataView>) -> Seq<int>
    decreases ds.len(),
{
    if ds.len() == 0 {
        Seq::empty()
    } else if ds.last().node_type == "file"@ {
        file_node_indexes(ds.drop_last()).push(ds.len() - 1)
    } else {
        file_node_indexes(ds.drop_last())
    }
}

impl Jxk {
    /// An archive of a tree, with one entry for each node of type `file`,
    /// in order; the offsets and sizes are zero until the files are placed.
    pub fn new(jxb: Jxb) -> (r: Result<Jxk, FormatError>)
        requires
            jxb.string_pool.wf(),
            jxb.node_data_bs@.len() <= i32::MAX,
        ensures
            match jxb.spec_node_list() {
                Err(m) => r matches Err(FormatError::InvalidData(e)) && e@ == m,
                Ok(ds) => r matches Ok(k) && k.jxb == jxb
                    && k.file_metadatas@.len() == file_node_indexes(ds).len()
                    && forall|i: int| 0 <= i < k.file_metadatas@.len() ==> #[trigger] k.file_metadatas@[i]
                        == (FileMetadata { node_index: file_node_indexes(ds)[i] as i32, data_offset: 0, data_size: 0 }),
            },
    {
        let node_list = match jxb.node_list() {
            Ok(l) => l,
            Err(e) => {
                return Err(e);
            },
        };
        let ghost ds = node_list@.map_values(|n: NodeData| n@);
        proof {
            crate::jxb::lemma_decode_all_len(crate::jxb::bs_view(jxb.node_data_bs@), jxb.string_pool.utf8_view(), jxb.string_pool.text_view());
            assert(ds.len() == node_list@.len());
        }
        let mut file_metadatas: Vec<FileMetadata> = Vec::new();
        let mut i: usize = 0;
        proof {
            assert(ds.take(0) =~= Seq::<NodeDataView>::empty());
        }
        while i < node_list.len()
            invariant
                i <= node_list@.len(),
                node_list@.len() <= i32::MAX,
                ds == node_list@.map_values(|n: NodeData| n@),
                file_metadatas@.len() == file_node_indexes(ds.take(i as int)).len(),
                forall|k: int| 0 <= k < file_metadatas@.len() ==> #[trigger] file_metadatas@[k]
                    == (FileMetadata { node_index: file_node_indexes(ds.take(i as int))[k] as i32, data_offset: 0, data_size: 0 }),
                forall|k: int| 0 <= k < file_node_indexes(ds.take(i as int)).len() ==> 0 <= #[trigger] file_node_indexes(ds.take(i as int))[k] < i,
            decreases node_list@.len() - i,
        {
            proof {
                assert(ds.take(i + 1).drop_last() =~= ds.take(i as int));
                assert(ds.take(i + 1).last() == node_list@[i as int]@);
                reveal_strlit("file");
            }
            if text_eq(node_list[i].get_type(), "file") {
                file_metadatas.push(FileMetadata { node_index: i as i32, data_offset: 0, data_size: 0 });
            }
            i = i + 1;
        }
        proof {
            assert(ds.take(i as int) =~= ds);
        }
        Ok(Jxk { file_metadatas, jxb })
    }
}

/// The part of a name after its last backslash; all of it where it has
/// none.
pub open spec fn after_last_backslash(s: Seq<char>) -> Seq<char>
    decreases s.len(),
{
    if s.len() == 0 {
        s
    } else if s.last() == '\\' {
        Seq::empty()
    } else {
        after_last_backslash(s.drop_last()).push(s.last())
    }
}

/// The part of a name after its last backslash; all of it where it has
/// none.
pub fn trimmed_file_name(s: &str) -> (r: String)
    ensures
        r@ == after_last_backslash(s@),
{
    let chars = str_chars(s);
    let mut start: usize = 0;
    let mut i: usize = 0;
    while i < chars.len()
        invariant
            i <= chars@.len(),
            chars@ == s@,
            start <= i,
            chars@.subrange(start as int, i as int) == after_last_backslash(chars@.take(i as int)),
        decreases chars@.len() - i,
    {
        proof {
            assert(chars@.take(i + 1).drop_last() =~= chars@.take(i as int));
            assert(chars@.take(i + 1).last() == chars@[i as int]);
        }
        if chars[i] == '\\' {
            start = i + 1;
            proof {
                assert(chars@.subrange(start as int, i + 1) =~= Seq::<char>::empty());
            }
        } else {
            proof {
                assert(chars@.subrange(start as int, i + 1) =~= chars@.subrange(start as int, i as int).push(chars@[i as int]));
            }
        }
        i = i + 1;
    }
    proof {
        assert(chars@.take(i as int) =~= chars@);
    }
    let mut out = String::new();
    let mut k: usize = start;
    while k < chars.len()
        invariant
            start <= k <= chars@.len(),
            out@ == chars@.subrange(start as int, k as int),
        decreases chars@.len() - k,
    {
        string_push(&mut out, chars[k]);
        proof {
            assert(out@ =~= chars@.subrange(start as int, k + 1));
        }
        k = k + 1;
    }
    out
}

/// The name a file node gives its file, or the message of the error: the
/// node must have type `file` and a text tag `name`; the name is what
/// follows its last backslash.
pub open spec fn spec_file_name(d: NodeDataView) -> Result<Seq<char>, Seq<char>> {
    if d.node_type != "file"@ {
        Err("jxk file metadata links to non-file node!"@)
    } else {
        match entries_get(d.tags, "name"@) {
            Some(ValueView::Text(t)) => Ok(after_last_backslash(t)),
            Some(_) => Err("Tag with key "@ + "name"@ + " on node is not a string"@),
            None => Err("Could not find tag with key "@ + "name"@ + " on node"@),
        }
    }
}

/// The name a file node gives its file.
pub fn file_name_of(data: &NodeData) -> (r: Result<String, FormatError>)
    ensures
        match spec_file_name(data@) {
            Ok(n) => r matches Ok(x) && x@ == n,
            Err(m) => r matches Err(FormatError::InvalidData(e)) && e@ == m,
        },
{
    if !text_eq(data.get_type(), "file") {
        return Err(FormatError::InvalidData(String::from_str("jxk file metadata links to non-file node!")));
    }
    match data.get_text_tag("name") {
        Ok(name) => Ok(trimmed_file_name(name)),
        Err(TagError::Missing(m)) => Err(FormatError::InvalidData(m)),
        Err(TagError::NotText(m)) => Err(FormatError::InvalidData(m)),
    }
}

impl Jxk {
    /// The tree of the archive.
    pub fn jxb(&self) -> (r: &Jxb)
        ensures
            *r == self.jxb,
    {
        &self.jxb
    }

    /// The tree rooted at the first node, where the decoded pointers are
    /// sound.
    pub fn root_node(&self) -> (r: Result<Node, FormatError>)
        requires
            self.jxb.wf(),
            self.jxb.node_data_bs@.len() > 0,
            self.jxb.spec_flat_list() matches Ok(l) ==> pointers_wf(l),
        ensures
            match self.jxb.spec_flat_list() {
                Ok(l) => r matches Ok(n) && n@ == tree_at(l, 0),
                Err(m) => r matches Err(FormatError::InvalidData(e)) && e@ == m,
            },
    {
        self.jxb.root_node()
    }

    /// Each file's entry points at a node of the tree.
    pub open spec fn entries_in_range(&self) -> bool {
        forall|i: int| 0 <= i < self.file_metadatas@.len() ==> 0 <= (#[trigger] self.file_metadatas@[i]).node_index
            < self.jxb.node_data_bs@.len()
    }

    /// The data of each file's node with the file's entry, in order.
    pub fn get_metadatas(&self) -> (r: Result<Vec<(NodeData, FileMetadata)>, FormatError>)
        requires
            self.jxb.string_pool.wf(),
            self.entries_in_range(),
        ensures
            match r {
                Ok(v) => v@.len() == self.file_metadatas@.len() && forall|i: int| 0 <= i < v@.len() ==> {
                    &&& (#[trigger] v@[i]).1 == self.file_metadatas@[i]
                    &&& spec_node_data(self.jxb.node_data_bs@[self.file_metadatas@[i].node_index as int]@,
                        self.jxb.string_pool.utf8_view(), self.jxb.string_pool.text_view()) == Ok::<NodeDataView, Seq<char>>(v@[i].0@)
                },
                Err(FormatError::InvalidData(e)) => exists|i: int| 0 <= i < self.file_metadatas@.len()
                    && spec_node_data(self.jxb.node_data_bs@[(#[trigger] self.file_metadatas@[i]).node_index as int]@,
                    self.jxb.string_pool.utf8_view(), self.jxb.string_pool.text_view()) == Err::<NodeDataView, Seq<char>>(e@)
                    && forall|j: int| 0 <= j < i ==> spec_node_data(self.jxb.node_data_bs@[(#[trigger] self.file_metadatas@[j]).node_index as int]@,
                    self.jxb.string_pool.utf8_view(), self.jxb.string_pool.text_view()) is Ok,
                Err(FormatError::TooLarge) => false,
            },
    {
        let mut out: Vec<(NodeData, FileMetadata)> = Vec::new();
        let mut i: usize = 0;
        while i < self.file_metadatas.len()
            invariant
                self.jxb.string_pool.wf(),
                self.entries_in_range(),
                i <= self.file_metadatas@.len(),
                out@.len() == i,
                forall|k: int| 0 <= k < i ==> {
                    &&& (#[trigger] out@[k]).1 == self.file_metadatas@[k]
                    &&& spec_node_data(self.jxb.node_data_bs@[self.file_metadatas@[k].node_index as int]@,
                        self.jxb.string_pool.utf8_view(), self.jxb.string_pool.text_view()) == Ok::<NodeDataView, Seq<char>>(out@[k].0@)
                },
            decreases self.file_metadatas@.len() - i,
        {
            let metadata = self.file_metadatas[i];
            match self.jxb.get_node_data(metadata.node_index) {
                Ok(d) => {
                    out.push((d, metadata));
                },
                Err(e) => {
                    proof {
                        assert forall|j: int| 0 <= j < i implies spec_node_data(self.jxb.node_data_bs@[(#[trigger] self.file_metadatas@[j]).node_index as int]@,
                            self.jxb.string_pool.utf8_view(), self.jxb.string_pool.text_view()) is Ok by {
                            assert(out@[j].1 == self.file_metadatas@[j]);
                        }
                    }
                    return Err(e);
                },
            }
            i = i + 1;
        }
        Ok(out)
    }

    /// The name the node of the `i`th entry gives its file, or the message
    /// of the error.
    pub open spec fn spec_entry_file_name(&self, i: int) -> Result<Seq<char>, Seq<char>> {
        match spec_node_data(self.jxb.node_data_bs@[self.file_metadatas@[i].node_index as int]@,
            self.jxb.string_pool.utf8_view(), self.jxb.string_pool.text_view()) {
            Ok(d) => spec_file_name(d),
            Err(m) => Err(m),
        }
    }

    /// The name of each file, in order: each entry's node must be a file
    /// node with a text tag `name`.
    pub fn stored_file_names(&self) -> (r: Result<Vec<String>, FormatError>)
        requires
            self.jxb.string_pool.wf(),
            self.entries_in_range(),
        ensures
            match r {
                Ok(v) => v@.len() == self.file_metadatas@.len() && forall|i: int| 0 <= i < v@.len()
                    ==> self.spec_entry_file_name(i) == Ok::<Seq<char>, Seq<char>>((#[trigger] v@[i])@),
                Err(FormatError::InvalidData(e)) => exists|i: int| 0 <= i < self.file_metadatas@.len()
                    && #[trigger] self.spec_entry_file_name(i) == Err::<Seq<char>, Seq<char>>(e@)
                    && forall|j: int| 0 <= j < i ==> (#[trigger] self.spec_entry_file_name(j)) is Ok,
                Err(FormatError::TooLarge) => false,
            },
    {
        let mut out: Vec<String> = Vec::new();
        let mut i: usize = 0;
        while i < self.file_metadatas.len()
            invariant
                self.jxb.string_pool.wf(),
                self.entries_in_range(),
                i <= self.file_metadatas@.len(),
                out@.len() == i,
                forall|k: int| 0 <= k < i ==> self.spec_entry_file_name(k) == Ok::<Seq<char>, Seq<char>>((#[trigger] out@[k])@),
            decreases self.file_metadatas@.len() - i,
        {
            let metadata = self.file_metadatas[i];
            let d = match self.jxb.get_node_data(metadata.node_index) {
                Ok(d) => d,
                Err(e) => {
                    proof {
                        assert(self.spec_entry_file_name(i as int) == Err::<Seq<char>, Seq<char>>(e->InvalidData_0@));
                        assert forall|j: int| 0 <= j < i implies (#[trigger] self.spec_entry_file_name(j)) is Ok by {
                            assert(self.spec_entry_file_name(j) == Ok::<Seq<char>, Seq<char>>(out@[j]@));
                        }
                    }
                    return Err(e);
                },
            };
            match file_name_of(&d) {
                Ok(name) => {
                    out.push(name);
                },
                Err(e) => {
                    proof {
                        assert(self.spec_entry_file_name(i as int) == Err::<Seq<char>, Seq<char>>(e->InvalidData_0@));
                        assert forall|j: int| 0 <= j < i implies (#[trigger] self.spec_entry_file_name(j)) is Ok by {
                            assert(self.spec_entry_file_name(j) == Ok::<Seq<char>, Seq<char>>(out@[j]@));
                        }
                    }
                    return Err(e);
                },
            }
            i = i + 1;
        }
        Ok(out)
    }
}

impl Jxk {
    /// Whether each file's entry points at a node of the tree.
    pub fn check_entries(&self) -> (r: bool)
        ensures
            r == self.entries_in_range(),
    {
        let n = self.jxb.node_data_bs.len();
        let mut i: usize = 0;
        while i < self.file_metadatas.len()
            invariant
                i <= self.file_metadatas@.len(),
                n == self.jxb.node_data_bs@.len(),
                forall|k: int| 0 <= k < i ==> 0 <= (#[trigger] self.file_metadatas@[k]).node_index < n,
            decreases self.file_metadatas@.len() - i,
        {
            let index = self.file_metadatas[i].node_index;
            if index < 0 || index as u64 >= n as u64 {
                return false;
            }
            i = i + 1;
        }
        true
    }
}

} // verus!
