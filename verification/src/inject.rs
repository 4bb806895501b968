//! Rows of a text table to put back into files: reading them from csv
//! text, and grouping them by the file they belong to.

use vstd::prelude::*;
use crate::csv::{csv_at, parse_csv, rows_view};
use crate::jxb::{FormatError, Jxb};
use crate::encode::{child_ranges_fit, file_fits, is_v2, jxb_encodes};
use crate::node::{tags_len, NodeDataView};
use crate::tree::{flat_view, FlatView, NodeDataWithPointers};
use crate::strset::{set_insert, strictly_sorted, texts};
use crate::text::str_chars;

verus! {

broadcast use vstd::string::group_string_axioms;

/// A row of a text table to put into a file: the file, the index of the
/// node, its type, its original text and the text to put in.
pub struct InjectRow {
    pub file_name: String,
    pub index: i32,
    pub node_type: String,
    pub original_text: String,
    pub inject_text: String,
}

/// What a row holds.
pub struct InjectRowView {
    pub file_name: Seq<char>,
    pub index: i32,
    pub node_type: Seq<char>,
    pub original_text: Seq<char>,
    pub inject_text: Seq<char>,
}

impl View for InjectRow {
    type V = InjectRowView;

    open spec fn view(&self) -> InjectRowView {
        InjectRowView {
            file_name: self.file_name@,
            index: self.index,
            node_type: self.node_type@,
            original_text: self.original_text@,
            inject_text: self.inject_text@,
        }
    }
}

/// The value of a sequence of decimal digits.
pub open spec fn digits_value(ds: Seq<char>) -> int
    decreases ds.len(),
{
    if ds.len() == 0 {
        0
    } else {
        digits_value(ds.drop_last()) * 10 + (ds.last() as int - '0' as int)
    }
}

/// All characters are decimal digits.
pub open spec fn all_digits(ds: Seq<char>) -> bool {
    forall|i: int| 0 <= i < ds.len() ==> '0' <= #[trigger] ds[i] <= '9'
}

/// What `str::parse::<i32>` gives: an optional sign, then at least one
/// decimal digit and nothing else, and a value in range.
pub open spec fn spec_parse_i32(s: Seq<char>) -> Option<i32> {
    let negative = s.len() > 0 && s[0] == '-';
    let signed = s.len() > 0 && (s[0] == '-' || s[0] == '+');
    let ds = if signed { s.drop_first() } else { s };
    if ds.len() == 0 || !all_digits(ds) {
        None
    } else {
        let v = if negative { -digits_value(ds) } else { digits_value(ds) };
        if i32::MIN <= v <= i32::MAX {
            Some(v as i32)
        } else {
            None
        }
    }
}

proof fn lemma_digits_value_nonneg(ds: Seq<char>)
    requires
        all_digits(ds),
    ensures
        digits_value(ds) >= 0,
    decreases ds.len(),
{
    if ds.len() > 0 {
        assert(all_digits(ds.drop_last())) by {
            assert forall|i: int| 0 <= i < ds.drop_last().len() implies '0' <= #[trigger] ds.drop_last()[i] <= '9' by {
                assert(ds.drop_last()[i] == ds[i]);
            }
        }
        lemma_digits_value_nonneg(ds.drop_last());
        assert(ds[ds.len() - 1] >= '0');
    }
}

proof fn lemma_digits_value_grows(ds: Seq<char>, k: int)
    requires
        all_digits(ds),
        0 <= k <= ds.len(),
    ensures
        digits_value(ds.take(k)) <= digits_value(ds),
    decreases ds.len() - k,
{
    if k < ds.len() {
        assert(ds.take(k + 1).drop_last() =~= ds.take(k));
        assert(ds.take(k + 1).last() == ds[k]);
        assert(all_digits(ds.take(k))) by {
            assert forall|i: int| 0 <= i < ds.take(k).len() implies '0' <= #[trigger] ds.take(k)[i] <= '9' by {
                assert(ds.take(k)[i] == ds[i]);
            }
        }
        lemma_digits_value_nonneg(ds.take(k));
        assert(ds[k] >= '0');
        lemma_digits_value_grows(ds, k + 1);
    } else {
        assert(ds.take(k) =~= ds);
    }
}

/// Parses a decimal `i32` as `str::parse::<i32>` does.
pub fn parse_i32(s: &str) -> (r: Option<i32>)
    ensures
        r == spec_parse_i32(s@),
{
    let chars = str_chars(s);
    let n = chars.len();
    if n == 0 {
        return None;
    }
    let negative = chars[0] == '-';
    let signed = chars[0] == '-' || chars[0] == '+';
    let start: usize = if signed { 1 } else { 0 };
    let ghost ds = if signed { s@.drop_first() } else { s@ };
    proof {
        assert(negative == (s@.len() > 0 && s@[0] == '-'));
        assert(signed == (s@.len() > 0 && (s@[0] == '-' || s@[0] == '+')));
        assert(ds =~= chars@.subrange(start as int, n as int));
    }
    if start == n {
        return None;
    }
    let mut acc: i64 = 0;
    let mut i: usize = start;
    while i < n
        invariant
            chars@ == s@,
            n == chars@.len(),
            start <= i <= n,
            start == (if signed { 1usize } else { 0usize }),
            ds == chars@.subrange(start as int, n as int),
            negative == (s@.len() > 0 && s@[0] == '-'),
            signed == (s@.len() > 0 && (s@[0] == '-' || s@[0] == '+')),
            ds == (if signed { s@.drop_first() } else { s@ }),
            all_digits(ds.take(i - start)),
            acc == digits_value(ds.take(i - start)),
            0 <= acc <= 0x8000_0000,
        decreases n - i,
    {
        let c = chars[i];
        proof {
            assert(ds[i - start] == c);
            assert(ds.take(i - start + 1).drop_last() =~= ds.take(i - start));
            assert(ds.take(i - start + 1).last() == c);
        }
        if !('0' <= c && c <= '9') {
            proof {
                assert(!all_digits(ds));
                assert(spec_parse_i32(s@) is None);
            }
            return None;
        }
        let d = (c as u32 - '0' as u32) as i64;
        acc = acc * 10 + d;
        proof {
            assert(all_digits(ds.take(i - start + 1))) by {
                assert forall|j: int| 0 <= j < ds.take(i - start + 1).len() implies '0' <= #[trigger] ds.take(i - start + 1)[j] <= '9' by {
                    if j < i - start {
                        assert(ds.take(i - start + 1)[j] == ds.take(i - start)[j]);
                    }
                }
            }
        }
        if acc > 0x8000_0000 {
            proof {
                if all_digits(ds) {
                    lemma_digits_value_grows(ds, i - start + 1);
                    assert(digits_value(ds) > 0x8000_0000);
                }
                assert(spec_parse_i32(s@) is None);
            }
            return None;
        }
        i = i + 1;
    }
    proof {
        assert(ds.take(i - start) =~= ds);
    }
    if negative {
        Some((-acc) as i32)
    } else if acc > 0x7fff_ffff {
        None
    } else {
        Some(acc as i32)
    }
}

/// The row a line of cells stands for, or the message of the error.
pub open spec fn spec_row(cells: Seq<Seq<char>>) -> Result<InjectRowView, Seq<char>> {
    if cells.len() < 5 {
        Err("Csv row does not have enough cells!"@)
    } else {
        match spec_parse_i32(cells[1]) {
            None => Err("Could not parse csv data as integer!"@),
            Some(index) => Ok(InjectRowView {
                file_name: cells[0],
                index,
                node_type: cells[2],
                original_text: cells[3],
                inject_text: cells[4],
            }),
        }
    }
}

impl InjectRow {
    /// The row a line of cells stands for: file, index, type, original
    /// text and text to put in; further cells are not read.
    pub fn from_row(row: Vec<String>) -> (r: Result<InjectRow, FormatError>)
        ensures
            match spec_row(row@.map_values(|c: String| c@)) {
                Ok(v) => r matches Ok(x) && x@ == v,
                Err(m) => r matches Err(FormatError::InvalidData(e)) && e@ == m,
            },
    {
        let ghost cells = row@.map_values(|c: String| c@);
        if row.len() < 5 {
            return Err(FormatError::InvalidData(String::from_str("Csv row does not have enough cells!")));
        }
        let index = match parse_i32(row[1].as_str()) {
            Some(i) => i,
            None => {
                return Err(FormatError::InvalidData(String::from_str("Could not parse csv data as integer!")));
            },
        };
        let r = InjectRow {
            file_name: row[0].clone(),
            index,
            node_type: row[2].clone(),
            original_text: row[3].clone(),
            inject_text: row[4].clone(),
        };
        proof {
            assert(cells[0] == row@[0]@ && cells[1] == row@[1]@ && cells[2] == row@[2]@);
            assert(cells[3] == row@[3]@ && cells[4] == row@[4]@);
        }
        Ok(r)
    }
}

/// The rows of a table's lines after the header, each read as a row, or
/// the message of the first error.
pub open spec fn spec_rows(lines: Seq<Seq<Seq<char>>>) -> Result<Seq<InjectRowView>, Seq<char>>
    decreases lines.len(),
{
    if lines.len() <= 1 {
        Ok(Seq::empty())
    } else {
        match spec_rows(lines.drop_last()) {
            Err(m) => Err(m),
            Ok(done) => match spec_row(lines.last()) {
                Err(m) => Err(m),
                Ok(row) => Ok(done.push(row)),
            },
        }
    }
}

proof fn lemma_spec_rows_err_stays(lines: Seq<Seq<Seq<char>>>, k: int)
    requires
        1 <= k <= lines.len(),
        spec_rows(lines.take(k)) is Err,
    ensures
        spec_rows(lines) == spec_rows(lines.take(k)),
    decreases lines.len() - k,
{
    if k < lines.len() {
        assert(lines.take(k + 1).drop_last() =~= lines.take(k));
        lemma_spec_rows_err_stays(lines, k + 1);
    } else {
        assert(lines.take(k) =~= lines);
    }
}

/// The views of a sequence of rows.
pub open spec fn inject_rows_view(v: Seq<InjectRow>) -> Seq<InjectRowView> {
    v.map_values(|r: InjectRow| r@)
}

/// The rows of a csv table: the lines that the csv grammar reads from the
/// start of the text, the first one being the header and skipped.
pub fn read_inject_rows(csv_text: &str) -> (r: Result<Vec<InjectRow>, FormatError>)
    ensures
        match spec_rows(csv_at(csv_text@, 0).0) {
            Ok(rows) => r matches Ok(v) && inject_rows_view(v@) == rows,
            Err(m) => r matches Err(FormatError::InvalidData(e)) && e@ == m,
        },
{
    let (_, lines) = parse_csv(csv_text);
    let ghost ls = rows_view(lines@);
    let mut out: Vec<InjectRow> = Vec::new();
    if lines.len() <= 1 {
        proof {
            assert(inject_rows_view(out@) =~= Seq::<InjectRowView>::empty());
        }
        return Ok(out);
    }
    let mut i: usize = 1;
    proof {
        assert(ls.take(1).len() == 1);
        assert(inject_rows_view(out@) =~= Seq::<InjectRowView>::empty());
    }
    while i < lines.len()
        invariant
            ls == rows_view(lines@),
            ls == csv_at(csv_text@, 0).0,
            1 <= i <= lines@.len(),
            spec_rows(ls.take(i as int)) == Ok::<Seq<InjectRowView>, Seq<char>>(inject_rows_view(out@)),
        decreases lines@.len() - i,
    {
        proof {
            assert(ls.take(i + 1).drop_last() =~= ls.take(i as int));
            assert(ls.take(i + 1).last() == ls[i as int]);
            assert(ls[i as int] == lines@[i as int]@.map_values(|c: String| c@));
        }
        let line = lines[i].clone();
        match InjectRow::from_row(line) {
            Ok(row) => {
                let ghost before = out@;
                out.push(row);
                proof {
                    assert(inject_rows_view(out@) =~= inject_rows_view(before).push(row@));
                }
            },
            Err(e) => {
                proof {
                    lemma_spec_rows_err_stays(ls, i + 1);
                }
                return Err(e);
            },
        }
        i = i + 1;
    }
    proof {
        assert(ls.take(i as int) =~= ls);
    }
    Ok(out)
}

impl InjectRow {
    /// A copy of the row.
    pub fn duplicate(&self) -> (r: InjectRow)
        ensures
            r@ == self@,
    {
        InjectRow {
            file_name: self.file_name.clone(),
            index: self.index,
            node_type: self.node_type.clone(),
            original_text: self.original_text.clone(),
            inject_text: self.inject_text.clone(),
        }
    }
}

/// The rows for the file `name`, in their order.
pub open spec fn rows_of_file(rows: Seq<InjectRowView>, name: Seq<char>) -> Seq<InjectRowView>
    decreases rows.len(),
{
    if rows.len() == 0 {
        Seq::empty()
    } else if rows.last().file_name == name {
        rows_of_file(rows.drop_last(), name).push(rows.last())
    } else {
        rows_of_file(rows.drop_last(), name)
    }
}

/// The files that rows name.
pub open spec fn file_names(rows: Seq<InjectRowView>) -> Set<Seq<char>> {
    Set::new(|name: Seq<char>| exists|i: int| 0 <= i < rows.len() && (#[trigger] rows[i]).file_name == name)
}

/// The rows grouped by file: one group per file, the files in the order of
/// their names' bytes, and each group's rows in their order.
pub fn group_rows_by_file(rows: &Vec<InjectRow>) -> (r: Vec<(String, Vec<InjectRow>)>)
    ensures
        strictly_sorted(r@.map_values(|g: (String, Vec<InjectRow>)| g.0@)),
        r@.map_values(|g: (String, Vec<InjectRow>)| g.0@).to_set() == file_names(inject_rows_view(rows@)),
        forall|k: int| 0 <= k < r@.len() ==> inject_rows_view((#[trigger] r@[k]).1@) == rows_of_file(inject_rows_view(rows@), r@[k].0@),
{
    let ghost rv = inject_rows_view(rows@);
    let mut names: Vec<String> = Vec::new();
    let mut i: usize = 0;
    proof {
        assert(texts(names@).to_set() =~= Set::<Seq<char>>::empty());
    }
    while i < rows.len()
        invariant
            i <= rows@.len(),
            rv == inject_rows_view(rows@),
            strictly_sorted(texts(names@)),
            texts(names@).to_set() == file_names(rv.take(i as int)),
        decreases rows@.len() - i,
    {
        set_insert(&mut names, rows[i].file_name.as_str());
        proof {
            assert(rv[i as int] == rows@[i as int]@);
            assert forall|x: Seq<char>| file_names(rv.take(i as int)).insert(rows@[i as int].file_name@).contains(x)
                <==> file_names(rv.take(i + 1)).contains(x) by {
                if file_names(rv.take(i + 1)).contains(x) {
                    let j = choose|j: int| 0 <= j < rv.take(i + 1).len() && (#[trigger] rv.take(i + 1)[j]).file_name == x;
                    if j < i {
                        assert(rv.take(i as int)[j] == rv.take(i + 1)[j]);
                    }
                }
                if file_names(rv.take(i as int)).contains(x) {
                    let j = choose|j: int| 0 <= j < rv.take(i as int).len() && (#[trigger] rv.take(i as int)[j]).file_name == x;
                    assert(rv.take(i + 1)[j] == rv.take(i as int)[j]);
                }
                if x == rows@[i as int].file_name@ {
                    assert(rv.take(i + 1)[i as int] == rv[i as int]);
                }
            }
            assert(file_names(rv.take(i as int)).insert(rows@[i as int].file_name@) =~= file_names(rv.take(i + 1)));
        }
        i = i + 1;
    }
    proof {
        assert(rv.take(i as int) =~= rv);
    }
    let mut groups: Vec<(String, Vec<InjectRow>)> = Vec::new();
    let mut k: usize = 0;
    while k < names.len()
        invariant
            k <= names@.len(),
            rv == inject_rows_view(rows@),
            groups@.len() == k,
            forall|j: int| 0 <= j < k ==> (#[trigger] groups@[j]).0@ == names@[j]@,
            forall|j: int| 0 <= j < k ==> inject_rows_view((#[trigger] groups@[j]).1@) == rows_of_file(rv, groups@[j].0@),
        decreases names@.len() - k,
    {
        let name = names[k].clone();
        let mut group: Vec<InjectRow> = Vec::new();
        let mut m: usize = 0;
        proof {
            assert(inject_rows_view(group@) =~= Seq::<InjectRowView>::empty());
            assert(rv.take(0) =~= Seq::<InjectRowView>::empty());
        }
        while m < rows.len()
            invariant
                m <= rows@.len(),
                rv == inject_rows_view(rows@),
                inject_rows_view(group@) == rows_of_file(rv.take(m as int), name@),
            decreases rows@.len() - m,
        {
            proof {
                assert(rv.take(m + 1).drop_last() =~= rv.take(m as int));
                assert(rv.take(m + 1).last() == rows@[m as int]@);
            }
            if rows[m].file_name == name {
                let ghost before = group@;
                group.push(rows[m].duplicate());
                proof {
                    assert(inject_rows_view(group@) =~= inject_rows_view(before).push(rows@[m as int]@));
                }
            }
            m = m + 1;
        }
        proof {
            assert(rv.take(m as int) =~= rv);
        }
        groups.push((name, group));
        k = k + 1;
    }
    proof {
        assert(groups@.map_values(|g: (String, Vec<InjectRow>)| g.0@) =~= texts(names@));
    }
    groups
}

/// The node with its text replaced by `text`, where `text` is not empty.
pub open spec fn with_text(n: FlatView, text: Seq<char>) -> FlatView {
    if text.len() == 0 {
        n
    } else {
        FlatView { data: NodeDataView { text, ..n.data }, ..n }
    }
}

impl NodeDataWithPointers {
    /// Replaces the node's inner text with `text`, unless `text` is empty.
    pub fn inject_text(&mut self, text: String)
        ensures
            final(self)@ == with_text(old(self)@, text@),
    {
        if !text.as_str().is_empty() {
            self.data.text = text;
        }
    }
}

/// The list with each row's text put into the node at the row's index, the
/// rows taken in order.
pub open spec fn spec_inject(l: Seq<FlatView>, rows: Seq<InjectRowView>) -> Seq<FlatView>
    decreases rows.len(),
{
    if rows.len() == 0 {
        l
    } else {
        let done = spec_inject(l, rows.drop_last());
        let i = rows.last().index as int;
        done.update(i, with_text(done[i], rows.last().inject_text))
    }
}

proof fn lemma_spec_inject_len(l: Seq<FlatView>, rows: Seq<InjectRowView>)
    requires
        rows_in_range(rows, l.len() as int),
    ensures
        spec_inject(l, rows).len() == l.len(),
    decreases rows.len(),
{
    if rows.len() > 0 {
        assert(rows_in_range(rows.drop_last(), l.len() as int)) by {
            assert forall|k: int| 0 <= k < rows.drop_last().len() implies 0 <= (#[trigger] rows.drop_last()[k]).index < l.len() by {
                assert(rows.drop_last()[k] == rows[k]);
            }
        }
        lemma_spec_inject_len(l, rows.drop_last());
        assert(0 <= rows[rows.len() - 1].index < l.len());
    }
}

/// Every row points at a node of a list of `len` nodes.
pub open spec fn rows_in_range(rows: Seq<InjectRowView>, len: int) -> bool {
    forall|k: int| 0 <= k < rows.len() ==> 0 <= (#[trigger] rows[k]).index < len
}

/// Puts each row's text into the node at the row's index, in order.
pub fn inject_rows(list: &mut Vec<NodeDataWithPointers>, rows: &Vec<InjectRow>)
    requires
        rows_in_range(inject_rows_view(rows@), old(list)@.len() as int),
    ensures
        flat_view(final(list)@) == spec_inject(flat_view(old(list)@), inject_rows_view(rows@)),
{
    let ghost l0 = flat_view(list@);
    let ghost rv = inject_rows_view(rows@);
    let mut k: usize = 0;
    proof {
        assert(rv.take(0) =~= Seq::<InjectRowView>::empty());
    }
    while k < rows.len()
        invariant
            k <= rows@.len(),
            rv == inject_rows_view(rows@),
            rows_in_range(rv, l0.len() as int),
            list@.len() == l0.len(),
            flat_view(list@) == spec_inject(l0, rv.take(k as int)),
        decreases rows@.len() - k,
    {
        let row = &rows[k];
        proof {
            assert(rv[k as int] == row@);
            assert(rv.take(k + 1).drop_last() =~= rv.take(k as int));
            assert(rv.take(k + 1).last() == row@);
        }
        let i = row.index as usize;
        let mut node = list.remove(i);
        let ghost before = node@;
        node.inject_text(row.inject_text.clone());
        list.insert(i, node);
        proof {
            let prev = spec_inject(l0, rv.take(k as int));
            assert(prev[i as int] == before);
            assert(flat_view(list@) =~= prev.update(i as int, with_text(prev[i as int], row@.inject_text)));
        }
        k = k + 1;
    }
    proof {
        assert(rv.take(k as int) =~= rv);
    }
}

/// The nodes that `into_jxb` would keep with a version-2 record can list
/// their children by index within `i32`.
pub fn child_ranges_sound(list: &Vec<NodeDataWithPointers>) -> (r: bool)
    ensures
        r == child_ranges_fit(flat_view(list@)),
{
    let ghost l = flat_view(list@);
    let mut i: usize = 0;
    while i < list.len()
        invariant
            i <= list@.len(),
            l == flat_view(list@),
            forall|j: int| 0 <= j < i && is_v2(#[trigger] l[j]) ==> i32::MIN <= l[j].children_start_index + l[j].child_count <= i32::MAX,
        decreases list@.len() - i,
    {
        let n = &list[i];
        proof {
            assert(l[i as int] == n@);
        }
        if n.data.node_type.as_str().is_empty() && n.data.text.as_str().is_empty() && tags_len(&n.data.tags) == 0 {
            let end = n.children_start_index as i64 + n.child_count as i64;
            if end < -0x8000_0000 || end > 0x7fff_ffff {
                return false;
            }
        }
        i = i + 1;
    }
    true
}

impl Jxb {
    /// The file with each row's text put into the node at the row's index:
    /// its records decoded, the texts put in, and the records and tables
    /// built anew.
    pub fn inject_text(&self, rows: &Vec<InjectRow>) -> (r: Result<Jxb, FormatError>)
        requires
            self.wf(),
            rows_in_range(inject_rows_view(rows@), self.node_data_bs@.len() as int),
            self.spec_flat_list() matches Ok(l) ==> child_ranges_fit(spec_inject(l, inject_rows_view(rows@))),
        ensures
            match self.spec_flat_list() {
                Err(m) => r matches Err(FormatError::InvalidData(e)) && e@ == m,
                Ok(l) => {
                    let l2 = spec_inject(l, inject_rows_view(rows@));
                    if file_fits(l2) {
                        r matches Ok(j) && j.wf() && jxb_encodes(j, l2)
                    } else {
                        r matches Err(FormatError::TooLarge)
                    }
                },
            },
    {
        let mut list = match self.flat_list() {
            Ok(l) => l,
            Err(e) => {
                return Err(e);
            },
        };
        let ghost l1 = flat_view(list@);
        proof {
            assert(l1.len() == list@.len());
        }
        inject_rows(&mut list, rows);
        proof {
            lemma_spec_inject_len(l1, inject_rows_view(rows@));
            assert(flat_view(list@).len() == list@.len());
        }
        NodeDataWithPointers::into_jxb(list)
    }
}

/// Whether every row points at a node of a list of `len` nodes.
pub fn rows_fit(rows: &Vec<InjectRow>, len: usize) -> (r: bool)
    ensures
        r == rows_in_range(inject_rows_view(rows@), len as int),
{
    let ghost rv = inject_rows_view(rows@);
    let mut k: usize = 0;
    while k < rows.len()
        invariant
            k <= rows@.len(),
            rv == inject_rows_view(rows@),
            forall|j: int| 0 <= j < k ==> 0 <= (#[trigger] rv[j]).index < len,
        decreases rows@.len() - k,
    {
        proof {
            assert(rv[k as int] == rows@[k as int]@);
        }
        let index = rows[k].index;
        if index < 0 || index as u64 >= len as u64 {
            return false;
        }
        k = k + 1;
    }
    true
}

/// Injection changes nothing but texts: every node keeps its type, tags
/// and pointers; a node that no row points at keeps its text too; and a
/// node whose last row has a non-empty text gets that text.
pub proof fn lemma_injection_changes_only_texts(l: Seq<FlatView>, rows: Seq<InjectRowView>, i: int)
    requires
        rows_in_range(rows, l.len() as int),
        0 <= i < l.len(),
    ensures
        ({
            let r = spec_inject(l, rows)[i];
            &&& r.data.node_type == l[i].data.node_type
            &&& r.data.tags == l[i].data.tags
            &&& r.parent_index == l[i].parent_index
            &&& r.children_start_index == l[i].children_start_index
            &&& r.child_count == l[i].child_count
        }),
        (forall|k: int| 0 <= k < rows.len() ==> (#[trigger] rows[k]).index != i) ==> spec_inject(l, rows)[i] == l[i],
        rows.len() > 0 && rows.last().index == i && rows.last().inject_text.len() > 0
            ==> spec_inject(l, rows)[i].data.text == rows.last().inject_text,
    decreases rows.len(),
{
    lemma_spec_inject_len(l, rows);
    if rows.len() > 0 {
        let front = rows.drop_last();
        assert(rows_in_range(front, l.len() as int)) by {
            assert forall|k: int| 0 <= k < front.len() implies 0 <= (#[trigger] front[k]).index < l.len() by {
                assert(front[k] == rows[k]);
            }
        }
        lemma_injection_changes_only_texts(l, front, i);
        lemma_spec_inject_len(l, front);
        if forall|k: int| 0 <= k < rows.len() ==> (#[trigger] rows[k]).index != i {
            assert forall|k: int| 0 <= k < front.len() implies (#[trigger] front[k]).index != i by {
                assert(front[k] == rows[k]);
            }
            assert(rows[rows.len() - 1].index != i);
        }
    }
}

/// Injecting into nodes the texts they already have, or empty texts,
/// changes nothing.
pub proof fn lemma_injecting_own_texts(l: Seq<FlatView>, rows: Seq<InjectRowView>)
    requires
        rows_in_range(rows, l.len() as int),
        forall|k: int|
            0 <= k < rows.len() ==> (#[trigger] rows[k]).inject_text.len() == 0 || rows[k].inject_text
                == l[rows[k].index as int].data.text,
    ensures
        spec_inject(l, rows) == l,
    decreases rows.len(),
{
    if rows.len() > 0 {
        let front = rows.drop_last();
        assert forall|k: int| 0 <= k < front.len() implies 0 <= (#[trigger] front[k]).index < l.len() && (
        front[k].inject_text.len() == 0 || front[k].inject_text == l[front[k].index as int].data.text) by {
            assert(front[k] == rows[k]);
        }
        lemma_injecting_own_texts(l, front);
        let r = rows[rows.len() - 1];
        assert(rows.last() == r);
        let i = r.index as int;
        assert(0 <= i < l.len());
        assert(with_text(l[i], r.inject_text) == l[i]);
        assert(l.update(i, l[i]) =~= l);
    }
}

} // verus!
