//! The csv dialect that text tables are read in.
//!
//! A table is rows separated by `\n` or `\r\n`; a row is fields separated by
//! `,`. A field is either quoted, `"…"`, where `""` stands for one `"`, or a
//! run of characters other than `,`, `"`, `\r` and `\n`, or empty. Parsing
//! never fails: it stops where the input no longer fits, and says where.

use vstd::prelude::*;
use crate::text::{string_push, str_chars, strings_view};

verus! {

/// The characters that end an unquoted field.
pub open spec fn is_field_special(c: char) -> bool {
    c == ',' || c == '"' || c == '\r' || c == '\n'
}

/// The end of the run of ordinary characters that starts at `i`.
pub open spec fn plain_end(s: Seq<char>, i: int) -> int
    decreases s.len() - i,
{
    if i < 0 || i >= s.len() || is_field_special(s[i]) {
        i
    } else {
        plain_end(s, i + 1)
    }
}

/// The text of a quoted field whose opening quote is before `i`, with the
/// position of its closing quote; `None` when it is not closed.
pub open spec fn quoted_from(s: Seq<char>, i: int) -> Option<(Seq<char>, int)>
    decreases s.len() - i,
{
    if i < 0 || i >= s.len() {
        None
    } else if s[i] == '"' {
        if i + 1 < s.len() && s[i + 1] == '"' {
            match quoted_from(s, i + 2) {
                Some((t, p)) => Some((seq!['"'] + t, p)),
                None => None,
            }
        } else {
            Some((Seq::empty(), i))
        }
    } else {
        match quoted_from(s, i + 1) {
            Some((t, p)) => Some((seq![s[i]] + t, p)),
            None => None,
        }
    }
}

/// The field that starts at `i`, and where it ends.
pub open spec fn field_at(s: Seq<char>, i: int) -> (Seq<char>, int) {
    if 0 <= i < s.len() && s[i] == '"' && quoted_from(s, i + 1) is Some {
        let (t, p) = quoted_from(s, i + 1).unwrap();
        (t, p + 1)
    } else if 0 <= i < s.len() && !is_field_special(s[i]) {
        (s.subrange(i, plain_end(s, i)), plain_end(s, i))
    } else {
        (Seq::empty(), i)
    }
}

/// The row that starts at `i`, and where it ends.
pub open spec fn row_at(s: Seq<char>, i: int) -> (Seq<Seq<char>>, int)
    decreases s.len() - i,
{
    let (f, j) = field_at(s, i);
    if i <= j < s.len() && s[j] == ',' {
        let (rest, k) = row_at(s, j + 1);
        (seq![f] + rest, k)
    } else {
        (seq![f], j)
    }
}

/// The rows that start at `i`, and where they end.
pub open spec fn csv_at(s: Seq<char>, i: int) -> (Seq<Seq<Seq<char>>>, int)
    decreases s.len() - i,
{
    let (r, j) = row_at(s, i);
    if i <= j < s.len() && s[j] == '\n' {
        let (rest, k) = csv_at(s, j + 1);
        (seq![r] + rest, k)
    } else if i <= j && j + 1 < s.len() && s[j] == '\r' && s[j + 1] == '\n' {
        let (rest, k) = csv_at(s, j + 2);
        (seq![r] + rest, k)
    } else {
        (seq![r], j)
    }
}

proof fn lemma_plain_end(s: Seq<char>, i: int)
    requires
        0 <= i <= s.len(),
    ensures
        i <= plain_end(s, i) <= s.len(),
        forall|k: int| i <= k < plain_end(s, i) ==> !is_field_special(#[trigger] s[k]),
        plain_end(s, i) < s.len() ==> is_field_special(s[plain_end(s, i)]),
    decreases s.len() - i,
{
    if i < s.len() && !is_field_special(s[i]) {
        lemma_plain_end(s, i + 1);
    }
}

proof fn lemma_quoted_from_bounds(s: Seq<char>, i: int)
    ensures
        quoted_from(s, i) matches Some((t, p)) ==> 0 <= i <= p < s.len() && s[p] == '"',
    decreases s.len() - i,
{
    if 0 <= i < s.len() {
        if s[i] == '"' {
            if i + 1 < s.len() && s[i + 1] == '"' {
                lemma_quoted_from_bounds(s, i + 2);
            }
        } else {
            lemma_quoted_from_bounds(s, i + 1);
        }
    }
}

proof fn lemma_field_at_bounds(s: Seq<char>, i: int)
    requires
        0 <= i <= s.len(),
    ensures
        i <= field_at(s, i).1 <= s.len(),
{
    if 0 <= i < s.len() && s[i] == '"' {
        lemma_quoted_from_bounds(s, i + 1);
    }
    if 0 <= i < s.len() {
        lemma_plain_end(s, i);
    }
}

/// Parses the quoted field whose opening quote is before `start`.
fn parse_quoted(s: &Vec<char>, start: usize) -> (r: Option<(String, usize)>)
    requires
        start <= s@.len(),
    ensures
        match r {
            Some((t, p)) => quoted_from(s@, start as int) == Some((t@, p as int)),
            None => quoted_from(s@, start as int) is None,
        },
{
    let mut acc = String::new();
    let mut j = start;
    while j < s.len()
        invariant
            start <= j <= s@.len(),
            quoted_from(s@, start as int) == match quoted_from(s@, j as int) {
                Some((t, p)) => Some((acc@ + t, p)),
                None => None::<(Seq<char>, int)>,
            },
        decreases s@.len() - j,
    {
        if s[j] == '"' {
            if j + 1 < s.len() && s[j + 1] == '"' {
                let ghost a = acc@;
                string_push(&mut acc, '"');
                proof {
                    match quoted_from(s@, j + 2) {
                        Some((t, p)) => {
                            assert(a + (seq!['"'] + t) =~= acc@ + t);
                        },
                        None => {},
                    }
                }
                j = j + 2;
            } else {
                assert(acc@ + Seq::<char>::empty() =~= acc@);
                return Some((acc, j));
            }
        } else {
            let c = s[j];
            let ghost a = acc@;
            string_push(&mut acc, c);
            proof {
                match quoted_from(s@, j + 1) {
                    Some((t, p)) => {
                        assert(a + (seq![c] + t) =~= acc@ + t);
                    },
                    None => {},
                }
            }
            j = j + 1;
        }
    }
    None
}

/// Parses the field that starts at `i`.
fn parse_field(s: &Vec<char>, i: usize) -> (r: (String, usize))
    requires
        i <= s@.len(),
    ensures
        (r.0@, r.1 as int) == field_at(s@, i as int),
{
    proof {
        lemma_field_at_bounds(s@, i as int);
    }
    if i < s.len() && s[i] == '"' {
        if let Some((text, close)) = parse_quoted(s, i + 1) {
            proof {
                lemma_quoted_from_bounds(s@, i + 1);
            }
            return (text, close + 1);
        }
    }
    let mut text = String::new();
    if i < s.len() && !(s[i] == ',' || s[i] == '"' || s[i] == '\r' || s[i] == '\n') {
        let mut j = i;
        proof {
            lemma_plain_end(s@, i as int);
        }
        while j < s.len() && !(s[j] == ',' || s[j] == '"' || s[j] == '\r' || s[j] == '\n')
            invariant
                i <= j <= plain_end(s@, i as int),
                plain_end(s@, i as int) <= s@.len(),
                text@ == s@.subrange(i as int, j as int),
                forall|k: int| i <= k < plain_end(s@, i as int) ==> !is_field_special(#[trigger] s@[k]),
                plain_end(s@, i as int) < s@.len() ==> is_field_special(s@[plain_end(s@, i as int)]),
            decreases s@.len() - j,
        {
            string_push(&mut text, s[j]);
            j = j + 1;
            assert(text@ =~= s@.subrange(i as int, j as int));
        }
        return (text, j);
    }
    (text, i)
}

/// Parses the row that starts at `i`.
fn parse_row(s: &Vec<char>, i: usize) -> (r: (Vec<String>, usize))
    requires
        i <= s@.len(),
    ensures
        (strings_view(r.0@), r.1 as int) == row_at(s@, i as int),
        i <= r.1 <= s@.len(),
{
    let mut fields: Vec<String> = Vec::new();
    let mut j = i;
    loop
        invariant
            i <= j <= s@.len(),
            row_at(s@, i as int) == (strings_view(fields@) + row_at(s@, j as int).0, row_at(
                s@,
                j as int,
            ).1),
        decreases s@.len() - j,
    {
        let (field, k) = parse_field(s, j);
        proof {
            lemma_field_at_bounds(s@, j as int);
        }
        let ghost before = fields@;
        fields.push(field);
        assert(strings_view(fields@) =~= strings_view(before).push(field@));
        if k < s.len() && s[k] == ',' {
            proof {
                let (rest, end) = row_at(s@, k + 1);
                assert(strings_view(before) + (seq![field@] + rest) =~= strings_view(fields@) + rest);
            }
            j = k + 1;
        } else {
            proof {
                assert(strings_view(before) + seq![field@] =~= strings_view(fields@));
            }
            return (fields, k);
        }
    }
}

/// The views of the rows of a table.
pub open spec fn rows_view(v: Seq<Vec<String>>) -> Seq<Seq<Seq<char>>> {
    v.map_values(|r: Vec<String>| strings_view(r@))
}

/// Parses the table that starts at character `i` of `s`.
fn parse_rows(s: &Vec<char>, i: usize) -> (r: (Vec<Vec<String>>, usize))
    requires
        i <= s@.len(),
    ensures
        (rows_view(r.0@), r.1 as int) == csv_at(s@, i as int),
{
    let mut rows: Vec<Vec<String>> = Vec::new();
    let mut j = i;
    loop
        invariant
            i <= j <= s@.len(),
            csv_at(s@, i as int) == (rows_view(rows@) + csv_at(s@, j as int).0, csv_at(
                s@,
                j as int,
            ).1),
        decreases s@.len() - j,
    {
        let (row, k) = parse_row(s, j);
        let ghost row_view = strings_view(row@);
        let ghost before = rows@;
        rows.push(row);
        assert(rows_view(rows@) =~= rows_view(before).push(row_view));
        if k < s.len() && s[k] == '\n' {
            proof {
                let (rest, end) = csv_at(s@, k + 1);
                assert(rows_view(before) + (seq![row_view] + rest) =~= rows_view(rows@) + rest);
            }
            j = k + 1;
        } else if k < s.len() && s[k] == '\r' && k + 1 < s.len() && s[k + 1] == '\n' {
            proof {
                let (rest, end) = csv_at(s@, k + 2);
                assert(rows_view(before) + (seq![row_view] + rest) =~= rows_view(rows@) + rest);
            }
            j = k + 2;
        } else {
            proof {
                assert(rows_view(before) + seq![row_view] =~= rows_view(rows@));
            }
            return (rows, k);
        }
    }
}

/// Parses a csv table. Returns how many characters of the input were read
/// and the rows; parsing stops at the first character that neither
/// continues the table nor starts a new row.
pub fn parse_csv(input: &str) -> (r: (usize, Vec<Vec<String>>))
    ensures
        (r.0 as int, rows_view(r.1@)) == (csv_at(input@, 0).1, csv_at(input@, 0).0),
{
    let chars = str_chars(input);
    let (rows, end) = parse_rows(&chars, 0);
    (end, rows)
}

/// What lies before a position does not change where an unquoted field
/// ends.
pub proof fn lemma_plain_end_shift(pre: Seq<char>, x: Seq<char>, i: int)
    requires
        0 <= i <= x.len(),
    ensures
        plain_end(pre + x, pre.len() + i) == pre.len() + plain_end(x, i),
    decreases x.len() - i,
{
    let s = pre + x;
    let n = pre.len() as int;
    if i < x.len() {
        assert(s[n + i] == x[i]);
        if !is_field_special(x[i]) {
            lemma_plain_end_shift(pre, x, i + 1);
        }
    }
}

/// What lies before a position does not change the quoted field read
/// there.
pub proof fn lemma_quoted_from_shift(pre: Seq<char>, x: Seq<char>, i: int)
    requires
        0 <= i,
    ensures
        quoted_from(pre + x, pre.len() + i) == match quoted_from(x, i) {
            Some((t, p)) => Some((t, p + pre.len())),
            None => None,
        },
    decreases x.len() - i,
{
    let s = pre + x;
    let n = pre.len() as int;
    if i < x.len() {
        assert(s[n + i] == x[i]);
        if x[i] == '"' {
            if i + 1 < x.len() {
                assert(s[n + i + 1] == x[i + 1]);
            }
            if i + 1 < x.len() && x[i + 1] == '"' {
                lemma_quoted_from_shift(pre, x, i + 2);
            }
        } else {
            lemma_quoted_from_shift(pre, x, i + 1);
        }
    }
}

/// What lies before a position does not change the field read there.
pub proof fn lemma_field_at_shift(pre: Seq<char>, x: Seq<char>, i: int)
    requires
        0 <= i <= x.len(),
    ensures
        field_at(pre + x, pre.len() + i) == (field_at(x, i).0, field_at(x, i).1 + pre.len()),
{
    let s = pre + x;
    let n = pre.len() as int;
    lemma_quoted_from_shift(pre, x, i + 1);
    if i < x.len() {
        assert(s[n + i] == x[i]);
        lemma_plain_end_shift(pre, x, i);
        lemma_plain_end(x, i);
        assert(s.subrange(n + i, n + plain_end(x, i)) =~= x.subrange(i, plain_end(x, i)));
    }
}

/// What lies before a position does not change the row read there.
pub proof fn lemma_row_at_shift(pre: Seq<char>, x: Seq<char>, i: int)
    requires
        0 <= i <= x.len(),
    ensures
        row_at(pre + x, pre.len() + i) == (row_at(x, i).0, row_at(x, i).1 + pre.len()),
    decreases x.len() - i,
{
    let s = pre + x;
    let n = pre.len() as int;
    lemma_field_at_shift(pre, x, i);
    lemma_field_at_bounds(x, i);
    let j = field_at(x, i).1;
    if j < x.len() {
        assert(s[n + j] == x[j]);
        if x[j] == ',' {
            lemma_row_at_shift(pre, x, j + 1);
        }
    }
}

} // verus!
