//! The text tables that text extraction writes: a header line, then one
//! line per text, `file,index,"text",`, with quotes in the text doubled.

use vstd::prelude::*;
use crate::csv::{lemma_row_at_shift, csv_at, field_at, is_field_special, plain_end, quoted_from, row_at};
use crate::text::{lemma_has_part_at, has_part, str_chars, string_push, text_contains};
use crate::strset::{compare_text, lemma_text_lt_order, text_lt};
use crate::jxb::{bs_view, lemma_decode_all_len, FormatError, Jxb};
use crate::node::{NodeData, NodeDataView};

verus! {

/// The character of a decimal digit.
pub open spec fn digit_char(d: int) -> char {
    (48 + d) as char
}

/// The decimal digits of a natural number.
pub open spec fn digits(n: nat) -> Seq<char>
    decreases n,
{
    if n < 10 {
        seq![digit_char(n as int)]
    } else {
        digits(n / 10) + seq![digit_char((n % 10) as int)]
    }
}

/// The decimal form of an integer, as `Display` writes it.
pub open spec fn decimal(n: int) -> Seq<char> {
    if n < 0 {
        seq!['-'] + digits((-n) as nat)
    } else {
        digits(n as nat)
    }
}

/// Appends the decimal digits of `n`.
fn push_digits(s: &mut String, n: u64)
    ensures
        final(s)@ == old(s)@ + digits(n as nat),
    decreases n,
{
    if n >= 10 {
        push_digits(s, n / 10);
    }
    let d = (n % 10) as u8;
    let c = (48u8 + d) as char;
    string_push(s, c);
    proof {
        assert(c == digit_char((n % 10) as int));
        if n >= 10 {
            assert(digits(n as nat) == digits((n / 10) as nat) + seq![digit_char((n % 10) as int)]);
        }
    }
}

/// The character of a hexadecimal digit, in upper case.
pub open spec fn hex_digit_char(d: int) -> char {
    if d < 10 {
        (48 + d) as char
    } else {
        (55 + d) as char
    }
}

/// The hexadecimal digits of a natural number, in upper case.
pub open spec fn hex_digits(n: nat) -> Seq<char>
    decreases n,
{
    if n < 16 {
        seq![hex_digit_char(n as int)]
    } else {
        hex_digits(n / 16) + seq![hex_digit_char((n % 16) as int)]
    }
}

/// The form `{:#X}` writes of a 32-bit value: `0x` and upper-case digits.
pub open spec fn hex_form(n: u32) -> Seq<char> {
    seq!['0', 'x'] + hex_digits(n as nat)
}

fn push_hex_digits(s: &mut String, n: u32)
    ensures
        final(s)@ == old(s)@ + hex_digits(n as nat),
    decreases n,
{
    if n >= 16 {
        push_hex_digits(s, n / 16);
    }
    let d = (n % 16) as u8;
    let c = if d < 10 {
        (48u8 + d) as char
    } else {
        (55u8 + d) as char
    };
    string_push(s, c);
    proof {
        assert(c == hex_digit_char((n % 16) as int));
        if n >= 16 {
            assert(hex_digits(n as nat) == hex_digits((n / 16) as nat) + seq![hex_digit_char((n % 16) as int)]);
        }
    }
}

/// Appends the form `{:#X}` writes of `n`.
pub fn push_hex(s: &mut String, n: u32)
    ensures
        final(s)@ == old(s)@ + hex_form(n),
{
    string_push(s, '0');
    string_push(s, 'x');
    push_hex_digits(s, n);
    assert(final(s)@ =~= old(s)@ + hex_form(n));
}

/// Appends the decimal form of `n`.
pub fn push_decimal(s: &mut String, n: i32)
    ensures
        final(s)@ == old(s)@ + decimal(n as int),
{
    if n < 0 {
        string_push(s, '-');
        let magnitude: u64 = (-(n as i64)) as u64;
        push_digits(s, magnitude);
        assert(final(s)@ =~= old(s)@ + decimal(n as int)) by {
            assert(old(s)@.push('-') + digits(magnitude as nat) =~= old(s)@ + (seq!['-'] + digits(magnitude as nat)));
        }
    } else {
        push_digits(s, n as u64);
    }
}

/// `t` with each `"` doubled.
pub open spec fn escape_quotes(t: Seq<char>) -> Seq<char>
    decreases t.len(),
{
    if t.len() == 0 {
        Seq::empty()
    } else {
        (if t[0] == '"' {
            seq!['"', '"']
        } else {
            seq![t[0]]
        }) + escape_quotes(t.drop_first())
    }
}

/// `t` as a quoted csv field.
pub open spec fn quote_field(t: Seq<char>) -> Seq<char> {
    seq!['"'] + escape_quotes(t) + seq!['"']
}

/// A row of extracted text: the file it comes from, the index of its node
/// and the text.
pub struct TextRow {
    pub file_name: String,
    pub index: i32,
    pub text: String,
}

/// The line of a text table for a row.
pub open spec fn spec_csv_line(file_name: Seq<char>, index: i32, text: Seq<char>) -> Seq<char> {
    file_name + seq![','] + decimal(index as int) + seq![','] + quote_field(text) + seq![',', '\n']
}

/// The header line of a text table.
pub open spec fn spec_header() -> Seq<char> {
    "Filename,Index,Original Text,Translated Text\n"@
}

/// The lines of a table for rows.
pub open spec fn spec_csv_lines(rows: Seq<TextRow>) -> Seq<char>
    decreases rows.len(),
{
    if rows.len() == 0 {
        Seq::empty()
    } else {
        spec_csv_lines(rows.drop_last()) + spec_csv_line(
            rows.last().file_name@,
            rows.last().index,
            rows.last().text@,
        )
    }
}

/// Appends `t`, escaped, to `s`.
fn push_escaped(s: &mut String, t: &str)
    ensures
        final(s)@ == old(s)@ + escape_quotes(t@),
{
    let chars = str_chars(t);
    let mut i: usize = 0;
    assert(t@.skip(0) =~= t@);
    while i < chars.len()
        invariant
            i <= chars@.len(),
            chars@ == t@,
            old(s)@ + escape_quotes(t@) == s@ + escape_quotes(t@.skip(i as int)),
        decreases chars@.len() - i,
    {
        let c = chars[i];
        let ghost before = s@;
        proof {
            let rest = t@.skip(i as int);
            assert(rest.drop_first() =~= t@.skip(i + 1));
            assert(rest[0] == c);
        }
        if c == '"' {
            string_push(s, '"');
            string_push(s, '"');
            assert(before + escape_quotes(t@.skip(i as int)) =~= s@ + escape_quotes(t@.skip(i + 1)));
        } else {
            string_push(s, c);
            assert(before + escape_quotes(t@.skip(i as int)) =~= s@ + escape_quotes(t@.skip(i + 1)));
        }
        i = i + 1;
    }
    assert(t@.skip(chars@.len() as int) =~= Seq::<char>::empty());
    assert(s@ + Seq::<char>::empty() =~= s@);
}

/// Appends the table line of a row.
pub fn push_csv_line(s: &mut String, row: &TextRow)
    ensures
        final(s)@ == old(s)@ + spec_csv_line(row.file_name@, row.index, row.text@),
{
    s.append(row.file_name.as_str());
    string_push(s, ',');
    push_decimal(s, row.index);
    string_push(s, ',');
    string_push(s, '"');
    push_escaped(s, row.text.as_str());
    string_push(s, '"');
    string_push(s, ',');
    string_push(s, '\n');
    assert(final(s)@ =~= old(s)@ + spec_csv_line(row.file_name@, row.index, row.text@));
}

/// The text table of some rows: the header line, then a line per row.
pub fn write_csv_table(rows: &Vec<TextRow>) -> (r: String)
    ensures
        r@ == spec_header() + spec_csv_lines(rows@),
{
    let mut s = String::from_str("Filename,Index,Original Text,Translated Text\n");
    let mut i: usize = 0;
    while i < rows.len()
        invariant
            i <= rows@.len(),
            s@ == spec_header() + spec_csv_lines(rows@.take(i as int)),
        decreases rows@.len() - i,
    {
        push_csv_line(&mut s, &rows[i]);
        proof {
            assert(rows@.take(i + 1).drop_last() =~= rows@.take(i as int));
        }
        i = i + 1;
    }
    assert(rows@.take(rows@.len() as int) =~= rows@);
    s
}

/// Reading a quoted field back: after any prefix, the escaped text and a
/// closing quote that no further quote follows read as the text itself.
pub proof fn lemma_quoted_field_reads_back(p: Seq<char>, t: Seq<char>, rest: Seq<char>)
    requires
        rest.len() == 0 || rest[0] != '"',
    ensures
        quoted_from(p + escape_quotes(t) + seq!['"'] + rest, p.len() as int) == Some(
            (t, (p.len() + escape_quotes(t).len()) as int),
        ),
    decreases t.len(),
{
    let s = p + escape_quotes(t) + seq!['"'] + rest;
    if t.len() == 0 {
        assert(s[p.len() as int] == '"');
        assert(rest.len() > 0 ==> s[p.len() + 1int] == rest[0]);
    } else {
        let t2 = t.drop_first();
        if t[0] == '"' {
            let p2 = p + seq!['"', '"'];
            lemma_quoted_field_reads_back(p2, t2, rest);
            assert(s =~= p2 + escape_quotes(t2) + seq!['"'] + rest);
            assert(seq!['"'] + t2 =~= t);
        } else {
            let p2 = p + seq![t[0]];
            lemma_quoted_field_reads_back(p2, t2, rest);
            assert(s =~= p2 + escape_quotes(t2) + seq!['"'] + rest);
            assert(seq![t[0]] + t2 =~= t);
        }
    }
}

/// The run of ordinary characters at `i` ends where the first special
/// character is.
proof fn lemma_plain_end_at(s: Seq<char>, i: int, j: int)
    requires
        0 <= i <= j <= s.len(),
        forall|k: int| i <= k < j ==> !is_field_special(#[trigger] s[k]),
        j == s.len() || is_field_special(s[j]),
    ensures
        plain_end(s, i) == j,
    decreases j - i,
{
    if i < j {
        lemma_plain_end_at(s, i + 1, j);
    }
}

/// Decimal forms are made of ordinary characters and are not empty.
proof fn lemma_decimal_plain(n: int)
    ensures
        decimal(n).len() > 0,
        forall|k: int| 0 <= k < decimal(n).len() ==> !is_field_special(#[trigger] decimal(n)[k]),
{
    if n < 0 {
        lemma_digits_plain((-n) as nat);
        assert forall|k: int| 0 <= k < decimal(n).len() implies !is_field_special(#[trigger] decimal(n)[k]) by {
            if k > 0 {
                assert(decimal(n)[k] == digits((-n) as nat)[k - 1]);
            }
        }
    } else {
        lemma_digits_plain(n as nat);
    }
}

proof fn lemma_digits_plain(n: nat)
    ensures
        digits(n).len() > 0,
        forall|k: int| 0 <= k < digits(n).len() ==> !is_field_special(#[trigger] digits(n)[k]),
    decreases n,
{
    if n >= 10 {
        lemma_digits_plain(n / 10);
        assert forall|k: int| 0 <= k < digits(n).len() implies !is_field_special(#[trigger] digits(n)[k]) by {
            if k < digits(n / 10).len() {
                assert(digits(n)[k] == digits(n / 10)[k]);
            } else {
                assert(digits(n)[k] == digit_char((n % 10) as int));
            }
        }
    }
}

/// Reading a table line back: a line written for a row whose file name has
/// no `,`, `"`, `\r` or `\n` reads as the row of four fields: the file name,
/// the index, the text and an empty field, and the row ends at the line's
/// final `\n`.
pub proof fn lemma_csv_line_reads_back(f: Seq<char>, index: i32, t: Seq<char>, rest: Seq<char>)
    requires
        forall|k: int| 0 <= k < f.len() ==> !is_field_special(#[trigger] f[k]),
    ensures
        row_at(spec_csv_line(f, index, t) + rest, 0) == (
            seq![f, decimal(index as int), t, Seq::<char>::empty()],
            spec_csv_line(f, index, t).len() - 1,
        ),
{
    let d = decimal(index as int);
    let line = spec_csv_line(f, index, t);
    let s = line + rest;
    let e = escape_quotes(t);
    lemma_decimal_plain(index as int);
    let i1 = f.len() as int;
    let i2 = i1 + 1 + d.len();
    let i3 = i2 + 1;
    let close = i3 + 1 + e.len();
    let i4 = close + 2;
    assert(s =~= f + seq![','] + d + seq![','] + seq!['"'] + e + seq!['"'] + (seq![',', '\n'] + rest));
    assert(line.len() == i4 + 1);
    // the file name
    assert forall|k: int| 0 <= k < i1 implies !is_field_special(#[trigger] s[k]) by {
        assert(s[k] == f[k]);
    }
    assert(s[i1] == ',');
    if f.len() > 0 {
        lemma_plain_end_at(s, 0, i1);
        assert(s.subrange(0, i1) =~= f);
    } else {
        assert(f =~= Seq::<char>::empty());
    }
    assert(field_at(s, 0) == (f, i1));
    // the index
    assert forall|k: int| i1 + 1 <= k < i2 implies !is_field_special(#[trigger] s[k]) by {
        assert(s[k] == d[k - i1 - 1]);
    }
    assert(s[i2] == ',');
    assert(s[i1 + 1] == d[0]);
    lemma_plain_end_at(s, i1 + 1, i2);
    assert(s.subrange(i1 + 1, i2) =~= d);
    assert(field_at(s, i1 + 1) == (d, i2));
    // the text
    let p = f + seq![','] + d + seq![','] + seq!['"'];
    assert(s =~= p + e + seq!['"'] + (seq![',', '\n'] + rest));
    lemma_quoted_field_reads_back(p, t, seq![',', '\n'] + rest);
    assert(s[i3] == '"');
    assert(field_at(s, i3) == (t, close + 1));
    // the empty last field
    assert(s[close + 1] == ',');
    assert(s[i4] == '\n');
    assert(field_at(s, i4) == (Seq::<char>::empty(), i4));
    assert(row_at(s, i4) == (seq![Seq::<char>::empty()], i4));
    assert(row_at(s, close + 2) == row_at(s, i4));
    assert(row_at(s, i3) == (seq![t, Seq::<char>::empty()], i4));
    assert(row_at(s, i1 + 1) == (seq![d, t, Seq::<char>::empty()], i4)) by {
        assert(seq![d] + seq![t, Seq::<char>::empty()] =~= seq![d, t, Seq::<char>::empty()]);
    }
    assert(row_at(s, 0) == (seq![f, d, t, Seq::<char>::empty()], i4)) by {
        assert(seq![f] + seq![d, t, Seq::<char>::empty()] =~= seq![f, d, t, Seq::<char>::empty()]);
    }
}

proof fn lemma_csv_lines_add(a: Seq<TextRow>, b: Seq<TextRow>)
    ensures
        spec_csv_lines(a + b) == spec_csv_lines(a) + spec_csv_lines(b),
    decreases b.len(),
{
    if b.len() == 0 {
        assert(a + b =~= a);
        assert(spec_csv_lines(a) + spec_csv_lines(b) =~= spec_csv_lines(a));
    } else {
        lemma_csv_lines_add(a, b.drop_last());
        assert((a + b).drop_last() =~= a + b.drop_last());
        assert((a + b).last() == b.last());
        assert(spec_csv_lines(a + b) =~= spec_csv_lines(a) + spec_csv_lines(b));
    }
}

/// The cells of a row as a table line holds them: file name, index, text
/// and an empty last cell.
pub open spec fn line_cells(r: TextRow) -> Seq<Seq<char>> {
    seq![r.file_name@, decimal(r.index as int), r.text@, Seq::<char>::empty()]
}

/// The cells of the header line.
pub open spec fn header_cells() -> Seq<Seq<char>> {
    seq!["Filename"@, "Index"@, "Original Text"@, "Translated Text"@]
}

/// No row's file name holds a character that ends an unquoted field.
pub open spec fn plain_file_names(rows: Seq<TextRow>) -> bool {
    forall|k: int, c: int| 0 <= k < rows.len() && 0 <= c < rows[k].file_name@.len() ==> !is_field_special(
        #[trigger] rows[k].file_name@[c],
    )
}

#[verifier::spinoff_prover]
#[verifier::rlimit(50)]
proof fn lemma_rows_from(h: Seq<char>, rows: Seq<TextRow>, k: int)
    requires
        plain_file_names(rows),
        0 <= k <= rows.len(),
    ensures
        ({
            let s = h + spec_csv_lines(rows);
            let start = h.len() + spec_csv_lines(rows.take(k)).len() as int;
            csv_at(s, start) == (
                Seq::new((rows.len() - k) as nat, |j: int| line_cells(rows[k + j])) + seq![seq![Seq::<char>::empty()]],
                s.len() as int,
            )
        }),
    decreases rows.len() - k,
{
    let s = h + spec_csv_lines(rows);
    let pre = h + spec_csv_lines(rows.take(k));
    let tail = rows.skip(k);
    assert(rows =~= rows.take(k) + tail);
    lemma_csv_lines_add(rows.take(k), tail);
    assert(s =~= pre + spec_csv_lines(tail));
    let want = Seq::new((rows.len() - k) as nat, |j: int| line_cells(rows[k + j])) + seq![seq![Seq::<char>::empty()]];
    if k == rows.len() {
        assert(tail =~= Seq::<TextRow>::empty());
        assert(spec_csv_lines(tail) =~= Seq::<char>::empty());
        assert(s.len() == pre.len());
        assert(field_at(s, s.len() as int) == (Seq::<char>::empty(), s.len() as int));
        assert(want =~= seq![seq![Seq::<char>::empty()]]);
    } else {
        let r = rows[k];
        let line = spec_csv_line(r.file_name@, r.index, r.text@);
        let after = tail.drop_first();
        assert(tail =~= seq![r] + after);
        lemma_csv_lines_add(seq![r], after);
        assert(seq![r].drop_last() =~= Seq::<TextRow>::empty());
        assert(spec_csv_lines(seq![r]) == spec_csv_lines(seq![r].drop_last()) + line);
        assert(spec_csv_lines(seq![r]) =~= line);
        let x = line + spec_csv_lines(after);
        assert(s =~= pre + x);
        assert forall|c: int| 0 <= c < r.file_name@.len() implies !is_field_special(#[trigger] r.file_name@[c]) by {
            assert(!is_field_special(rows[k].file_name@[c]));
        }
        lemma_csv_line_reads_back(r.file_name@, r.index, r.text@, spec_csv_lines(after));
        lemma_row_at_shift(pre, x, 0);
        let j = line.len() - 1;
        assert(line[j] == '\n');
        assert(s[pre.len() + j] == '\n');
        assert(rows.take(k + 1).drop_last() =~= rows.take(k));
        assert(rows.take(k + 1).last() == r);
        lemma_rows_from(h, rows, k + 1);
        assert(want =~= seq![line_cells(r)] + (Seq::new((rows.len() - (k + 1)) as nat, |j: int| line_cells(rows[k + 1 + j]))
            + seq![seq![Seq::<char>::empty()]]));
    }
}

/// Reading written table lines back: where no file name holds `,`, `"`,
/// `\r` or `\n`, the lines read as each row's file name, index, text and an
/// empty cell, then one empty row after the final line ending; the whole
/// text is read.
pub proof fn lemma_csv_lines_read_back(rows: Seq<TextRow>)
    requires
        plain_file_names(rows),
    ensures
        csv_at(spec_csv_lines(rows), 0) == (
            Seq::new(rows.len(), |k: int| line_cells(rows[k])) + seq![seq![Seq::<char>::empty()]],
            spec_csv_lines(rows).len() as int,
        ),
{
    let h = Seq::<char>::empty();
    assert(h + spec_csv_lines(rows) =~= spec_csv_lines(rows));
    assert(rows.take(0) =~= Seq::<TextRow>::empty());
    lemma_rows_from(h, rows, 0);
    assert(Seq::new((rows.len() - 0) as nat, |j: int| line_cells(rows[0 + j])) =~= Seq::new(rows.len(), |k: int| line_cells(rows[k])));
}

/// Reading a written text table back: where no file name holds `,`, `"`,
/// `\r` or `\n`, the table reads as the header's cells, then for each row
/// its file name, index, text and an empty cell, then one empty row after
/// the final line ending; the whole text is read.
pub proof fn lemma_csv_table_reads_back(rows: Seq<TextRow>)
    requires
        plain_file_names(rows),
    ensures
        csv_at(spec_header() + spec_csv_lines(rows), 0) == (
            seq![header_cells()] + Seq::new(rows.len(), |k: int| line_cells(rows[k])) + seq![seq![Seq::<char>::empty()]],
            (spec_header() + spec_csv_lines(rows)).len() as int,
        ),
{
    let h = spec_header();
    let s = h + spec_csv_lines(rows);
    reveal_strlit("Filename,Index,Original Text,Translated Text\n");
    reveal_strlit("Filename");
    reveal_strlit("Index");
    reveal_strlit("Original Text");
    reveal_strlit("Translated Text");
    assert(h.len() == 45);
    assert forall|k: int| 0 <= k < 45 implies s[k] == h[k] by {}
    assert forall|k: int| 0 <= k < 8 implies !is_field_special(#[trigger] s[k]) by {}
    assert forall|k: int| 9 <= k < 14 implies !is_field_special(#[trigger] s[k]) by {}
    assert forall|k: int| 15 <= k < 28 implies !is_field_special(#[trigger] s[k]) by {}
    assert forall|k: int| 29 <= k < 44 implies !is_field_special(#[trigger] s[k]) by {}
    lemma_plain_end_at(s, 0, 8);
    lemma_plain_end_at(s, 9, 14);
    lemma_plain_end_at(s, 15, 28);
    lemma_plain_end_at(s, 29, 44);
    assert(s.subrange(0, 8) =~= "Filename"@);
    assert(s.subrange(9, 14) =~= "Index"@);
    assert(s.subrange(15, 28) =~= "Original Text"@);
    assert(s.subrange(29, 44) =~= "Translated Text"@);
    assert(field_at(s, 29) == ("Translated Text"@, 44int));
    assert(row_at(s, 29) == (seq!["Translated Text"@], 44int));
    assert(row_at(s, 15) == (seq!["Original Text"@, "Translated Text"@], 44int)) by {
        assert(seq!["Original Text"@] + seq!["Translated Text"@] =~= seq!["Original Text"@, "Translated Text"@]);
    }
    assert(row_at(s, 9) == (seq!["Index"@, "Original Text"@, "Translated Text"@], 44int)) by {
        assert(seq!["Index"@] + seq!["Original Text"@, "Translated Text"@] =~= seq![
            "Index"@,
            "Original Text"@,
            "Translated Text"@,
        ]);
    }
    assert(row_at(s, 0) == (header_cells(), 44int)) by {
        assert(seq!["Filename"@] + seq!["Index"@, "Original Text"@, "Translated Text"@] =~= header_cells());
    }
    assert(rows.take(0) =~= Seq::<TextRow>::empty());
    lemma_rows_from(h, rows, 0);
    assert(Seq::new((rows.len() - 0) as nat, |j: int| line_cells(rows[0 + j])) =~= Seq::new(rows.len(), |k: int| line_cells(rows[k])));
    assert(seq![header_cells()] + Seq::new(rows.len(), |k: int| line_cells(rows[k])) + seq![seq![Seq::<char>::empty()]]
        =~= seq![header_cells()] + (Seq::new(rows.len(), |k: int| line_cells(rows[k])) + seq![seq![Seq::<char>::empty()]]));
}

/// A node's text is extracted exactly when it has text and, where there is
/// a filter, the filter stands at some position of the node's type.
pub proof fn lemma_extracted_means(d: NodeDataView, f: Option<Seq<char>>)
    ensures
        extracted(d, f) <==> d.text.len() > 0 && match f {
            Some(x) => exists|i: int|
                0 <= i <= d.node_type.len() - x.len() && #[trigger] d.node_type.subrange(i, i + x.len()) == x,
            None => true,
        },
{
    if let Some(x) = f {
        if exists|i: int| 0 <= i <= d.node_type.len() - x.len() && #[trigger] d.node_type.subrange(i, i + x.len()) == x {
            let i = choose|i: int|
                0 <= i <= d.node_type.len() - x.len() && #[trigger] d.node_type.subrange(i, i + x.len()) == x;
            lemma_has_part_at(d.node_type, x, i);
        }
        lemma_has_part_at(d.node_type, x, 0);
    }
}

impl TextRow {
    /// What the row holds: file, index and text.
    pub open spec fn key(&self) -> (Seq<char>, i32, Seq<char>) {
        (self.file_name@, self.index, self.text@)
    }

    /// A copy of the row.
    pub fn duplicate(&self) -> (r: TextRow)
        ensures
            r.key() == self.key(),
    {
        TextRow { file_name: self.file_name.clone(), index: self.index, text: self.text.clone() }
    }
}

/// The order of rows: by file name, then index, then text, names and texts
/// by their UTF-8 bytes.
pub open spec fn row_lt(a: (Seq<char>, i32, Seq<char>), b: (Seq<char>, i32, Seq<char>)) -> bool {
    text_lt(a.0, b.0) || (a.0 == b.0 && (a.1 < b.1 || (a.1 == b.1 && text_lt(a.2, b.2))))
}

/// What a sequence of rows holds.
pub open spec fn row_keys(rows: Seq<TextRow>) -> Seq<(Seq<char>, i32, Seq<char>)> {
    rows.map_values(|r: TextRow| r.key())
}

/// No row comes before one that precedes it.
pub open spec fn rows_sorted(k: Seq<(Seq<char>, i32, Seq<char>)>) -> bool {
    forall|i: int, j: int| 0 <= i < j < k.len() ==> !row_lt(#[trigger] k[j], #[trigger] k[i])
}

proof fn lemma_row_lt_order(a: (Seq<char>, i32, Seq<char>), b: (Seq<char>, i32, Seq<char>), c: (Seq<char>, i32, Seq<char>))
    ensures
        row_lt(a, b) && row_lt(b, c) ==> row_lt(a, c),
        row_lt(a, b) ==> !row_lt(b, a),
{
    lemma_text_lt_order(a.0, b.0, c.0);
    lemma_text_lt_order(a.2, b.2, c.2);
    lemma_text_lt_order(b.0, a.0, c.0);
    lemma_text_lt_order(b.2, a.2, c.2);
    lemma_text_lt_order(a.0, a.0, a.0);
    lemma_text_lt_order(b.0, b.0, b.0);
    lemma_text_lt_order(a.2, a.2, a.2);
}

fn row_less(a: &TextRow, b: &TextRow) -> (r: bool)
    ensures
        r == row_lt(a.key(), b.key()),
{
    let c = compare_text(a.file_name.as_str(), b.file_name.as_str());
    if c != 0 {
        return c == -1;
    }
    if a.index != b.index {
        return a.index < b.index;
    }
    compare_text(a.text.as_str(), b.text.as_str()) == -1
}

/// The rows in order: by file name, then index, then text; equal rows
/// keep their order.
pub fn sort_rows(rows: &Vec<TextRow>) -> (r: Vec<TextRow>)
    ensures
        rows_sorted(row_keys(r@)),
        row_keys(r@).to_multiset() == row_keys(rows@).to_multiset(),
{
    let mut out: Vec<TextRow> = Vec::new();
    let mut i: usize = 0;
    proof {
        assert(row_keys(rows@).take(0) =~= Seq::<(Seq<char>, i32, Seq<char>)>::empty());
        assert(row_keys(out@) =~= Seq::<(Seq<char>, i32, Seq<char>)>::empty());
    }
    while i < rows.len()
        invariant
            i <= rows@.len(),
            rows_sorted(row_keys(out@)),
            row_keys(out@).to_multiset() == row_keys(rows@).take(i as int).to_multiset(),
        decreases rows@.len() - i,
    {
        let x = rows[i].duplicate();
        let ghost xk = x.key();
        let ghost ok = row_keys(out@);
        let mut pos: usize = 0;
        while pos < out.len() && !row_less(&x, &out[pos])
            invariant
                pos <= out@.len(),
                ok == row_keys(out@),
                xk == x.key(),
                forall|k: int| 0 <= k < pos ==> !row_lt(xk, #[trigger] ok[k]),
            decreases out@.len() - pos,
        {
            pos = pos + 1;
        }
        proof {
            assert(pos < out@.len() ==> row_lt(xk, ok[pos as int]));
        }
        out.insert(pos, x);
        proof {
            let nk = row_keys(out@);
            assert(nk =~= ok.insert(pos as int, xk));
            assert forall|a: int, b: int| 0 <= a < b < nk.len() implies !row_lt(#[trigger] nk[b], #[trigger] nk[a]) by {
                if b < pos {
                    assert(nk[a] == ok[a] && nk[b] == ok[b]);
                } else if a < pos && b == pos {
                    assert(nk[a] == ok[a]);
                } else if a < pos && b > pos {
                    assert(nk[a] == ok[a] && nk[b] == ok[b - 1]);
                    lemma_row_lt_order(ok[b - 1], xk, ok[a]);
                } else if a == pos {
                    assert(nk[b] == ok[b - 1]);
                    lemma_row_lt_order(ok[b - 1], xk, ok[pos as int]);
                    lemma_row_lt_order(xk, ok[pos as int], xk);
                } else {
                    assert(nk[a] == ok[a - 1] && nk[b] == ok[b - 1]);
                }
            }
            assert(rows@[i as int].key() == xk);
            assert(row_keys(rows@).take(i + 1) =~= row_keys(rows@).take(i as int).push(xk));
            row_keys(rows@).take(i as int).to_multiset_ensures();
            vstd::seq_lib::to_multiset_insert(ok, pos as int, xk);
        }
        i = i + 1;
    }
    proof {
        assert(row_keys(rows@).take(i as int) =~= row_keys(rows@));
    }
    out
}

/// A node's text is extracted: it has text, and its type contains the
/// filter where there is one.
pub open spec fn extracted(d: NodeDataView, filter: Option<Seq<char>>) -> bool {
    d.text.len() > 0 && match filter {
        Some(f) => has_part(d.node_type, f),
        None => true,
    }
}

/// The rows of extracted text of nodes: one for each extracted node, with
/// its index, in order.
pub open spec fn spec_text_rows(ds: Seq<NodeDataView>, file_name: Seq<char>, filter: Option<Seq<char>>) -> Seq<(Seq<char>, i32, Seq<char>)>
    decreases ds.len(),
{
    if ds.len() == 0 {
        Seq::empty()
    } else if extracted(ds.last(), filter) {
        spec_text_rows(ds.drop_last(), file_name, filter).push((file_name, (ds.len() - 1) as i32, ds.last().text))
    } else {
        spec_text_rows(ds.drop_last(), file_name, filter)
    }
}

/// The view of an optional text.
pub open spec fn opt_text(f: Option<&str>) -> Option<Seq<char>> {
    match f {
        Some(t) => Some(t@),
        None => None,
    }
}

/// The rows of extracted text of a file: one for each node with text
/// whose type contains `filter`, where there is one.
pub fn text_rows(jxb: &Jxb, file_name: &str, filter: Option<&str>) -> (r: Result<Vec<TextRow>, FormatError>)
    requires
        jxb.string_pool.wf(),
        jxb.node_data_bs@.len() <= i32::MAX,
    ensures
        match jxb.spec_node_list() {
            Ok(ds) => r matches Ok(v) && row_keys(v@) == spec_text_rows(ds, file_name@, opt_text(filter)),
            Err(m) => r matches Err(FormatError::InvalidData(e)) && e@ == m,
        },
{
    let list = match jxb.node_list() {
        Ok(l) => l,
        Err(e) => {
            return Err(e);
        },
    };
    let ghost ds = list@.map_values(|n: NodeData| n@);
    proof {
        lemma_decode_all_len(bs_view(jxb.node_data_bs@), jxb.string_pool.utf8_view(), jxb.string_pool.text_view());
    }
    let mut out: Vec<TextRow> = Vec::new();
    let mut i: usize = 0;
    proof {
        assert(ds.take(0) =~= Seq::<NodeDataView>::empty());
        assert(row_keys(out@) =~= Seq::<(Seq<char>, i32, Seq<char>)>::empty());
    }
    while i < list.len()
        invariant
            i <= list@.len(),
            list@.len() <= i32::MAX,
            ds == list@.map_values(|n: NodeData| n@),
            row_keys(out@) == spec_text_rows(ds.take(i as int), file_name@, opt_text(filter)),
        decreases list@.len() - i,
    {
        proof {
            assert(ds.take(i + 1).drop_last() =~= ds.take(i as int));
            assert(ds.take(i + 1).last() == list@[i as int]@);
        }
        let text = list[i].get_inner_text();
        let wanted = match filter {
            Some(f) => text_contains(list[i].get_type(), f),
            None => true,
        };
        if !text.is_empty() && wanted {
            let ghost before = row_keys(out@);
            out.push(TextRow { file_name: file_name.to_owned(), index: i as i32, text: text.to_owned() });
            proof {
                assert(row_keys(out@) =~= before.push((file_name@, i as i32, text@)));
            }
        }
        i = i + 1;
    }
    proof {
        assert(ds.take(i as int) =~= ds);
    }
    Ok(out)
}

} // verus!
