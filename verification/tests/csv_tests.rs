use nom::{
    branch::alt,
    bytes::complete::{is_not, tag, take},
    character::complete::{char, line_ending},
    combinator::value,
    multi::{fold, separated_list0},
    sequence::delimited,
    IResult, Parser,
};
use stella_stage::csv::parse_csv;
use stella_stage::table::{sort_rows, write_csv_table, TextRow};

#[derive(Clone)]
enum Fragment<'a> {
    Literal(&'a str),
    EscapedQuote,
}

fn nom_fragment(input: &str) -> IResult<&str, Fragment<'_>> {
    alt((value(Fragment::EscapedQuote, tag("\"\"")), nom::combinator::map(is_not("\""), Fragment::Literal))).parse(input)
}

fn nom_string(input: &str) -> IResult<&str, String> {
    let build = fold(0.., nom_fragment, String::new, |mut s, f| {
        match f {
            Fragment::Literal(t) => s.push_str(t),
            Fragment::EscapedQuote => s.push('"'),
        };
        s
    });
    alt((
        delimited(char('"'), build, char('"')),
        nom::combinator::map(is_not(",\"\r\n"), |s: &str| s.to_string()),
        value(String::new(), take(0usize)),
    ))
    .parse(input)
}

fn nom_row(input: &str) -> IResult<&str, Vec<String>> {
    separated_list0(tag(","), nom_string).parse(input)
}

fn nom_csv(input: &str) -> IResult<&str, Vec<Vec<String>>> {
    separated_list0(line_ending, nom_row).parse(input)
}

fn same_as_nom(input: &str) {
    let (consumed, rows) = parse_csv(input);
    let (rest, expected) = nom_csv(input).ok().expect("the nom grammar always succeeds");
    assert_eq!(rows, expected, "rows of {:?}", input);
    let consumed_chars = input.chars().count() - rest.chars().count();
    assert_eq!(consumed, consumed_chars, "consumed part of {:?}", input);
}

#[test]
fn csv_matches_nom_on_plain_tables() {
    same_as_nom("a,b,c\n1,2,3\n");
    same_as_nom("Filename,Index,Original Text,Translated Text\r\nf.jxb,3,\"hi\",\"yo\"\r\n");
    same_as_nom("");
    same_as_nom(",,\n,");
}

#[test]
fn csv_matches_nom_on_quotes() {
    same_as_nom("\"say \"\"hi\"\"\",x\n");
    same_as_nom("\"multi\nline\",y");
    same_as_nom("\"unterminated,z");
    same_as_nom("a\"b,c");
    same_as_nom("\"\"\"\"");
}

#[test]
fn csv_reads_quoted_fields() {
    let (_, rows) = parse_csv("a,\"b,c\",\"d\"\"e\"\n1,2");
    assert_eq!(rows, vec![
        vec!["a".to_string(), "b,c".to_string(), "d\"e".to_string()],
        vec!["1".to_string(), "2".to_string()],
    ]);
}

#[test]
fn text_table_is_written_with_quotes_doubled() {
    let rows = vec![
        TextRow { file_name: "a.jxb".to_string(), index: 3, text: "say \"hi\"".to_string() },
        TextRow { file_name: "b.jxb".to_string(), index: -1, text: "x".to_string() },
    ];
    assert_eq!(
        write_csv_table(&rows),
        "Filename,Index,Original Text,Translated Text\na.jxb,3,\"say \"\"hi\"\"\",\nb.jxb,-1,\"x\",\n"
    );
}

#[test]
fn written_text_table_reads_back() {
    let rows = vec![
        TextRow { file_name: "dir\\a.jxb".to_string(), index: 12, text: "line\nwith, comma and \"quote\"".to_string() },
    ];
    let table = write_csv_table(&rows);
    let (_, lines) = parse_csv(&table);
    assert_eq!(lines[1], vec![
        "dir\\a.jxb".to_string(),
        "12".to_string(),
        "line\nwith, comma and \"quote\"".to_string(),
        String::new(),
    ]);
}

#[test]
fn whole_written_table_reads_back() {
    let rows = vec![
        TextRow { file_name: "a.jxb".to_string(), index: -7, text: "x\r\ny".to_string() },
        TextRow { file_name: "b.jxb".to_string(), index: 0, text: String::new() },
    ];
    let table = write_csv_table(&rows);
    let (consumed, lines) = parse_csv(&table);
    assert_eq!(consumed, table.chars().count());
    let cells = |v: &[&str]| v.iter().map(|s| s.to_string()).collect::<Vec<String>>();
    assert_eq!(lines, vec![
        cells(&["Filename", "Index", "Original Text", "Translated Text"]),
        cells(&["a.jxb", "-7", "x\r\ny", ""]),
        cells(&["b.jxb", "0", "", ""]),
        cells(&[""]),
    ]);
}

#[test]
fn rows_sort_by_file_then_index_then_text() {
    let row = |f: &str, i: i32, t: &str| TextRow { file_name: f.to_string(), index: i, text: t.to_string() };
    let rows = vec![row("b", 1, "x"), row("a", 10, "y"), row("a", 2, "z"), row("a", 2, "b"), row("B", 0, "q")];
    let sorted = sort_rows(&rows);
    let keys: Vec<(String, i32, String)> = sorted.iter().map(|r| (r.file_name.clone(), r.index, r.text.clone())).collect();
    assert_eq!(keys, vec![
        ("B".to_string(), 0, "q".to_string()),
        ("a".to_string(), 2, "b".to_string()),
        ("a".to_string(), 2, "z".to_string()),
        ("a".to_string(), 10, "y".to_string()),
        ("b".to_string(), 1, "x".to_string()),
    ]);
}
