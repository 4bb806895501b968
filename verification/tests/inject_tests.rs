use stella_stage::inject::{group_rows_by_file, parse_i32, read_inject_rows, InjectRow};
use stella_stage::jxb::FormatError;

fn cells(v: &[&str]) -> Vec<String> {
    v.iter().map(|s| s.to_string()).collect()
}

#[test]
fn parse_i32_follows_std() {
    for s in ["0", "123", "-5", "+7", "007", "-2147483648", "2147483647", "", "-", "+", "abc", "1a", " 1", "2147483648", "-2147483649", "99999999999"] {
        assert_eq!(parse_i32(s), s.parse::<i32>().ok(), "parsing {:?}", s);
    }
}

#[test]
fn row_with_too_few_cells_is_refused() {
    match InjectRow::from_row(cells(&["a.jxb", "1", "t", "x"])) {
        Err(FormatError::InvalidData(m)) => assert_eq!(m, "Csv row does not have enough cells!"),
        _ => panic!("expected an error"),
    }
}

#[test]
fn row_with_bad_index_is_refused() {
    match InjectRow::from_row(cells(&["a.jxb", "one", "t", "x", "y"])) {
        Err(FormatError::InvalidData(m)) => assert_eq!(m, "Could not parse csv data as integer!"),
        _ => panic!("expected an error"),
    }
}

#[test]
fn row_is_read_from_its_cells() {
    let row = InjectRow::from_row(cells(&["a.jxb", "-4", "msg", "old", "new", "extra"])).ok().expect("a row");
    assert_eq!(row.file_name, "a.jxb");
    assert_eq!(row.index, -4);
    assert_eq!(row.node_type, "msg");
    assert_eq!(row.original_text, "old");
    assert_eq!(row.inject_text, "new");
}

#[test]
fn rows_are_read_after_the_header() {
    let text = "Filename,Index,Type,Original Text,Translated Text\na.jxb,1,m,\"x\",\"y\"\nb.jxb,2,m,p,q";
    let rows = read_inject_rows(text).ok().expect("rows");
    assert_eq!(rows.len(), 2);
    assert_eq!(rows[0].file_name, "a.jxb");
    assert_eq!(rows[0].inject_text, "y");
    assert_eq!(rows[1].index, 2);
}

#[test]
fn a_bad_row_fails_the_table() {
    let text = "h1,h2,h3,h4,h5\na.jxb,1,m,x,y\nb.jxb\n";
    match read_inject_rows(text) {
        Err(FormatError::InvalidData(m)) => assert_eq!(m, "Csv row does not have enough cells!"),
        _ => panic!("expected an error"),
    }
}

#[test]
fn rows_are_grouped_by_file_in_name_order() {
    let row = |f: &str, i: i32| InjectRow::from_row(cells(&[f, &i.to_string(), "t", "o", "n"])).ok().unwrap();
    let rows = vec![row("b.jxb", 1), row("a.jxk", 2), row("b.jxb", 3), row("a.jxk", 4), row("c.jxb", 5)];
    let groups = group_rows_by_file(&rows);
    let shape: Vec<(String, Vec<i32>)> = groups.iter().map(|(n, g)| (n.clone(), g.iter().map(|r| r.index).collect())).collect();
    assert_eq!(shape, vec![
        ("a.jxk".to_string(), vec![2, 4]),
        ("b.jxb".to_string(), vec![1, 3]),
        ("c.jxb".to_string(), vec![5]),
    ]);
}

#[test]
fn a_final_line_ending_makes_an_empty_row() {
    let text = "h1,h2,h3,h4,h5\na.jxb,1,m,x,y\n";
    match read_inject_rows(text) {
        Err(FormatError::InvalidData(m)) => assert_eq!(m, "Csv row does not have enough cells!"),
        _ => panic!("expected an error"),
    }
}

#[test]
fn only_a_header_gives_no_rows() {
    let rows = read_inject_rows("Filename,Index,Type,Original Text,Translated Text").ok().expect("rows");
    assert!(rows.is_empty());
}
