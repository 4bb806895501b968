use stella_stage::inject::InjectRow;
use stella_stage::jxb::{get_string, FormatError, Jxb, TagData};
use stella_stage::encode::offset_lookup;
use stella_stage::format::{archive_bytes, file_bytes};
use stella_stage::jxk::{trimmed_file_name, FileMetadata, Jxk};
use stella_stage::node::{NodeData, TagError, Value};
use stella_stage::parse::ParseError;
use stella_stage::table::text_rows;
use stella_stage::tree::Node;

fn value_text(v: &Value) -> String {
    match v {
        Value::Float(bits) => format!("F{bits}"),
        other => other.to_text().expect("not a float"),
    }
}

fn describe(n: &Node) -> String {
    let mut s = format!("<{}", n.data.node_type);
    for (k, v) in n.data.tags.iter() {
        s += &format!(" {}={}", k, value_text(v));
    }
    s += ">";
    s += &n.data.text;
    for c in &n.children {
        s += &describe(c);
    }
    s += "</>";
    s
}

fn element(name: &str, attrs: Vec<(&str, Value)>, text: &str, children: Vec<Node>) -> Node {
    let mut data = NodeData::from_element(name.to_string(), attrs.into_iter().map(|(k, v)| (k.to_string(), v)).collect());
    data.text = text.to_string();
    Node { data, children }
}

fn sample() -> Node {
    element(
        "root",
        vec![("id", Value::Int(7)), ("title", Value::Text("A \u{1F600} story".to_string()))],
        "",
        vec![
            element("msg", vec![("name", Value::Text("greeting".to_string())), ("on", Value::Bool(true))], "Hello", vec![]),
            element("ref", vec![("to", Value::Node(3)), ("w", Value::Float(0x3f80_0000))], "", vec![]),
            element("group", vec![], "", vec![
                element("msg", vec![("name", Value::Text("title".to_string()))], "こんにちは", vec![]),
                element("msg", vec![], "", vec![]),
            ]),
        ],
    )
}

fn archive_sample() -> Node {
    element("files", vec![], "", vec![
        element("file", vec![("name", Value::Text("data\\sub\\one.bin".to_string()))], "", vec![]),
        element("note", vec![], "text", vec![]),
        element("file", vec![("name", Value::Text("two.bin".to_string()))], "", vec![]),
    ])
}

#[test]
fn tree_survives_a_file() {
    let tree = sample();
    let expected = describe(&tree);
    let jxb = Jxb::from_trees(vec![tree]).ok().expect("a file");
    let root = jxb.root_node().ok().expect("a root");
    assert_eq!(describe(&root), expected);
}

#[test]
fn tree_survives_the_bytes_of_a_file() {
    let tree = sample();
    let expected = describe(&tree);
    let jxb = Jxb::from_trees(vec![tree]).ok().expect("a file");
    let bytes = jxb.to_bytes().ok().expect("bytes");
    assert_eq!(&bytes[0..7], b"JXB\0\x01\x00\x01");
    assert_eq!(bytes[7], 2);
    let back = Jxb::parse(&bytes).ok().expect("the bytes parse");
    assert_eq!(describe(&back.root_node().ok().expect("a root")), expected);
    assert_eq!(back.to_bytes().ok().expect("bytes"), bytes);
}

#[test]
fn strings_are_shared_and_sorted() {
    let jxb = Jxb::from_trees(vec![sample()]).ok().expect("a file");
    let keys: Vec<&str> = jxb.string_pool.utf8_strings.iter().take(jxb.key_string_offsets.len()).map(|(_, s)| s.as_str()).collect();
    assert_eq!(keys, vec!["group", "id", "msg", "name", "on", "ref", "root", "title", "to", "w"]);
    let mut offset = 0;
    for (o, s) in &jxb.string_pool.utf8_strings {
        assert_eq!(*o, offset);
        offset += s.len() as i32 + 1;
    }
    let texts: Vec<&str> = jxb.string_pool.utf16_strings.as_ref().unwrap().iter().map(|(_, s)| s.as_str()).collect();
    assert_eq!(texts, vec!["", "Hello", "こんにちは"]);
    let first_text = jxb.string_pool.utf16_strings.as_ref().unwrap()[0].0;
    assert_eq!(first_text, offset);
}

#[test]
fn more_than_one_top_level_node_is_refused() {
    match Jxb::from_trees(vec![element("a", vec![], "", vec![]), element("b", vec![], "", vec![])]) {
        Err(FormatError::InvalidData(m)) => assert_eq!(m, "xml file contains more than one top-level node"),
        _ => panic!("expected an error"),
    }
    match Jxb::from_trees(vec![]) {
        Err(FormatError::InvalidData(m)) => assert_eq!(m, "xml file contains more than one top-level node"),
        _ => panic!("expected an error"),
    }
}

#[test]
fn missing_string_is_reported_in_hex() {
    let table = vec![(0, "a".to_string()), (2, "bc".to_string())];
    assert_eq!(get_string(2, &table).ok(), Some("bc"));
    assert_eq!(get_string(-1, &table).ok(), Some(""));
    match get_string(26, &table) {
        Err(FormatError::InvalidData(m)) => assert_eq!(m, "Could not find string at 0x1A"),
        _ => panic!("expected an error"),
    }
}

#[test]
fn stored_tags_decode_to_values() {
    let table = vec![(0, "a".to_string()), (2, "bc".to_string())];
    let tag = |type_id: u32, value: i32| TagData { key_offset: 0, type_id, value };
    assert!(matches!(Value::new(&tag(2, 9), &table), Ok(Value::Node(9))));
    assert!(matches!(Value::new(&tag(3, 2), &table), Ok(Value::Text(ref t)) if t == "bc"));
    assert!(matches!(Value::new(&tag(4, 77), &table), Ok(Value::Float(77))));
    assert!(matches!(Value::new(&tag(5, -1), &table), Ok(Value::Int(-1))));
    assert!(matches!(Value::new(&tag(6, 1), &table), Ok(Value::Bool(true))));
    match Value::new(&tag(6, 2), &table) {
        Err(FormatError::InvalidData(m)) => assert_eq!(m, "Invalid boolean value 0x2!"),
        _ => panic!("expected an error"),
    }
    match Value::new(&tag(9, -1), &table) {
        Err(FormatError::InvalidData(m)) => assert_eq!(m, "Invalid tag type! type_id: 0x9, value: 0xFFFFFFFF"),
        _ => panic!("expected an error"),
    }
}

#[test]
fn text_tags_are_read_by_key() {
    let data = NodeData::from_element("e".to_string(), vec![("name".to_string(), Value::Text("n".to_string())), ("k".to_string(), Value::Int(1))]);
    assert_eq!(data.get_text_tag("name").ok(), Some("n"));
    match data.get_text_tag("k") {
        Err(TagError::NotText(m)) => assert_eq!(m, "Tag with key k on node is not a string"),
        _ => panic!("expected an error"),
    }
    match data.get_text_tag("zz") {
        Err(TagError::Missing(m)) => assert_eq!(m, "Could not find tag with key zz on node"),
        _ => panic!("expected an error"),
    }
}

#[test]
fn texts_are_extracted_with_their_indexes() {
    let jxb = Jxb::from_trees(vec![sample()]).ok().expect("a file");
    let rows = text_rows(&jxb, "s.jxb", None).ok().expect("rows");
    let got: Vec<(String, i32, String)> = rows.iter().map(|r| (r.file_name.clone(), r.index, r.text.clone())).collect();
    assert_eq!(got, vec![("s.jxb".to_string(), 1, "Hello".to_string()), ("s.jxb".to_string(), 4, "こんにちは".to_string())]);
}

#[test]
fn injected_text_lands_on_its_node() {
    let jxb = Jxb::from_trees(vec![sample()]).ok().expect("a file");
    let cells = |v: &[&str]| v.iter().map(|s| s.to_string()).collect::<Vec<String>>();
    let rows = vec![
        InjectRow::from_row(cells(&["s.jxb", "1", "msg", "Hello", "Bonjour"])).ok().unwrap(),
        InjectRow::from_row(cells(&["s.jxb", "4", "msg", "x", ""])).ok().unwrap(),
    ];
    let edited = jxb.inject_text(&rows).ok().expect("a file");
    let rows = text_rows(&edited, "s.jxb", None).ok().expect("rows");
    let got: Vec<(i32, String)> = rows.iter().map(|r| (r.index, r.text.clone())).collect();
    assert_eq!(got, vec![(1, "Bonjour".to_string()), (4, "こんにちは".to_string())]);
}

#[test]
fn injecting_the_texts_nodes_have_changes_nothing() {
    let jxb = Jxb::from_trees(vec![sample()]).ok().expect("a file");
    let before = describe(&jxb.root_node().ok().unwrap());
    let cells = |v: &[&str]| v.iter().map(|s| s.to_string()).collect::<Vec<String>>();
    let rows = vec![
        InjectRow::from_row(cells(&["s.jxb", "1", "msg", "Hello", "Hello"])).ok().unwrap(),
        InjectRow::from_row(cells(&["s.jxb", "4", "msg", "x", ""])).ok().unwrap(),
        InjectRow::from_row(cells(&["s.jxb", "4", "msg", "x", "こんにちは"])).ok().unwrap(),
    ];
    let edited = jxb.inject_text(&rows).ok().expect("a file");
    assert_eq!(describe(&edited.root_node().ok().unwrap()), before);
    assert_eq!(edited.to_bytes().ok().unwrap(), jxb.to_bytes().ok().unwrap());
}

#[test]
fn archive_lists_its_file_nodes() {
    let jxb = Jxb::from_trees(vec![archive_sample()]).ok().expect("a file");
    let jxk = Jxk::new(jxb).ok().expect("an archive");
    let indexes: Vec<i32> = jxk.file_metadatas.iter().map(|m| m.node_index).collect();
    assert_eq!(indexes, vec![1, 3]);
    let names = jxk.stored_file_names().ok().expect("names");
    assert_eq!(names, vec!["one.bin".to_string(), "two.bin".to_string()]);
}

#[test]
fn archive_bytes_read_back() {
    let jxb = Jxb::from_trees(vec![archive_sample()]).ok().expect("a file");
    let expected = describe(&jxb.root_node().ok().unwrap());
    let mut jxk = Jxk::new(jxb).ok().expect("an archive");
    let header = jxk.to_bytes().ok().expect("bytes");
    assert!(jxk.place_files(header.len() as u64, &vec![5, 20]).is_ok());
    let first = jxk.file_metadatas[0].data_offset as usize;
    let second = jxk.file_metadatas[1].data_offset as usize;
    assert_eq!(first, (header.len() + 15) / 16 * 16);
    assert_eq!(second, (first + 5 + 15) / 16 * 16);
    let mut bytes = jxk.to_bytes().ok().expect("bytes");
    assert_eq!(bytes.len(), header.len());
    bytes.resize(first, 0);
    bytes.extend_from_slice(b"12345");
    bytes.resize(second, 0);
    bytes.extend_from_slice(&[7u8; 20]);
    let back = Jxk::parse(&bytes).ok().expect("the archive parses");
    assert_eq!(back.file_metadatas.len(), 2);
    assert_eq!(back.file_metadatas[1].data_size, 20);
    assert_eq!(describe(&back.root_node().ok().unwrap()), expected);
}

#[test]
fn assembled_archive_gives_each_file_back() {
    let jxb = Jxb::from_trees(vec![archive_sample()]).ok().expect("a file");
    let mut jxk = Jxk::new(jxb).ok().expect("an archive");
    let header = jxk.to_bytes().ok().expect("bytes");
    let datas = vec![b"12345".to_vec(), vec![7u8; 20]];
    assert!(jxk.place_files(header.len() as u64, &vec![5, 20]).is_ok());
    let header = jxk.to_bytes().ok().expect("bytes");
    let bytes = archive_bytes(header.clone(), &datas);
    let first = (header.len() + 15) / 16 * 16;
    let second = (first + 5 + 15) / 16 * 16;
    assert_eq!(bytes.len(), second + 20);
    assert!(bytes[header.len()..first].iter().all(|b| *b == 0));
    assert!(bytes[first + 5..second].iter().all(|b| *b == 0));
    let back = Jxk::parse(&bytes).ok().expect("the archive parses");
    assert_eq!(file_bytes(&bytes, &back.file_metadatas[0]), datas[0]);
    assert_eq!(file_bytes(&bytes, &back.file_metadatas[1]), datas[1]);
}

#[test]
fn offset_lookup_finds_the_first_offset() {
    let table = vec![(0, "a".to_string()), (2, "bc".to_string()), (5, "a".to_string())];
    assert_eq!(offset_lookup(&table, "a"), Some(0));
    assert_eq!(offset_lookup(&table, "bc"), Some(2));
    assert_eq!(offset_lookup(&table, "d"), None);
}

#[test]
fn file_bytes_stop_at_the_end() {
    let d: Vec<u8> = (0..40u8).collect();
    let m = |o: i32, s: i32| FileMetadata { node_index: 0, data_offset: o, data_size: s };
    assert_eq!(file_bytes(&d, &m(4, 3)), vec![4, 5, 6]);
    assert_eq!(file_bytes(&d, &m(36, 10)), vec![36, 37, 38, 39]);
    assert_eq!(file_bytes(&d, &m(50, 2)), Vec::<u8>::new());
    assert_eq!(file_bytes(&d, &m(-1, 2)), Vec::<u8>::new());
    assert_eq!(file_bytes(&d, &m(38, -1)), vec![38, 39]);
}

#[test]
fn bad_bytes_are_refused() {
    assert!(matches!(Jxb::parse(b"JXB"), Err(ParseError::Truncated)));
    assert!(matches!(Jxb::parse(&[0u8; 0x40]), Err(ParseError::BadMagic(0))));
    let jxb = Jxb::from_trees(vec![sample()]).ok().expect("a file");
    let mut bytes = jxb.to_bytes().ok().expect("bytes");
    bytes[7] = 3;
    assert!(matches!(Jxb::parse(&bytes), Err(ParseError::BadStringFlag(3))));
    let bytes = jxb.to_bytes().ok().expect("bytes");
    assert!(matches!(Jxb::parse(&bytes[..bytes.len() - 1]), Err(ParseError::Truncated)));
}

#[test]
fn file_names_keep_what_follows_the_last_backslash() {
    assert_eq!(trimmed_file_name("a\\b\\c.bin"), "c.bin");
    assert_eq!(trimmed_file_name("plain.bin"), "plain.bin");
    assert_eq!(trimmed_file_name("ends\\"), "");
}

#[test]
fn extraction_filter_keeps_nodes_whose_type_contains_it() {
    let tree = element("root", vec![], "", vec![
        element("jp", vec![], "a", vec![]),
        element("name_jp", vec![], "b", vec![]),
        element("ch", vec![], "c", vec![]),
    ]);
    let jxb = Jxb::from_trees(vec![tree]).ok().expect("a file");
    let rows = text_rows(&jxb, "f", Some("jp")).ok().expect("rows");
    let got: Vec<(i32, String)> = rows.iter().map(|r| (r.index, r.text.clone())).collect();
    assert_eq!(got, vec![(1, "a".to_string()), (2, "b".to_string())]);
}
