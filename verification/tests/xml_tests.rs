use stella_stage::node::{NodeData, Value};
use stella_stage::tree::Node;
use stella_stage::xml::{TreeBuilder, XmlError, XmlEvent};

fn value_text(v: &Value) -> String {
    match v {
        Value::Float(bits) => format!("F{bits}"),
        other => other.to_text().expect("not a float"),
    }
}

fn describe(n: &Node) -> String {
    let mut s = format!("<{}", n.data.node_type);
    for (k, v) in n.data.tags.iter() {
        s += &format!(" {}={}", k, value_text(v));
    }
    s += ">";
    s += &n.data.text;
    for c in &n.children {
        s += &describe(c);
    }
    s += "</>";
    s
}

fn element(name: &str, attrs: Vec<(&str, Value)>, text: &str, children: Vec<Node>) -> Node {
    let mut data = NodeData::from_element(name.to_string(), attrs.into_iter().map(|(k, v)| (k.to_string(), v)).collect());
    data.text = text.to_string();
    Node { data, children }
}

fn sample() -> Node {
    element(
        "root",
        vec![("id", Value::Int(7)), ("on", Value::Bool(true))],
        "",
        vec![
            element("msg", vec![("name", Value::Text("a".to_string()))], "Hello", vec![]),
            element("ref", vec![("to", Value::Node(3)), ("w", Value::Float(0x3f80_0000))], "", vec![]),
            element("group", vec![], "", vec![element("msg", vec![], "inner", vec![])]),
        ],
    )
}

fn read_events(events: Vec<XmlEvent>) -> Result<Vec<Node>, XmlError> {
    let mut builder = TreeBuilder::new();
    for ev in events {
        builder.step(ev)?;
    }
    builder.finish()
}

#[test]
fn written_events_read_back_as_the_tree() {
    let tree = sample();
    let mut events = Vec::new();
    tree.xml_events(&mut events);
    events.push(XmlEvent::Eof);
    let read = read_events(events).ok().expect("the events read back");
    assert_eq!(read.len(), 1);
    assert_eq!(describe(&read[0]), describe(&tree));
}

#[test]
fn whitespace_between_elements_is_passed_over() {
    let events = vec![
        XmlEvent::Start(NodeData::from_element("a".to_string(), vec![])),
        XmlEvent::Text("\n  ".to_string()),
        XmlEvent::Empty(NodeData::from_element("b".to_string(), vec![])),
        XmlEvent::Text(" \t\u{3000}".to_string()),
        XmlEvent::End("a".to_string()),
        XmlEvent::Eof,
    ];
    let read = read_events(events).ok().expect("trees");
    assert_eq!(describe(&read[0]), "<a><b></></>");
}

#[test]
fn mismatched_end_tag_is_refused() {
    let events = vec![XmlEvent::Start(NodeData::from_element("a".to_string(), vec![])), XmlEvent::End("b".to_string())];
    match read_events(events) {
        Err(XmlError::MismatchedEndTag { expected, found }) => {
            assert_eq!(expected, "a");
            assert_eq!(found, "b");
        },
        _ => panic!("expected a mismatched end tag"),
    }
}

#[test]
fn unmatched_end_tag_is_refused() {
    match read_events(vec![XmlEvent::End("x".to_string())]) {
        Err(XmlError::UnmatchedEndTag(name)) => assert_eq!(name, "x"),
        _ => panic!("expected an unmatched end tag"),
    }
}

#[test]
fn missing_end_tag_is_refused() {
    let events = vec![XmlEvent::Start(NodeData::from_element("open".to_string(), vec![])), XmlEvent::Eof];
    match read_events(events) {
        Err(XmlError::MissingEndTag(name)) => assert_eq!(name, "open"),
        _ => panic!("expected a missing end tag"),
    }
}

#[test]
fn text_and_children_together_are_refused() {
    let events = vec![
        XmlEvent::Start(NodeData::from_element("p".to_string(), vec![])),
        XmlEvent::Text("words".to_string()),
        XmlEvent::Empty(NodeData::from_element("c".to_string(), vec![])),
    ];
    match read_events(events) {
        Err(XmlError::TextAndChildren(name)) => assert_eq!(name, "p"),
        _ => panic!("expected text and children"),
    }
    let events = vec![
        XmlEvent::Start(NodeData::from_element("p".to_string(), vec![])),
        XmlEvent::Empty(NodeData::from_element("c".to_string(), vec![])),
        XmlEvent::Text("words".to_string()),
    ];
    match read_events(events) {
        Err(XmlError::TextAndChildren(name)) => assert_eq!(name, "p"),
        _ => panic!("expected text and children"),
    }
}

#[test]
fn attribute_texts_become_values() {
    let v = |s: &str, f: Option<i32>| value_text(&Value::from_str(s.to_string(), f));
    assert_eq!(v("true", None), "true");
    assert_eq!(v("false", None), "false");
    assert!(matches!(Value::from_str("NODE12".to_string(), None), Value::Node(12)));
    assert!(matches!(Value::from_str("-40".to_string(), Some(1)), Value::Int(-40)));
    assert!(matches!(Value::from_str("1.5".to_string(), Some(0x3fc0_0000)), Value::Float(0x3fc0_0000)));
    assert!(matches!(Value::from_str("NODEx".to_string(), None), Value::Text(_)));
    assert!(matches!(Value::from_str("hello".to_string(), None), Value::Text(_)));
}

#[test]
fn values_write_their_texts() {
    assert_eq!(Value::Node(-3).to_text().unwrap(), "NODE-3");
    assert_eq!(Value::Int(2147483647).to_text().unwrap(), "2147483647");
    assert_eq!(Value::Bool(false).to_text().unwrap(), "false");
    assert_eq!(Value::Text("t".to_string()).to_text().unwrap(), "t");
    assert!(Value::Float(0).to_text().is_none());
}

#[test]
fn value_texts_read_back() {
    for v in [Value::Node(0), Value::Node(-9), Value::Int(i32::MIN), Value::Int(55), Value::Bool(true)] {
        let t = v.to_text().unwrap();
        assert_eq!(value_text(&Value::from_str(t.clone(), None)), t);
    }
}

#[test]
fn repeated_attribute_keeps_first_place_and_last_value() {
    let data = NodeData::from_element(
        "e".to_string(),
        vec![("a".to_string(), Value::Int(1)), ("b".to_string(), Value::Int(2)), ("a".to_string(), Value::Int(3))],
    );
    let keys: Vec<String> = data.tags.iter().map(|(k, v)| format!("{}={}", k, value_text(v))).collect();
    assert_eq!(keys, vec!["a=3".to_string(), "b=2".to_string()]);
}
