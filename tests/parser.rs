use ijson::errors::Error;
use ijson::parser::{Event, Parser};

const TEST_JSON: &str = r#"{
  "docs": [
    {
      "null": null,
      "boolean": false,
      "true": true,
      "integer": 0,
      "double": 0.5,
      "exponent": 1e2,
      "long": 10000000000,
      "string": "строка - тест"
    },
    {"meta": [[1], {}]},
    {"meta": {"key": "value"}},
    {"meta": null}
  ]
}"#;

const PEOPLE_JSON: &str = r#"[
  {"name": "John", "friends": ["Mary", "Michael"]},
  {"name": "Mary", "friends": ["John"]}
]"#;

fn key(s: &str) -> Event {
    Event::Key(s.to_string())
}

fn num(s: &str) -> Event {
    Event::Number(s.to_string())
}

fn string(s: &str) -> Event {
    Event::String(s.to_string())
}

/// Events are equal, numbers by their value.
fn same(a: &Event, b: &Event) -> bool {
    match (a, b) {
        (Event::Number(x), Event::Number(y)) => {
            x.parse::<f64>().unwrap() == y.parse::<f64>().unwrap()
        }
        _ => a == b,
    }
}

fn assert_events(got: &[Event], want: &[Event]) {
    assert_eq!(got.len(), want.len(), "{:?} vs {:?}", got, want);
    for (g, w) in got.iter().zip(want.iter()) {
        assert!(same(g, w), "{:?} vs {:?}", g, w);
    }
}

fn reference_events() -> Vec<Event> {
    vec![
        Event::StartMap,
        key("docs"),
        Event::StartArray,
        Event::StartMap,
        key("null"),
        Event::Null,
        key("boolean"),
        Event::Boolean(false),
        key("true"),
        Event::Boolean(true),
        key("integer"),
        num("0"),
        key("double"),
        num("0.5"),
        key("exponent"),
        num("100"),
        key("long"),
        num("10000000000"),
        key("string"),
        string("строка - тест"),
        Event::EndMap,
        Event::StartMap,
        key("meta"),
        Event::StartArray,
        Event::StartArray,
        num("1"),
        Event::EndArray,
        Event::StartMap,
        Event::EndMap,
        Event::EndArray,
        Event::EndMap,
        Event::StartMap,
        key("meta"),
        Event::StartMap,
        key("key"),
        string("value"),
        Event::EndMap,
        Event::EndMap,
        Event::StartMap,
        key("meta"),
        Event::Null,
        Event::EndMap,
        Event::EndArray,
        Event::EndMap,
    ]
}

fn unwrap_all(items: Vec<Result<Event, Error>>) -> Vec<Event> {
    items.into_iter().map(Result::unwrap).collect()
}

fn events_of(text: &str) -> Vec<Result<Event, Error>> {
    Parser::new(text.as_bytes().to_vec()).collect_all()
}

fn prefix_of(text: &str, path: &str) -> Vec<Result<Event, Error>> {
    Parser::new(text.as_bytes().to_vec()).prefix(path).collect_all()
}

fn items_of(text: &str, path: &str) -> Vec<Result<Vec<Event>, Error>> {
    Parser::new(text.as_bytes().to_vec()).items(path).collect_all()
}

fn last_error(text: &str) -> Error {
    match events_of(text).pop() {
        Some(Err(e)) => e,
        other => panic!("no error at the end: {:?}", other),
    }
}

#[test]
fn parser() {
    let events = unwrap_all(events_of(TEST_JSON));
    assert_events(&events, &reference_events());
}

#[test]
fn prefixes() {
    let full = unwrap_all(events_of(TEST_JSON));
    let result = unwrap_all(prefix_of(TEST_JSON, ""));
    assert_eq!(result, full);

    let result = unwrap_all(prefix_of(TEST_JSON, "docs.item.meta.item"));
    assert_events(
        &result,
        &[Event::StartArray, num("1"), Event::EndArray, Event::StartMap, Event::EndMap],
    );
}

#[test]
fn items() {
    let result: Vec<Vec<Event>> = items_of(TEST_JSON, "").into_iter().map(Result::unwrap).collect();
    assert_eq!(result.len(), 1);

    let mut people = Parser::new(PEOPLE_JSON.as_bytes().to_vec()).items("item");
    let first = people.next().unwrap().unwrap();
    assert_eq!(
        first,
        vec![
            Event::StartMap,
            key("name"),
            string("John"),
            key("friends"),
            Event::StartArray,
            string("Mary"),
            string("Michael"),
            Event::EndArray,
            Event::EndMap,
        ]
    );
}

#[test]
fn unterminated_string() {
    let r = events_of(r#"{"key": "value"#).pop().unwrap();
    assert!(r.is_err());
    match r.err().unwrap() {
        Error::Unterminated => (),
        e => panic!("Not {:?}: {:?}", Error::Unterminated, e),
    }
}

#[test]
fn unterminated_string_is_only_error() {
    let all = events_of(r#"{"key": "value"#);
    assert_eq!(all.len(), 3);
    assert_eq!(all[0], Ok(Event::StartMap));
    assert_eq!(all[1], Ok(key("key")));
    assert_eq!(all[2], Err(Error::Unterminated));
}

#[test]
fn mismatched_closer() {
    assert_eq!(last_error(r#"{"a":1]"#), Error::Unmatched(']'));
    assert_eq!(last_error(r#"[1}"#), Error::Unmatched('}'));
}

#[test]
fn additional_data() {
    let all = events_of(r#"{"a":1}{"b":2}"#);
    assert_events(
        &unwrap_all(all[..4].to_vec()),
        &[Event::StartMap, key("a"), num("1"), Event::EndMap],
    );
    assert_eq!(all[4], Err(Error::AdditionalData));
    assert_eq!(all.len(), 5);
}

#[test]
fn stray_closing_brace() {
    assert_eq!(last_error(r#"{"a": }"#), Error::Unexpected("}".to_string()));
}

#[test]
fn more_lexemes() {
    assert_eq!(last_error(r#"{"a": [1, 2"#), Error::MoreLexemes);
    assert_eq!(last_error(""), Error::MoreLexemes);
    assert_eq!(last_error(r#"{"a""#), Error::MoreLexemes);
}

#[test]
fn unexpected_lexemes() {
    assert_eq!(last_error(r#"{1: 2}"#), Error::Unexpected("1".to_string()));
    assert_eq!(last_error(r#"[1 2]"#), Error::Unexpected("2".to_string()));
    assert_eq!(last_error(r#"{"a" 1}"#), Error::Unexpected("1".to_string()));
    assert_eq!(last_error("[nul]"), Error::Unexpected("nul".to_string()));
    assert_eq!(last_error("[01]"), Error::Unexpected("01".to_string()));
    assert_eq!(last_error("[1.]"), Error::Unexpected("1.".to_string()));
    assert_eq!(last_error("[-]"), Error::Unexpected("-".to_string()));
    assert_eq!(last_error("[1e+]"), Error::Unexpected("1e+".to_string()));
    assert_eq!(last_error("[#]"), Error::Unexpected("#".to_string()));
}

#[test]
fn escapes() {
    let events = unwrap_all(events_of(r#"["a\"b\\c\/d\b\f\n\r\t", "é😀"]"#));
    assert_eq!(
        events,
        vec![
            Event::StartArray,
            string("a\"b\\c/d\u{8}\u{c}\n\r\t"),
            string("é😀"),
            Event::EndArray,
        ]
    );
}

#[test]
fn bad_escapes() {
    assert_eq!(last_error(r#"["\x"]"#), Error::Escape("\\x".to_string()));
    assert_eq!(last_error(r#"["\u12g4"]"#), Error::Escape("\\u12".to_string()));
    assert_eq!(last_error(r#"["\udc00"]"#), Error::Escape("\\udc00".to_string()));
    assert_eq!(last_error(r#"["\u12"#), Error::Unterminated);
    assert_eq!(last_error("[\"\\"), Error::Unterminated);
}

#[test]
fn invalid_utf8() {
    let mut bytes = b"[\"a".to_vec();
    bytes.push(0xff);
    bytes.extend_from_slice(b"\"]");
    let all = Parser::new(bytes).collect_all();
    assert_eq!(all.last(), Some(&Err(Error::Utf8)));
}

#[test]
fn scalars_at_top_level() {
    assert_eq!(unwrap_all(events_of(" true ")), vec![Event::Boolean(true)]);
    assert_eq!(unwrap_all(events_of("null")), vec![Event::Null]);
    assert_eq!(unwrap_all(events_of("-1.5E-3")), vec![num("-1.5E-3")]);
    assert_eq!(unwrap_all(events_of("\"x\"")), vec![string("x")]);
    assert_eq!(last_error("1 2"), Error::AdditionalData);
}

#[test]
fn parser_stops_after_error() {
    let mut p = Parser::new(br#"[1, }, 2, 3]"#.to_vec());
    assert_eq!(p.next(), Some(Ok(Event::StartArray)));
    assert_eq!(p.next(), Some(Ok(num("1"))));
    assert!(matches!(p.next(), Some(Err(_))));
    assert_eq!(p.next(), None);
    assert_eq!(p.next(), None);
}

#[test]
fn prefix_stops_after_error() {
    let mut p = Parser::new(br#"{"a": [1, 2 3]}"#.to_vec()).prefix("a.item");
    assert_eq!(p.next(), Some(Ok(num("1"))));
    assert_eq!(p.next(), Some(Ok(num("2"))));
    assert!(matches!(p.next(), Some(Err(_))));
    assert_eq!(p.next(), None);
}

#[test]
fn items_stop_after_error() {
    let mut p = Parser::new(br#"[[1], [2, ]]"#.to_vec()).items("item");
    assert_eq!(p.next(), Some(Ok(vec![Event::StartArray, num("1"), Event::EndArray])));
    assert!(matches!(p.next(), Some(Err(_))));
    assert_eq!(p.next(), None);
}

#[test]
fn empty_path_is_whole_document() {
    let text = r#"[{"a": [true, {"b": null}]}, "s", 3]"#;
    assert_eq!(prefix_of(text, ""), events_of(text));
}

#[test]
fn nothing_matches() {
    let mut text = String::from("[");
    for i in 0..20000 {
        if i > 0 {
            text.push(',');
        }
        text.push_str(r#"{"x": [1, 2, {"y": "z"}]}"#);
    }
    text.push(']');
    assert!(prefix_of(&text, "item.nope").is_empty());
    assert!(items_of(&text, "nope").is_empty());
}

#[test]
fn wildcard_only_under_arrays() {
    let text = r#"{"a": {"item": 1, "k": 2}, "b": [3, 4]}"#;
    assert!(prefix_of(text, "a.item").is_empty());
    assert_events(&unwrap_all(prefix_of(text, "b.item")), &[num("3"), num("4")]);
    let text = r#"[{"p": {"x": 1}}, {"p": [5, 6]}]"#;
    assert_events(&unwrap_all(prefix_of(text, "item.p.item")), &[num("5"), num("6")]);
}

#[test]
fn items_join_to_prefix() {
    let text = r#"{"docs": [{"meta": [[1], {}]}, {"meta": {"k": "v"}}, {"meta": null}, {"meta": [2]}]}"#;
    for path in ["", "docs", "docs.item", "docs.item.meta", "docs.item.meta.item", "none"] {
        let joined: Vec<Event> = items_of(text, path)
            .into_iter()
            .flat_map(|g| g.unwrap())
            .collect();
        assert_eq!(joined, unwrap_all(prefix_of(text, path)), "path {}", path);
    }
}

#[test]
fn items_are_whole_values() {
    let text = r#"{"docs": [{"meta": [[1], {}]}, {"meta": {"k": "v"}}, {"meta": null}]}"#;
    let groups: Vec<Vec<Event>> =
        items_of(text, "docs.item.meta").into_iter().map(Result::unwrap).collect();
    assert_eq!(groups.len(), 3);
    assert_eq!(groups[2], vec![Event::Null]);
    assert_eq!(
        groups[1],
        vec![Event::StartMap, key("k"), string("v"), Event::EndMap]
    );
}

#[test]
fn end_to_end_meta_items() {
    let text = r#"{"docs":[{"meta":[[1],{}]},{"meta":{"k":"v"}},{"meta":null}]}"#;
    assert_events(
        &unwrap_all(prefix_of(text, "docs.item.meta.item")),
        &[Event::StartArray, num("1"), Event::EndArray, Event::StartMap, Event::EndMap],
    );
}

#[test]
fn error_descriptions() {
    assert_eq!(Error::Unterminated.description(), "unterminated string");
    assert_eq!(Error::Unmatched(']').description(), "unmatched container terminator");
    assert_eq!(Error::AdditionalData.description(), "additional data");
    assert_eq!(Error::Utf8.description(), "invalid UTF-8");
}

#[test]
fn wildcard_skips_map_sibling() {
    let text = r#"[{"v":{"p":1}},{"v":[2]}]"#;
    assert_events(&unwrap_all(prefix_of(text, "item.v.item")), &[num("2")]);
    assert_eq!(prefix_of(text, "item.v.item").len(), 1);
}

#[test]
fn fresh_parser_reads_first_value() {
    assert_eq!(unwrap_all(events_of("[]")), vec![Event::StartArray, Event::EndArray]);
    assert_eq!(events_of("   "), vec![Err(Error::MoreLexemes)]);
}
