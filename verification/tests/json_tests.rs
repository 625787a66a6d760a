use json_minimal::Json;

#[test]
fn parse_greeting_and_get() {
    match Json::parse(b"{\"Greeting\":\"Hello, world!\"}") {
        Ok(json) => match json.get("Greeting") {
            Some(entry) => match entry {
                Json::OBJECT { name, value } => {
                    assert_eq!(name, "Greeting");
                    match value.unbox() {
                        Json::STRING(val) => assert_eq!(val, "Hello, world!"),
                        other => panic!("expected a string, found {:?}", other),
                    }
                }
                other => panic!("expected an entry, found {:?}", other),
            },
            None => panic!("Greeting was not found"),
        },
        Err((pos, msg)) => panic!("`{}` at position `{}`", msg, pos),
    }
}

#[test]
fn parse_array_of_numbers() {
    match Json::parse(b"[1,2,3]") {
        Ok(Json::ARRAY(values)) => {
            assert_eq!(values.len(), 3);
            let expected = [1.0f64, 2.0, 3.0];
            for (v, want) in values.iter().zip(expected.iter()) {
                match v {
                    Json::NUMBER(text) => {
                        assert_eq!(text.parse::<f64>().unwrap(), *want);
                    }
                    other => panic!("expected a number, found {:?}", other),
                }
            }
        }
        other => panic!("expected an array, found {:?}", other),
    }
}

#[test]
fn parse_bool_and_null_entries() {
    let json = Json::parse(b"{\"a\":true,\"b\":null}").unwrap();
    match json.get("a") {
        Some(Json::OBJECT { name: _, value }) => match value.unbox() {
            Json::BOOL(b) => assert!(*b),
            other => panic!("expected a boolean, found {:?}", other),
        },
        other => panic!("expected the entry `a`, found {:?}", other),
    }
    match json.get("b") {
        Some(Json::OBJECT { name: _, value }) => match value.unbox() {
            Json::NULL => {}
            other => panic!("expected null, found {:?}", other),
        },
        other => panic!("expected the entry `b`, found {:?}", other),
    }
}

#[test]
fn build_entry_and_print() {
    let mut json = Json::new();
    json.add(Json::OBJECT {
        name: String::from("x"),
        value: Box::new(Json::NUMBER(String::from("5"))),
    });
    assert_eq!(json.print(), "{\"x\":5}");
}

#[test]
fn leading_whitespace_is_rejected() {
    match Json::parse(b" {}") {
        Err((pos, _)) => assert_eq!(pos, 0),
        Ok(other) => panic!("expected an error, parsed {:?}", other),
    }
}

#[test]
fn empty_input_is_rejected() {
    match Json::parse(b"") {
        Err((pos, msg)) => {
            assert_eq!(pos, 0);
            assert_eq!(msg, "Not a valid json format");
        }
        Ok(other) => panic!("expected an error, parsed {:?}", other),
    }
}

#[test]
fn truncated_object_is_an_error() {
    match Json::parse(b"{\"a\":1") {
        Err(_) => {}
        Ok(other) => panic!("expected an error, parsed {:?}", other),
    }
}

#[test]
fn empty_containers_print_exactly() {
    assert_eq!(Json::new().print(), "{}");
    assert_eq!(Json::ARRAY(Vec::new()).print(), "[]");
}

#[test]
fn print_is_deterministic() {
    let mut json = Json::new();
    json.add(Json::OBJECT {
        name: String::from("k"),
        value: Box::new(Json::BOOL(false)),
    });
    let first = json.print();
    let second = json.print();
    assert_eq!(first, second);
}

#[test]
fn array_accepts_raw_container() {
    let mut arr = Json::ARRAY(Vec::new());
    arr.add(Json::new());
    assert_eq!(arr.print(), "[{}]");
}

#[test]
fn get_without_match_returns_none() {
    let json = Json::parse(b"{\"a\":1}").unwrap();
    assert!(json.get("b").is_none());
}

#[test]
fn get_returns_first_of_duplicates() {
    let json = Json::parse(b"{\"d\":1,\"d\":2}").unwrap();
    match json.get("d") {
        Some(Json::OBJECT { name: _, value }) => match value.unbox() {
            Json::NUMBER(text) => assert_eq!(text, "1"),
            other => panic!("expected a number, found {:?}", other),
        },
        other => panic!("expected an entry, found {:?}", other),
    }
}

#[test]
fn get_mut_allows_growing_an_entry() {
    let mut json = Json::new();
    json.add(Json::OBJECT {
        name: String::from("list"),
        value: Box::new(Json::ARRAY(Vec::new())),
    });
    match json.get_mut("list") {
        Some(entry) => {
            entry.add(Json::NUMBER(String::from("7")));
        }
        None => panic!("list was not found"),
    }
    assert_eq!(json.print(), "{\"list\":[7]}");
}

#[test]
fn print_standalone_entry() {
    let entry = Json::OBJECT {
        name: String::from("greeting"),
        value: Box::new(Json::STRING(String::from("hi"))),
    };
    assert_eq!(entry.print(), "\"greeting\":\"hi\"");
}

#[test]
fn parse_standalone_values() {
    match Json::parse(b"\"abc\"").unwrap() {
        Json::STRING(s) => assert_eq!(s, "abc"),
        other => panic!("expected a string, found {:?}", other),
    }
    match Json::parse(b"true").unwrap() {
        Json::BOOL(b) => assert!(b),
        other => panic!("expected a boolean, found {:?}", other),
    }
    match Json::parse(b"null").unwrap() {
        Json::NULL => {}
        other => panic!("expected null, found {:?}", other),
    }
    match Json::parse(b"12.5").unwrap() {
        Json::NUMBER(text) => assert_eq!(text, "12.5"),
        other => panic!("expected a number, found {:?}", other),
    }
    match Json::parse(b"\"a\":5").unwrap() {
        Json::OBJECT { name, value } => {
            assert_eq!(name, "a");
            match value.unbox() {
                Json::NUMBER(text) => assert_eq!(text, "5"),
                other => panic!("expected a number, found {:?}", other),
            }
        }
        other => panic!("expected an entry, found {:?}", other),
    }
}

#[test]
fn malformed_literals_are_errors() {
    assert!(Json::parse(b"[12x]").is_err());
    assert!(Json::parse(b"[truth]").is_err());
    assert!(Json::parse(b"[nul]").is_err());
    assert!(Json::parse(b"tru").is_err());
    assert!(Json::parse(b"[1,2").is_err());
    assert!(Json::parse(b"\"open").is_err());
    assert!(Json::parse(b"{\"a}").is_err());
    assert!(Json::parse(b"[\"a]").is_err());
}

#[test]
fn round_trip_reproduces_the_tree() {
    let mut inner = Json::ARRAY(Vec::new());
    inner.add(Json::NUMBER(String::from("1")));
    inner.add(Json::STRING(String::from("two")));
    inner.add(Json::BOOL(true));
    inner.add(Json::NULL);

    let mut json = Json::new();
    json.add(Json::OBJECT {
        name: String::from("items"),
        value: Box::new(inner),
    });
    json.add(Json::OBJECT {
        name: String::from("empty"),
        value: Box::new(Json::new()),
    });

    let text = json.print();
    let reparsed = Json::parse(text.as_bytes()).unwrap();
    assert_eq!(reparsed.print(), text);
}

#[test]
fn nested_objects_parse() {
    let json = Json::parse(b"{\"outer\":{\"inner\":[{},[]]}}").unwrap();
    match json.get("outer") {
        Some(Json::OBJECT { name: _, value }) => match value.unbox() {
            Json::JSON(_) => {}
            other => panic!("expected an object, found {:?}", other),
        },
        other => panic!("expected the entry `outer`, found {:?}", other),
    }
    assert_eq!(json.print(), "{\"outer\":{\"inner\":[{},[]]}}");
}

#[test]
fn error_offsets_and_messages() {
    match Json::parse(b"{\"a\":1") {
        Err((pos, msg)) => {
            assert_eq!(pos, 6);
            assert_eq!(msg, "Error parsing json.");
        }
        Ok(other) => panic!("expected an error, parsed {:?}", other),
    }
    match Json::parse(b"[nul]") {
        Err((_, msg)) => assert_eq!(msg, "Error parsing null."),
        Ok(other) => panic!("expected an error, parsed {:?}", other),
    }
    match Json::parse(b"[12x]") {
        Err((_, msg)) => assert_eq!(msg, "Error parsing number."),
        Ok(other) => panic!("expected an error, parsed {:?}", other),
    }
    match Json::parse(b"\"open") {
        Err((_, msg)) => assert_eq!(msg, "Error parsing string."),
        Ok(other) => panic!("expected an error, parsed {:?}", other),
    }
}

#[test]
fn number_grammar_matches_float_parsing() {
    for good in ["1e5", "1.0E+3", "12.5", "0.25e-2", "7"] {
        let mut bytes = Vec::new();
        bytes.push(b'[');
        bytes.extend_from_slice(good.as_bytes());
        bytes.push(b']');
        match Json::parse(&bytes) {
            Ok(Json::ARRAY(values)) => match &values[0] {
                Json::NUMBER(text) => {
                    assert_eq!(text, good);
                    assert!(text.parse::<f64>().is_ok());
                }
                other => panic!("expected a number, found {:?}", other),
            },
            other => panic!("expected an array, found {:?}", other),
        }
        assert!(good.parse::<f64>().is_ok());
    }
    for bad in ["1e", "1.2.3", "1e+", "12x"] {
        let mut bytes = Vec::new();
        bytes.push(b'[');
        bytes.extend_from_slice(bad.as_bytes());
        bytes.push(b']');
        assert!(Json::parse(&bytes).is_err());
        assert!(bad.parse::<f64>().is_err());
    }
}

#[test]
fn raw_object_child_rules() {
    // an object member must be named, so a raw object inside an object
    // is rejected, while an array takes one freely
    assert!(Json::parse(b"{{}}").is_err());
    match Json::parse(b"[{}]").unwrap() {
        Json::ARRAY(values) => {
            assert_eq!(values.len(), 1);
            assert!(matches!(values[0], Json::JSON(_)));
        }
        other => panic!("expected an array, found {:?}", other),
    }
}

#[test]
fn redundant_commas_are_skipped() {
    match Json::parse(b"{,}").unwrap() {
        Json::JSON(values) => assert!(values.is_empty()),
        other => panic!("expected an object, found {:?}", other),
    }
    match Json::parse(b"[1,,2,]").unwrap() {
        Json::ARRAY(values) => assert_eq!(values.len(), 2),
        other => panic!("expected an array, found {:?}", other),
    }
    let json = Json::parse(b"{\"a\":1,}").unwrap();
    assert_eq!(json.print(), "{\"a\":1}");
}
