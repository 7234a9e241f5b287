use swiftui_synth::ast::Value;
use swiftui_synth::input::parser::{parse, parse_examples, ParseError};

fn entries(v: &Value) -> &Vec<(String, Value)> {
    match v {
        Value::Dict(d) => d,
        _ => panic!("Expected Dict"),
    }
}

#[test]
fn test_parse_valid_full_example() {
    let input = "{(width:390,height:844):{title:\"Hello\",button:\"Click\"}}";
    let result = parse_examples(input).unwrap();
    assert_eq!(result.len(), 1);

    let (dims, elements) = &result[0];
    match dims {
        Value::Dict(d) => {
            assert_eq!(d.len(), 2);
            assert!(d.iter().any(|(k, v)| k == "width" && matches!(v, Value::Int(390))));
            assert!(d.iter().any(|(k, v)| k == "height" && matches!(v, Value::Int(844))));
        }
        _ => panic!("Expected Dict for dimensions"),
    }

    match elements {
        Value::Dict(e) => {
            assert_eq!(e.len(), 2);
            assert!(e.iter().any(|(k, v)| k == "title" && matches!(v, Value::String(s) if s == "Hello")));
            assert!(e.iter().any(|(k, v)| k == "button" && matches!(v, Value::String(s) if s == "Click")));
        }
        _ => panic!("Expected Dict for elements"),
    }
}

#[test]
fn test_parse_valid_title_only() {
    let input = "{(width:390,height:844):{title:\"Welcome\"}}";
    let result = parse_examples(input).unwrap();
    assert_eq!(result.len(), 1);

    match &result[0].1 {
        Value::Dict(e) => {
            assert_eq!(e.len(), 1);
            assert!(e.iter().any(|(k, v)| k == "title" && matches!(v, Value::String(s) if s == "Welcome")));
        }
        _ => panic!("Expected Dict for elements"),
    }
}

#[test]
fn test_parse_escaped_quotes_in_value() {
    let input = r#"{(width:390,height:844):{title:"Hello, \"World\"!", button:"\"OK\""}}"#;
    let result = parse_examples(input).unwrap();
    match &result[0].1 {
        Value::Dict(e) => {
            let title = &e.iter().find(|(k, _)| k == "title").unwrap().1;
            let button = &e.iter().find(|(k, _)| k == "button").unwrap().1;
            assert_eq!(*title, Value::String("Hello, \"World\"!".to_string()));
            assert_eq!(*button, Value::String("\"OK\"".to_string()));
        }
        _ => panic!("Expected Dict for elements"),
    }
}

#[test]
fn test_missing_braces() {
    let input = "(width:390,height:844):{title:\"Hello\"}";
    assert!(parse_examples(input).is_err());
}

#[test]
fn test_invalid_dimension_value() {
    let input = "{(width:abc,height:844):{title:\"Hello\"}}";
    let err = parse_examples(input).expect_err("Should fail");
    assert!(err.contains("Invalid width value"));
}

#[test]
fn test_missing_dimension_key() {
    let input = "{(390,height:844):{title:\"Hello\"}}";
    assert!(parse_examples(input).is_err());
}

#[test]
fn test_unsupported_key() {
    let input = "{(width:390,height:844):{TextField:\"placeholder\"}}";
    let err = parse_examples(input).expect_err("Should fail");
    assert!(err.contains("Unsupported element key 'TextField'"));
}

#[test]
fn test_malformed_elements_missing_colon() {
    let input = "{(width:390,height:844):{title}}";
    let err = parse_examples(input).expect_err("Should fail");
    assert!(err.contains("Missing value for element key 'title'"));
}

#[test]
fn test_missing_quotes_in_value() {
    let input = "{(width:390,height:844):{title:Hello}}";
    let err = parse_examples(input).expect_err("Should fail");
    assert!(err.contains("Value for key 'title' must be enclosed in double quotes"));
}

#[test]
fn test_extra_whitespace() {
    let input = "  {  ( width : 390 , height : 844 ) : { title : \"Hello\" , button : \"Click\" }  }  ";
    let result = parse_examples(input);
    assert!(result.is_ok(), "Parser failed with extra whitespace: {:?}", result.err());
    let (dims, elements) = &result.unwrap()[0];
    match dims {
        Value::Dict(d) => {
            assert!(d.iter().any(|(k, v)| k == "width" && matches!(v, Value::Int(390))));
            assert!(d.iter().any(|(k, v)| k == "height" && matches!(v, Value::Int(844))));
        }
        _ => panic!("Expected Dict for dimensions"),
    }
    match elements {
        Value::Dict(e) => {
            assert!(e.iter().any(|(k, v)| k == "title" && matches!(v, Value::String(s) if s == "Hello")));
            assert!(e.iter().any(|(k, v)| k == "button" && matches!(v, Value::String(s) if s == "Click")));
        }
        _ => panic!("Expected Dict for elements"),
    }
}

#[test]
fn test_parse_valid_hstack() {
    let input = "{(width:390,height:844):HStack:{\"A\",\"B\",\"Spacer\",\"C\"}}";
    let result = parse_examples(input).unwrap();
    assert_eq!(result.len(), 1);

    let (dims, elements) = &result[0];
    match dims {
        Value::Dict(d) => {
            assert_eq!(d.len(), 2);
            assert!(d.iter().any(|(k, v)| k == "width" && matches!(v, Value::Int(390))));
            assert!(d.iter().any(|(k, v)| k == "height" && matches!(v, Value::Int(844))));
        }
        _ => panic!("Expected Dict for dimensions"),
    }

    match elements {
        Value::Dict(e) => {
            assert_eq!(e.len(), 1);
            match e.iter().find(|(k, _)| k == "HStack") {
                Some((_, Value::Dict(children))) => {
                    assert_eq!(children.len(), 4);
                    assert_eq!(children[0].1, Value::String("A".to_string()));
                    assert_eq!(children[1].1, Value::String("B".to_string()));
                    assert_eq!(children[2].1, Value::String("Spacer".to_string()));
                    assert_eq!(children[3].1, Value::String("C".to_string()));
                }
                _ => panic!("Expected HStack dict"),
            }
        }
        _ => panic!("Expected Dict for elements"),
    }
}

#[test]
fn test_parse_invalid_hstack_missing_braces() {
    let input = "{(width:390,height:844):HStack:\"A\",\"B\",\"Spacer\",\"C\"}";
    let result = parse_examples(input);
    assert!(result.is_err());
    assert!(result.unwrap_err().contains("HStack elements must be enclosed in braces"));
}

#[test]
fn test_parse_invalid_hstack_missing_quotes() {
    let input = "{(width:390,height:844):HStack:{\"A\",B,\"Spacer\",\"C\"}}";
    let result = parse_examples(input);
    assert!(result.is_err());
    assert!(result.unwrap_err().contains("HStack child value must be quoted"));
}

#[test]
fn test_parse_valid_image() {
    let input = "{(width:390,height:844):{Image:\"icon\"}}";
    let result = parse_examples(input).unwrap();
    assert_eq!(result.len(), 1);

    match &result[0].1 {
        Value::Dict(e) => {
            assert_eq!(e.len(), 1);
            assert!(e.iter().any(|(k, v)| k == "Image" && matches!(v, Value::String(s) if s == "icon")));
        }
        _ => panic!("Expected Dict for elements"),
    }
}

#[test]
fn test_mismatched_parentheses() {
    let input1 = "{(width:390,height:844:{title:\"Hello\"}}";
    assert!(parse_examples(input1).is_err());

    let input2 = "{width:390,height:844):{title:\"Hello\"}}";
    assert!(parse_examples(input2).is_err());

    let input3 = "{((width:390,height:844)):{title:\"Hello\"}}";
    assert!(parse_examples(input3).is_err());

    let input4 = "{(width:390,height:844))):{title:\"Hello\"}}";
    assert!(parse_examples(input4).is_err());
}

#[test]
fn test_malformed_separator() {
    let input1 = "{(width:390,height:844){title:\"Hello\"}}";
    assert!(parse_examples(input1).is_err());

    let input2 = "{(width:390,height:844) {title:\"Hello\"}}";
    assert!(parse_examples(input2).is_err());

    let input3 = "{(width:390,height:844);{title:\"Hello\"}}";
    assert!(parse_examples(input3).is_err());
}

#[test]
fn test_empty_input_string() {
    assert!(parse_examples("").is_err());
    assert!(parse_examples("   ").is_err());
}

#[test]
fn test_empty_braces() {
    assert!(parse_examples("{}").is_err());
}

#[test]
fn test_empty_dimensions() {
    let input = "{():{title:\"Hello\"}}";
    assert!(parse_examples(input).is_err());
}

#[test]
fn test_empty_elements() {
    let input = "{(width:100, height:100):{}}";
    let result = parse_examples(input).unwrap();
    match &result[0].1 {
        Value::Dict(e) => {
            assert!(e.is_empty());
        }
        _ => panic!("Expected empty Dict for elements"),
    }
}

// ---------------------------------------------------------------------------

#[test]
fn separator_splits_dimensions_from_elements() {
    let (dims, elements) = parse("{(width:1,height:2):{title:\"x\"}}").unwrap();
    assert_eq!(
        dims,
        Value::Dict(vec![("width".to_string(), Value::Int(1)), ("height".to_string(), Value::Int(2))])
    );
    assert_eq!(elements, Value::Dict(vec![("title".to_string(), Value::String("x".to_string()))]));
}

#[test]
fn unclosed_dimensions_are_a_paren_error() {
    assert_eq!(parse("{(width:1,height:2:{title:\"x\"}}").unwrap_err(), ParseError::UnbalancedParens);
}

#[test]
fn doubled_parentheses_are_a_paren_error() {
    assert_eq!(parse("{((width:1,height:2)):{title:\"x\"}}").unwrap_err(), ParseError::NestedParens);
}

#[test]
fn extra_closing_parenthesis_is_a_paren_error() {
    assert_eq!(parse("{width:1,height:2):{title:\"x\"}}").unwrap_err(), ParseError::SeparatorBeforeDimensions);
    assert_eq!(parse("{)(width:1,height:2):{}}").unwrap_err(), ParseError::UnbalancedParens);
}

#[test]
fn escaped_quote_is_read_as_a_quote() {
    let (_, elements) = parse(r#"{(width:1,height:1):{title:"a\"b"}}"#).unwrap();
    assert_eq!(elements, Value::Dict(vec![("title".to_string(), Value::String("a\"b".to_string()))]));
}

#[test]
fn escaped_backslash_and_lone_backslash() {
    // Four backslashes in the input become one after both escape passes.
    let (_, elements) = parse(r#"{(width:1,height:1):{title:"a\\\\b"}}"#).unwrap();
    assert_eq!(elements, Value::Dict(vec![("title".to_string(), Value::String("a\\b".to_string()))]));
    // A backslash before an ordinary character stands for itself.
    let (_, elements) = parse(r#"{(width:1,height:1):{title:"a\nb"}}"#).unwrap();
    assert_eq!(elements, Value::Dict(vec![("title".to_string(), Value::String("a\\nb".to_string()))]));
    // A value that ends in an escaped backslash keeps it.
    let (_, elements) = parse(r#"{(width:1,height:1):{title:"a\\"}}"#).unwrap();
    assert_eq!(elements, Value::Dict(vec![("title".to_string(), Value::String("a\\".to_string()))]));
}

#[test]
fn comma_inside_quotes_does_not_split() {
    let (_, elements) = parse("{(width:1,height:1):{title:\"a,b\",button:\"c\"}}").unwrap();
    assert_eq!(
        elements,
        Value::Dict(vec![
            ("title".to_string(), Value::String("a,b".to_string())),
            ("button".to_string(), Value::String("c".to_string())),
        ])
    );
}

#[test]
fn unknown_element_key_fails() {
    assert_eq!(
        parse("{(width:1,height:1):{title:\"a\",subtitle:\"b\"}}").unwrap_err(),
        ParseError::UnknownElementKey("subtitle".to_string())
    );
}

#[test]
fn unknown_dimension_key_fails() {
    assert_eq!(
        parse("{(width:1,depth:2):{}}").unwrap_err(),
        ParseError::UnknownDimensionKey("depth".to_string())
    );
}

#[test]
fn unquoted_value_fails() {
    assert_eq!(
        parse("{(width:1,height:1):{title:Hello}}").unwrap_err(),
        ParseError::UnquotedValue("title".to_string(), "Hello".to_string())
    );
}

#[test]
fn lone_quote_is_not_a_quoted_value() {
    assert_eq!(
        parse("{(width:1,height:1):{title:\"}}").unwrap_err(),
        ParseError::UnquotedValue("title".to_string(), "\"".to_string())
    );
}

#[test]
fn spaces_around_tokens_do_not_change_the_result() {
    let plain = parse("{(width:390,height:844):{title:\"Hello\",button:\"Click\"}}").unwrap();
    let spaced = parse("  {  ( width : 390 , height : 844 ) : { title : \"Hello\" , button : \"Click\" }  }  ").unwrap();
    assert_eq!(plain, spaced);
}

#[test]
fn parsing_twice_gives_equal_results() {
    let input = "{(width:3,height:4):{Image:\"i\",title:\"t\"}}";
    assert_eq!(parse(input), parse(input));
    let bad = "{(width:3):{}}";
    assert_eq!(parse(bad), parse(bad));
}

#[test]
fn each_failure_kind() {
    assert_eq!(parse("x").unwrap_err(), ParseError::MalformedEnvelope);
    assert_eq!(parse("{").unwrap_err(), ParseError::MalformedEnvelope);
    assert_eq!(parse("{}").unwrap_err(), ParseError::EmptyInput);
    assert_eq!(parse("{(width:1,height:1)}").unwrap_err(), ParseError::MissingSeparator);
    assert_eq!(parse("{(width:1,height:1) x:{}}").unwrap_err(), ParseError::MissingSeparator);
    assert_eq!(parse("{abc}").unwrap_err(), ParseError::MissingSeparator);
    assert_eq!(parse("{(width:1,height:1:{}}").unwrap_err(), ParseError::UnbalancedParens);
    assert_eq!(parse("{title:(width:1)}").unwrap_err(), ParseError::SeparatorBeforeDimensions);
    assert_eq!(parse("{x(width:1,height:1):{}}").unwrap_err(), ParseError::MalformedDimensions);
    assert_eq!(parse("{(()):{}}").unwrap_err(), ParseError::NestedParens);
    assert_eq!(parse("{(390,height:1):{}}").unwrap_err(), ParseError::MissingDimensionValue("390".to_string()));
    assert_eq!(
        parse("{(width:abc,height:1):{}}").unwrap_err(),
        ParseError::InvalidDimensionValue("width".to_string(), "abc".to_string())
    );
    assert_eq!(parse("{(height:1):{}}").unwrap_err(), ParseError::MissingDimension("width".to_string()));
    assert_eq!(parse("{(width:1):{}}").unwrap_err(), ParseError::MissingDimension("height".to_string()));
    assert_eq!(parse("{():{}}").unwrap_err(), ParseError::MissingDimension("width".to_string()));
    assert_eq!(
        parse("{(width:1,height:1):HStack:\"A\"}").unwrap_err(),
        ParseError::MalformedHStack("\"A\"".to_string())
    );
    assert_eq!(
        parse("{(width:1,height:1):HStack:{A}}").unwrap_err(),
        ParseError::UnquotedHStackChild("A".to_string())
    );
    assert_eq!(
        parse("{(width:1,height:1):title:\"A\"}").unwrap_err(),
        ParseError::MalformedElements("title:\"A\"".to_string())
    );
    assert_eq!(
        parse("{(width:1,height:1):{title}}").unwrap_err(),
        ParseError::MissingElementValue("title".to_string())
    );
}

#[test]
fn first_failure_wins() {
    assert_eq!(
        parse("{(width:1,height:1):{foo:\"a\",title:b}}").unwrap_err(),
        ParseError::UnknownElementKey("foo".to_string())
    );
    assert_eq!(
        parse("{(width:x,depth:1):{}}").unwrap_err(),
        ParseError::InvalidDimensionValue("width".to_string(), "x".to_string())
    );
}

#[test]
fn integer_forms() {
    let dims = |w: i32, h: i32| {
        Value::Dict(vec![("width".to_string(), Value::Int(w)), ("height".to_string(), Value::Int(h))])
    };
    assert_eq!(parse("{(width:-5,height:+7):{}}").unwrap().0, dims(-5, 7));
    assert_eq!(parse("{(width:2147483647,height:-2147483648):{}}").unwrap().0, dims(2147483647, -2147483648));
    assert_eq!(parse("{(width:007,height:0):{}}").unwrap().0, dims(7, 0));
    assert_eq!(
        parse("{(width:2147483648,height:1):{}}").unwrap_err(),
        ParseError::InvalidDimensionValue("width".to_string(), "2147483648".to_string())
    );
    assert_eq!(
        parse("{(width:-,height:1):{}}").unwrap_err(),
        ParseError::InvalidDimensionValue("width".to_string(), "-".to_string())
    );
    assert_eq!(
        parse("{(width:1,height:1 2):{}}").unwrap_err(),
        ParseError::InvalidDimensionValue("height".to_string(), "1 2".to_string())
    );
}

#[test]
fn later_dimension_wins_and_empty_pieces_are_skipped() {
    let (dims, _) = parse("{(width:1,,width:5,height:2,):{}}").unwrap();
    assert_eq!(
        dims,
        Value::Dict(vec![("width".to_string(), Value::Int(5)), ("height".to_string(), Value::Int(2))])
    );
}

#[test]
fn row_children_get_numbered_keys() {
    let (_, elements) = parse("{(width:1,height:1):HStack:{\"a\",\"b\",\"c\",\"d\",\"e\",\"f\",\"g\",\"h\",\"i\",\"j\",\"k\",,}}").unwrap();
    let es = entries(&elements);
    assert_eq!(es.len(), 1);
    assert_eq!(es[0].0, "HStack");
    let children = entries(&es[0].1);
    assert_eq!(children.len(), 11);
    assert_eq!(children[0].0, "child0");
    assert_eq!(children[9].0, "child9");
    assert_eq!(children[10].0, "child10");
    assert_eq!(children[10].1, Value::String("k".to_string()));
}

#[test]
fn error_messages() {
    assert_eq!(
        ParseError::UnknownElementKey("TextField".to_string()).message(),
        "Unsupported element key 'TextField': must be 'title', 'button', or 'Image'"
    );
    assert_eq!(
        ParseError::InvalidDimensionValue("width".to_string(), "abc".to_string()).message(),
        "Invalid width value 'abc'"
    );
    assert_eq!(ParseError::MissingDimension("height".to_string()).message(), "Missing height dimension");
    assert_eq!(parse_examples("{}").unwrap_err(), "Input must contain at least one example");
}

#[test]
fn spaces_around_tokens_with_escapes_rows_and_height_first() {
    let plain = parse(r#"{(height:2,width:1):{title:"a\"b",Image:"x,y"}}"#).unwrap();
    let spaced = parse(r#"   {  (  height  :  2  ,  width  :  1  )  :  {  title  :  "a\"b"  ,  Image  :  "x,y"  }  }  "#).unwrap();
    assert_eq!(plain, spaced);
    let row = parse("{(width:1,height:2):HStack:{\"A\",\"Spacer\"}}").unwrap();
    let spaced_row = parse(" { ( width : 1 , height : 2 ) : HStack: { \"A\" , \"Spacer\" } } ").unwrap();
    assert_eq!(row, spaced_row);
}
