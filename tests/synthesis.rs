use swiftui_synth::ast::{Value, IR};
use swiftui_synth::synthesis::swiftui::synthesize_layout;

fn create_example(
    title: Option<&str>,
    button: Option<&str>,
    image: Option<&str>,
    hstack_children: Option<Vec<&str>>,
) -> Vec<(Value, Value)> {
    let mut elements = Vec::new();
    if let Some(t) = title {
        elements.push(("title".to_string(), Value::String(t.to_string())));
    }
    if let Some(b) = button {
        elements.push(("button".to_string(), Value::String(b.to_string())));
    }
    if let Some(img) = image {
        elements.push(("Image".to_string(), Value::String(img.to_string())));
    }
    if let Some(h) = hstack_children {
        let mut hstack_elements = Vec::new();
        for (i, child) in h.iter().enumerate() {
            hstack_elements.push((format!("child{}", i), Value::String(child.to_string())));
        }
        elements.push(("HStack".to_string(), Value::Dict(hstack_elements)));
    }

    vec![(
        Value::Dict(vec![
            ("width".to_string(), Value::Int(390)),
            ("height".to_string(), Value::Int(844)),
        ]),
        Value::Dict(elements),
    )]
}

#[test]
fn test_synthesize_full_layout() {
    let examples = create_example(Some("Hello"), Some("Click"), None, None);
    let ir = synthesize_layout(examples).unwrap();

    match ir {
        IR::VStack(children) => {
            assert_eq!(children.len(), 3);
            assert!(matches!(&children[0], IR::Text(t) if t == "Hello"));
            assert!(matches!(&children[1], IR::Spacer));
            assert!(matches!(&children[2], IR::Button(b) if b == "Click"));
        }
        _ => panic!("Expected VStack"),
    }
}

#[test]
fn test_synthesize_title_only() {
    let examples = create_example(Some("Welcome"), None, None, None);
    let ir = synthesize_layout(examples).unwrap();

    match ir {
        IR::VStack(children) => {
            assert_eq!(children.len(), 2);
            assert!(matches!(&children[0], IR::Text(t) if t == "Welcome"));
            assert!(matches!(&children[1], IR::Spacer));
        }
        _ => panic!("Expected VStack"),
    }
}

#[test]
fn test_synthesize_empty_button() {
    let examples = create_example(Some("Title"), Some(""), None, None);
    let ir = synthesize_layout(examples).unwrap();

    match ir {
        IR::VStack(children) => {
            assert_eq!(children.len(), 2);
            assert!(matches!(&children[0], IR::Text(t) if t == "Title"));
            assert!(matches!(&children[1], IR::Spacer));
        }
        _ => panic!("Expected VStack"),
    }
}

#[test]
fn test_synthesize_no_elements() {
    let examples = create_example(None, None, None, None);
    let ir = synthesize_layout(examples).unwrap();

    match ir {
        IR::VStack(children) => {
            assert_eq!(children.len(), 1);
            assert!(matches!(&children[0], IR::Spacer));
        }
        _ => panic!("Expected VStack"),
    }
}

#[test]
fn test_synthesize_empty_examples() {
    let examples = Vec::new();
    assert!(synthesize_layout(examples).is_none());
}

#[test]
fn test_synthesize_hstack() {
    let hstack_children = vec!["A", "B", "Spacer", "C"];
    let examples = create_example(None, None, None, Some(hstack_children));
    let ir = synthesize_layout(examples).unwrap();

    match ir {
        IR::HStack(children) => {
            assert_eq!(children.len(), 4);
            assert!(matches!(&children[0], IR::Text(t) if t == "A"));
            assert!(matches!(&children[1], IR::Text(t) if t == "B"));
            assert!(matches!(&children[2], IR::Spacer));
            assert!(matches!(&children[3], IR::Text(t) if t == "C"));
        }
        _ => panic!("Expected HStack"),
    }
}

#[test]
fn test_synthesize_image() {
    let examples = create_example(None, None, Some("icon"), None);
    let ir = synthesize_layout(examples).unwrap();

    match ir {
        IR::VStack(children) => {
            assert_eq!(children.len(), 2);
            assert!(matches!(&children[0], IR::Image(name) if name == "icon"));
            assert!(matches!(&children[1], IR::Spacer));
        }
        _ => panic!("Expected VStack"),
    }
}

// ---------------------------------------------------------------------------

#[test]
fn hstack_shadows_other_keys() {
    let examples = create_example(Some("T"), Some("B"), Some("I"), Some(vec!["x", "Spacer"]));
    assert_eq!(
        synthesize_layout(examples),
        Some(IR::HStack(vec![IR::Text("x".to_string()), IR::Spacer]))
    );
}

#[test]
fn image_title_button_order() {
    let examples = create_example(Some("T"), Some("B"), Some("I"), None);
    assert_eq!(
        synthesize_layout(examples),
        Some(IR::VStack(vec![
            IR::Image("I".to_string()),
            IR::Text("T".to_string()),
            IR::Spacer,
            IR::Button("B".to_string()),
        ]))
    );
}

#[test]
fn first_entry_of_a_key_wins() {
    let elements = Value::Dict(vec![
        ("title".to_string(), Value::String("first".to_string())),
        ("title".to_string(), Value::String("second".to_string())),
    ]);
    let examples = vec![(Value::Dict(vec![]), elements)];
    assert_eq!(
        synthesize_layout(examples),
        Some(IR::VStack(vec![IR::Text("first".to_string()), IR::Spacer]))
    );
}

#[test]
fn row_children_lose_surrounding_quotes_and_non_text_is_skipped() {
    let row = Value::Dict(vec![
        ("child0".to_string(), Value::String("\"\"Spacer\"".to_string())),
        ("child1".to_string(), Value::Int(3)),
        ("child2".to_string(), Value::String("\"a\"b\"".to_string())),
    ]);
    let examples = vec![(Value::Int(0), Value::Dict(vec![("HStack".to_string(), row)]))];
    assert_eq!(
        synthesize_layout(examples),
        Some(IR::HStack(vec![IR::Spacer, IR::Text("a\"b".to_string())]))
    );
}

#[test]
fn non_mapping_hstack_and_elements_fall_back_to_column() {
    let examples = vec![(
        Value::Int(0),
        Value::Dict(vec![
            ("HStack".to_string(), Value::String("x".to_string())),
            ("button".to_string(), Value::String("Go".to_string())),
        ]),
    )];
    assert_eq!(
        synthesize_layout(examples),
        Some(IR::VStack(vec![IR::Spacer, IR::Button("Go".to_string())]))
    );
    let examples = vec![(Value::Int(0), Value::Int(1))];
    assert_eq!(synthesize_layout(examples), Some(IR::VStack(vec![IR::Spacer])));
}

#[test]
fn only_the_first_example_counts() {
    let mut examples = create_example(Some("one"), None, None, None);
    examples.extend(create_example(Some("two"), None, None, None));
    assert_eq!(
        synthesize_layout(examples),
        Some(IR::VStack(vec![IR::Text("one".to_string()), IR::Spacer]))
    );
}
