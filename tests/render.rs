use swiftui_synth::ast::IR;
use swiftui_synth::output::render::render_swiftui;

fn normalize_whitespace(s: &str) -> String {
    s.lines().map(|line| line.trim_end()).collect::<Vec<_>>().join("\n")
}

#[test]
fn test_render_full_layout() {
    let ir = IR::VStack(vec![
        IR::Text("Hello".to_string()),
        IR::Spacer,
        IR::Button("Click".to_string()),
    ]);

    let expected = normalize_whitespace(
        "VStack {
    Text(\"Hello\")
        .font(.title)
        .padding()
    Spacer()
    Button(\"Click\") { }
        .padding()
}
.padding()",
    );

    assert_eq!(render_swiftui(&ir), expected);
}

#[test]
fn test_render_hstack() {
    let ir = IR::HStack(vec![
        IR::Text("A".to_string()),
        IR::Text("B".to_string()),
        IR::Spacer,
        IR::Text("C".to_string()),
    ]);

    let expected = normalize_whitespace(
        "HStack {
    Text(\"A\")
        .font(.title)
        .padding()
    Text(\"B\")
        .font(.title)
        .padding()
    Spacer()
    Text(\"C\")
        .font(.title)
        .padding()
}
.padding()",
    );

    assert_eq!(render_swiftui(&ir), expected);
}

#[test]
fn test_render_image() {
    let ir = IR::Image("icon".to_string());
    let expected = normalize_whitespace("Image(\"icon\")");
    assert_eq!(render_swiftui(&ir), expected);
}

#[test]
fn test_render_title_only() {
    let ir = IR::VStack(vec![IR::Text("Welcome".to_string()), IR::Spacer]);

    let expected = normalize_whitespace(
        "VStack {
    Text(\"Welcome\")
        .font(.title)
        .padding()
    Spacer()
}
.padding()",
    );

    assert_eq!(render_swiftui(&ir), expected);
}

#[test]
fn test_render_special_characters() {
    let ir = IR::VStack(vec![IR::Text("Hello, \"World\"!".to_string()), IR::Spacer]);

    let rendered = render_swiftui(&ir);
    assert!(rendered.contains("Text(\"Hello, \\\"World\\\"!\")"));
}

#[test]
fn test_render_consistent_indentation() {
    let ir = IR::VStack(vec![
        IR::Text("Test".to_string()),
        IR::HStack(vec![IR::Button("Nested".to_string())]),
    ]);
    let rendered = render_swiftui(&ir);

    for line in rendered.lines() {
        if !line.trim().is_empty() {
            let spaces = line.chars().take_while(|c| *c == ' ').count();
            assert!(spaces % 4 == 0, "Indentation should be a multiple of 4 spaces: '{}'", line);
        }
    }
}

#[test]
fn test_render_empty_vstack() {
    let ir = IR::VStack(vec![]);
    let rendered = render_swiftui(&ir);
    let expected = normalize_whitespace(
        "VStack {
}
.padding()",
    );
    assert_eq!(rendered, expected);
}

#[test]
fn test_render_image_in_vstack() {
    let ir = IR::VStack(vec![IR::Image("icon".to_string()), IR::Spacer]);
    let expected = normalize_whitespace(
        "VStack {
    Image(\"icon\")
    Spacer()
}
.padding()",
    );
    assert_eq!(render_swiftui(&ir), expected);
}

// ---------------------------------------------------------------------------

#[test]
fn nested_stack_text() {
    let ir = IR::VStack(vec![
        IR::Text("Test".to_string()),
        IR::HStack(vec![IR::Button("Nested".to_string())]),
    ]);
    assert_eq!(
        render_swiftui(&ir),
        "VStack {\n    Text(\"Test\")\n        .font(.title)\n        .padding()\n    HStack {\n        Button(\"Nested\") { }\n            .padding()\n    }\n    .padding()}\n.padding()"
    );
}

#[test]
fn single_nodes() {
    assert_eq!(render_swiftui(&IR::Spacer), "Spacer()");
    assert_eq!(render_swiftui(&IR::Button("Go".to_string())), "Button(\"Go\") { }\n    .padding()");
    assert_eq!(
        render_swiftui(&IR::Text("a\"b".to_string())),
        "Text(\"a\\\"b\")\n    .font(.title)\n    .padding()"
    );
    assert_eq!(render_swiftui(&IR::Image("x\"y".to_string())), "Image(\"x\\\"y\")");
}

#[test]
fn trailing_space_in_text_is_trimmed_at_line_ends() {
    // The line break inside the text ends a line; the spaces before it go.
    assert_eq!(render_swiftui(&IR::Image("a  \nb".to_string())), "Image(\"a\nb\")");
    // Backslashes are not escaped.
    assert_eq!(render_swiftui(&IR::Image("a\\b".to_string())), "Image(\"a\\b\")");
}
