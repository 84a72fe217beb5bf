use ulib::ui::{parse_module, Layout, Module, Widget};

fn parse(src: &str) -> Result<Module, String> {
    parse_module(src)
}

fn root_children(m: &Module) -> &Vec<Widget> {
    match &m.root {
        Widget::Container { layout, children } => {
            assert_eq!(*layout, Layout::VBox);
            children
        }
        _ => panic!("root is not a container"),
    }
}

#[test]
fn empty_source_gives_empty_root() {
    let m = parse("").unwrap();
    assert!(m.style_file.is_none());
    assert!(root_children(&m).is_empty());
}

#[test]
fn label_and_button_fields() {
    let m = parse("Label(\"hi there\")\nButton(\"Go\", go_signal)").unwrap();
    let cs = root_children(&m);
    assert_eq!(cs.len(), 2);
    match &cs[0] {
        Widget::Label { text } => assert_eq!(text, "hi there"),
        _ => panic!("expected label"),
    }
    match &cs[1] {
        Widget::Button { text, signal } => {
            assert_eq!(text, "Go");
            assert_eq!(signal.as_deref(), Some("go_signal"));
        }
        _ => panic!("expected button"),
    }
}

#[test]
fn string_escapes() {
    let m = parse(r#"Label("a\"b\\c")"#).unwrap();
    match &root_children(&m)[0] {
        Widget::Label { text } => assert_eq!(text, "a\"b\\c"),
        _ => panic!("expected label"),
    }
}

#[test]
fn nested_containers_and_case_insensitive_tags() {
    let m = parse("<HBox>\n< vbox >\nLabel(x)\n</VBOX>\nLabel(y)\n</hbox>").unwrap();
    let cs = root_children(&m);
    assert_eq!(cs.len(), 1);
    match &cs[0] {
        Widget::Container { layout, children } => {
            assert_eq!(*layout, Layout::HBox);
            assert_eq!(children.len(), 2);
            match &children[0] {
                Widget::Container { layout, children } => {
                    assert_eq!(*layout, Layout::VBox);
                    assert_eq!(children.len(), 1);
                }
                _ => panic!("expected container"),
            }
        }
        _ => panic!("expected container"),
    }
}

#[test]
fn last_style_directive_wins() {
    let m = parse("Style(a.css)\nLabel(x)\nStyle(\"b.css\")").unwrap();
    assert_eq!(m.style_file.as_deref(), Some("b.css"));
    assert_eq!(root_children(&m).len(), 1);
}

#[test]
fn error_unclosed_container_tag() {
    // A container tag that is the last token asks for another widget.
    assert_eq!(parse("<hbox>").err().as_deref(), Some("unclosed <hbox>"));
}

#[test]
fn error_unknown_container() {
    assert_eq!(parse("<grid></grid>").err().as_deref(), Some("unknown container <grid>"));
    assert_eq!(parse("</hbox>").err().as_deref(), Some("unknown container </hbox>"));
}

#[test]
fn error_style_inside_container() {
    assert_eq!(
        parse("<hbox>Style(x)</hbox>").err().as_deref(),
        Some("Style() is only allowed at the top of a .ulib file")
    );
}

#[test]
fn error_unknown_directive() {
    assert_eq!(parse("Foo(x)").err().as_deref(), Some("unknown directive `Foo`"));
}

#[test]
fn error_expected_token() {
    assert_eq!(parse("Label x").err().as_deref(), Some("expected `(`, got `x`"));
    assert_eq!(parse("Label(\"x\"").err().as_deref(), Some("expected `)`, got ``"));
    assert_eq!(parse("Button(\"a\" b)").err().as_deref(), Some("expected `,`, got `b`"));
    assert_eq!(parse("Button(\"a\",)").err().as_deref(), Some("expected `)`, got ``"));
}

#[test]
fn error_missing_texts() {
    assert_eq!(parse("Label(").err().as_deref(), Some("expected label text"));
    assert_eq!(parse("Button(").err().as_deref(), Some("expected button text"));
    assert_eq!(parse("Button(a,").err().as_deref(), Some("expected button signal id"));
    assert_eq!(parse("Style(").err().as_deref(), Some("expected style path"));
}

#[test]
fn error_unexpected_end_inside_container() {
    assert_eq!(parse("<vbox> Label(a)").err().as_deref(), Some("unclosed <vbox>"));
}

#[test]
fn stray_closing_angle_is_an_error() {
    let msg = Some("unexpected `>` outside a tag");
    assert_eq!(parse("Label(a) > b").err().as_deref(), msg);
    assert_eq!(parse("a > b").err().as_deref(), msg);
    assert_eq!(parse(">").err().as_deref(), msg);
    assert_eq!(parse("<hbox>>").err().as_deref(), msg);
    assert!(parse("Label(\"a > b\")").is_ok());
}

#[test]
fn unicode_white_space_separates_tokens() {
    let m = parse("\u{3000}Label(a)\u{2028}Label(b)\u{a0}").unwrap();
    assert_eq!(root_children(&m).len(), 2);
}

fn all_buttons_signalled(w: &Widget) -> bool {
    match w {
        Widget::Container { children, .. } => children.iter().all(all_buttons_signalled),
        Widget::Label { .. } => true,
        Widget::Button { signal, .. } => signal.is_some(),
    }
}

#[test]
fn parsed_buttons_carry_signals() {
    let m = parse("Button(\"A\",a)\n<hbox><vbox>Button(\"B\",b)</vbox>Label(x)</hbox>").unwrap();
    assert!(all_buttons_signalled(&m.root));
    assert_eq!(root_children(&m).len(), 2);
}
