use ulib::style;
use ulib::style::StyleSheet;
use ulib::ui::{hit_test, layout, parse_module, Layout, Widget};

#[test]
fn parses_ui_file() {
    let src = r#"
Style(style.css)
Label("Wow text!")
<HBOX>
Button("Super button!!!!!",hbutton)
</HBOX>
<VBOX>
Button("Super button wow!!!!!!",hbutton)
</VBOX>
"#;
    let module = parse_module(src).expect("should parse");
    assert_eq!(module.style_file.as_deref(), Some("style.css"));
    let Widget::Container { layout, children } = &module.root else {
        panic!("expected root container");
    };
    assert_eq!(*layout, Layout::VBox);
    assert_eq!(children.len(), 3);
}

#[test]
fn hit_tests_buttons() {
    let src = r#"
<HBOX>
Button("A",a)
Button("B",b)
</HBOX>
"#;
    let module = parse_module(src).unwrap();
    let sheet = StyleSheet::new();
    // 100x40 window. Default padding/margin (8/2) inset the content area;
    // with a single HBox child and two buttons, button A ~ (20,18..26),
    // button B ~ (50,18..26).
    let placed = layout(&module.root, &sheet, 100, 40);
    assert_eq!(hit_test(&placed, 25, 22).as_deref(), Some("a"));
    assert_eq!(hit_test(&placed, 65, 22).as_deref(), Some("b"));
    assert_eq!(hit_test(&placed, 5, 5).as_deref(), None);
}

#[test]
fn resolves_css() {
    let css = r#"
button { background: #2266aa; color: #ffffff; }
"#;
    let sheet = style::parse(css);
    let s = style::resolve(&sheet, &["button", "window"]);
    assert_eq!(s.background, 0x2266aa);
    assert_eq!(s.color, 0xffffff);
}
