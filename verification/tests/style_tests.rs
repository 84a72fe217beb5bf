use ulib::style::{self, Align, Style, StyleSheet};

fn is_default(s: &Style) -> bool {
    s.background == 0x000000
        && s.color == 0xffffff
        && s.border_color == 0x888888
        && s.border_size == 1
        && s.padding == 4
        && s.margin == 2
        && s.align == Align::Center
}

#[test]
fn default_style_values() {
    assert!(is_default(&Style::default()));
}

#[test]
fn empty_sheet_resolves_to_defaults() {
    let sheet = StyleSheet::new();
    assert!(is_default(&style::resolve(&sheet, &["button", "window"])));
    assert!(is_default(&style::resolve(&sheet, &[])));
}

#[test]
fn repeated_selector_resolves_like_once() {
    let sheet = style::parse("button { background: #010203; padding: 9 }\nwindow { color: #0000ff }");
    let once = style::resolve(&sheet, &["button"]);
    let twice = style::resolve(&sheet, &["button", "button"]);
    assert_eq!(once.background, twice.background);
    assert_eq!(once.padding, twice.padding);
    assert_eq!(once.color, twice.color);
    assert_eq!(twice.background, 0x010203);
    assert_eq!(twice.padding, 9);
}

#[test]
fn unknown_property_leaves_default_entry() {
    let sheet = style::parse("button { shadow: 3; }");
    let entry = sheet.get("button").expect("entry is created");
    assert!(is_default(&entry));
}

#[test]
fn bad_values_are_ignored() {
    let sheet = style::parse("button { background: #12345; padding: x; border-size: -1; align: middle }");
    let entry = sheet.get("button").unwrap();
    assert!(is_default(&entry));
}

#[test]
fn later_declaration_wins() {
    let sheet = style::parse("label { color: #000001; color: #000002 }");
    assert_eq!(sheet.get("label").unwrap().color, 2);
}

#[test]
fn selectors_are_case_insensitive() {
    let sheet = style::parse("BUTTON { color: #000003 }");
    assert_eq!(sheet.get("button").unwrap().color, 3);
    assert_eq!(style::resolve(&sheet, &["button"]).color, 3);
    assert_eq!(style::resolve(&sheet, &["  Button "]).color, 3);
}

#[test]
fn block_over_several_lines() {
    let css = "button {\r\n  background: #010203;\r\n  border-size: 5;\n}\nlabel { margin: 7 }\n";
    let sheet = style::parse(css);
    let b = sheet.get("button").unwrap();
    assert_eq!(b.background, 0x010203);
    assert_eq!(b.border_size, 5);
    assert_eq!(sheet.get("label").unwrap().margin, 7);
}

#[test]
fn comments_are_skipped() {
    let sheet = style::parse("// button { color: #000001 }\n/* label { color: #000002 } */\n");
    assert!(sheet.get("button").is_none());
    assert!(sheet.get("label").is_none());
}

#[test]
fn declarations_outside_a_block_are_ignored() {
    let sheet = style::parse("color: #000001;\n");
    assert!(sheet.get("").is_none());
    assert!(is_default(&style::resolve(&sheet, &["button"])));
}

#[test]
fn closing_line_without_block_uses_empty_selector() {
    let sheet = style::parse("color: #000004 }\n");
    assert_eq!(sheet.get("").unwrap().color, 4);
}

#[test]
fn align_is_resolved() {
    let sheet = style::parse("label { align: left }\nbutton { align: right }");
    assert_eq!(sheet.get("label").unwrap().align, Align::Left);
    assert_eq!(sheet.get("button").unwrap().align, Align::Right);
    assert_eq!(style::resolve(&sheet, &["label", "window"]).align, Align::Left);
    assert_eq!(style::resolve(&sheet, &["button", "window"]).align, Align::Right);
    assert_eq!(style::resolve(&sheet, &["hbox", "window"]).align, Align::Center);
}

#[test]
fn center_entry_keeps_earlier_alignment() {
    let sheet = style::parse("* { align: right }\nlabel { align: center; color: #000001 }");
    let s = style::resolve(&sheet, &["label", "window"]);
    assert_eq!(s.align, Align::Right);
    assert_eq!(s.color, 1);
}

#[test]
fn hex_colour_with_plus_sign_is_refused() {
    let sheet = style::parse("button { background: #+12345 }");
    assert_eq!(sheet.get("button").unwrap().background, 0x000000);
}

#[test]
fn hex_colour_takes_both_cases() {
    let sheet = style::parse("button { background: #aBcDeF; color: #12345g }");
    let b = sheet.get("button").unwrap();
    assert_eq!(b.background, 0xabcdef);
    assert_eq!(b.color, 0xffffff);
}

#[test]
fn universal_selector_comes_first() {
    let sheet = style::parse("* { padding: 10 }\nbutton { background: #000001 }");
    assert_eq!(style::resolve(&sheet, &["label"]).padding, 10);
    // The button entry starts from the defaults, whose padding is not zero.
    assert_eq!(style::resolve(&sheet, &["button"]).padding, 4);
    assert_eq!(style::resolve(&sheet, &["button"]).background, 1);
}

#[test]
fn zero_values_do_not_override() {
    let sheet = style::parse("button { margin: 0; background: #000000 }");
    assert_eq!(sheet.get("button").unwrap().margin, 0);
    let s = style::resolve(&sheet, &["button"]);
    assert_eq!(s.margin, 2);
    assert_eq!(s.background, 0);
}

#[test]
fn later_selectors_override_earlier() {
    let sheet = style::parse("button { color: #000001 }\nwindow { color: #000002 }");
    assert_eq!(style::resolve(&sheet, &["button", "window"]).color, 2);
    assert_eq!(style::resolve(&sheet, &["window", "button"]).color, 1);
}

#[test]
fn sheet_get_returns_what_insert_stored() {
    let mut sheet = StyleSheet::new();
    let mut s = Style::default();
    s.color = 0x123456;
    sheet.insert("x", s);
    assert_eq!(sheet.get("x").unwrap().color, 0x123456);
    s.color = 0x654321;
    sheet.insert("x", s);
    assert_eq!(sheet.get("x").unwrap().color, 0x654321);
    assert!(sheet.get("y").is_none());
}

#[test]
fn sheet_clone_keeps_entries() {
    let sheet = style::parse("button { color: #000009 }");
    let copy = sheet.clone();
    assert_eq!(copy.get("button").unwrap().color, 9);
}

#[test]
fn sheet_len_and_entries() {
    let sheet = style::parse("button { padding: 9 }\nlabel { margin: 3 }\nBUTTON { color: #000001 }");
    assert_eq!(sheet.len(), 2);
    let mut entries = sheet.entries();
    entries.sort_by(|a, b| a.0.cmp(&b.0));
    assert_eq!(entries.len(), 2);
    assert_eq!(entries[0].0, "button");
    assert_eq!(entries[0].1.padding, 9);
    assert_eq!(entries[0].1.color, 1);
    assert_eq!(entries[1].0, "label");
    assert_eq!(entries[1].1.margin, 3);
    assert_eq!(StyleSheet::new().len(), 0);
    assert!(StyleSheet::new().entries().is_empty());
}

#[test]
fn unicode_white_space_is_trimmed() {
    let sheet = style::parse("\u{3000}button\u{a0}{ padding:\u{2003}9\u{85}; margin: \u{200b}5 }");
    let b = sheet.get("button").unwrap();
    assert_eq!(b.padding, 9);
    // U+200B ZERO WIDTH SPACE is not white space, so the margin does not parse.
    assert_eq!(b.margin, 2);
}
