use ulib::style::{self, Style, StyleSheet};
use ulib::ui::{hit_test, layout, parse_module, try_layout, Placed, Widget};

fn button(text: &str, signal: Option<&str>) -> Widget {
    Widget::Button {
        text: text.to_string(),
        signal: signal.map(|s| s.to_string()),
    }
}

fn placed(widget: Widget, rect: (u32, u32, u32, u32)) -> Placed {
    Placed {
        widget,
        rect,
        style: Style::default(),
    }
}

#[test]
fn layout_places_every_widget_root_last() {
    let m = parse_module("<hbox>\nButton(\"A\",a)\nLabel(b)\n</hbox>\nLabel(c)").unwrap();
    let sheet = StyleSheet::new();
    let placed = layout(&m.root, &sheet, 200, 100);
    // root, hbox, two children of the hbox, one label
    assert_eq!(placed.len(), 5);
    assert_eq!(placed[4].rect, (0, 0, 200, 100));
    assert!(matches!(placed[4].widget, Widget::Container { .. }));
    // Default margin 2 and padding 4 leave a 188 by 88 content box at (6, 6),
    // split in two rows of 44.
    // Each container comes after its children.
    assert_eq!(placed[0].rect, (12, 12, 88, 32));
    assert_eq!(placed[1].rect, (100, 12, 88, 32));
    assert_eq!(placed[2].rect, (6, 6, 188, 44));
    assert!(matches!(placed[2].widget, Widget::Container { .. }));
    assert_eq!(placed[3].rect, (6, 50, 188, 44));
}

#[test]
fn layout_uses_resolved_styles() {
    let m = parse_module("Button(\"A\",a)").unwrap();
    let sheet = style::parse("button { padding: 9 }\nvbox { margin: 1 }");
    let placed = layout(&m.root, &sheet, 50, 50);
    assert_eq!(placed.len(), 2);
    assert_eq!(placed[0].style.padding, 9);
    assert_eq!(placed[1].style.margin, 1);
    assert_eq!(placed[0].rect, (5, 5, 40, 40));
}

#[test]
fn small_window_saturates_content_box() {
    let m = parse_module("Label(a)").unwrap();
    let sheet = StyleSheet::new();
    let placed = layout(&m.root, &sheet, 3, 3);
    assert_eq!(placed[0].rect, (6, 6, 0, 0));
}

#[test]
fn try_layout_refuses_overflowing_margins() {
    let m = parse_module("Label(a)").unwrap();
    let sheet = style::parse("vbox { margin: 3000000000 }");
    assert!(try_layout(&m.root, &sheet, 10, 10).is_none());
    let ok = style::parse("vbox { margin: 3 }");
    assert!(try_layout(&m.root, &ok, 10, 10).is_some());
}

#[test]
fn hit_test_prefers_smallest_button() {
    let ps = vec![
        placed(button("big", Some("big")), (0, 0, 100, 100)),
        placed(button("small", Some("small")), (10, 10, 20, 20)),
        placed(button("other", Some("other")), (50, 50, 10, 10)),
    ];
    assert_eq!(hit_test(&ps, 15, 15).as_deref(), Some("small"));
    assert_eq!(hit_test(&ps, 5, 5).as_deref(), Some("big"));
    assert_eq!(hit_test(&ps, 55, 55).as_deref(), Some("other"));
    assert_eq!(hit_test(&ps, 100, 5), None);
}

#[test]
fn hit_test_first_of_equal_areas() {
    let ps = vec![
        placed(button("one", Some("one")), (0, 0, 10, 10)),
        placed(button("two", Some("two")), (0, 0, 10, 10)),
    ];
    assert_eq!(hit_test(&ps, 1, 1).as_deref(), Some("one"));
}

#[test]
fn hit_test_ignores_buttons_without_signal_and_labels() {
    let ps = vec![
        placed(button("mute", None), (0, 0, 10, 10)),
        placed(Widget::Label { text: "l".to_string() }, (0, 0, 5, 5)),
    ];
    assert_eq!(hit_test(&ps, 1, 1), None);
}

#[test]
fn hit_test_edges_are_half_open() {
    let ps = vec![placed(button("b", Some("b")), (10, 10, 5, 5))];
    assert_eq!(hit_test(&ps, 10, 10).as_deref(), Some("b"));
    assert_eq!(hit_test(&ps, 14, 14).as_deref(), Some("b"));
    assert_eq!(hit_test(&ps, 15, 10), None);
    assert_eq!(hit_test(&ps, 10, 15), None);
}

#[test]
fn widget_kind_and_selectors() {
    assert_eq!(button("a", None).kind(), "button");
    assert_eq!(Widget::Label { text: String::new() }.kind(), "label");
    let hbox = Widget::Container { layout: ulib::ui::Layout::HBox, children: vec![] };
    assert_eq!(hbox.kind(), "hbox");
    assert_eq!(hbox.selectors(), ("hbox", "window"));
    let vbox = Widget::Container { layout: ulib::ui::Layout::VBox, children: vec![] };
    assert_eq!(vbox.selectors(), ("vbox", "window"));
}

#[test]
fn layout_keeps_non_empty_rects_inside_window() {
    let m = parse_module("<hbox>\n<vbox> Button(\"A\",a) Label(b) </vbox>\nLabel(c)\n</hbox>\nButton(\"D\",d)").unwrap();
    let sheet = style::parse("vbox { margin: 7; padding: 5 }\nhbox { padding: 9 }");
    for (w, h) in [(200u32, 100u32), (31, 17), (3, 300), (0, 0)] {
        let placed = layout(&m.root, &sheet, w, h);
        assert_eq!(placed.len(), 7);
        for p in &placed {
            let (x, y, pw, ph) = p.rect;
            if pw > 0 && ph > 0 {
                assert!(x as u64 + pw as u64 <= w as u64);
                assert!(y as u64 + ph as u64 <= h as u64);
            }
        }
    }
}

#[test]
fn layout_succeeds_with_bounded_spacing() {
    let m = parse_module("<vbox><vbox><vbox>Label(a)</vbox></vbox></vbox>").unwrap();
    let sheet = style::parse("vbox { margin: 100000; padding: 100000 }");
    assert!(try_layout(&m.root, &sheet, 1000, 1000).is_some());
}
