use ulib::font::{Font, Glyph};
use ulib::style::{Align, Style};
use ulib::ui::{render, rgb_from_u32, Placed, Widget};

fn no_glyphs() -> Font {
    Font { glyphs: vec![], gap: 1, height: 2 }
}

fn item(widget: Widget, rect: (u32, u32, u32, u32), style: Style) -> Placed {
    Placed { widget, rect, style }
}

#[test]
fn render_nothing_clears_whole_buffer() {
    let mut buf = vec![7u32; 10];
    render(&[], &no_glyphs(), &mut buf, 3, 3);
    assert!(buf.iter().all(|&p| p == 0x222222));
}

#[test]
fn render_container_fills_and_clips() {
    let mut style = Style::default();
    style.background = 0x0000ff;
    let c = Widget::Container { layout: ulib::ui::Layout::VBox, children: vec![] };
    let mut buf = vec![0u32; 16 + 2];
    render(&[item(c, (2, 1, 5, 2), style)], &no_glyphs(), &mut buf, 4, 4);
    for y in 0..4u32 {
        for x in 0..4u32 {
            let inside = x >= 2 && (1..3).contains(&y);
            let want = if inside { 0x0000ff } else { 0x222222 };
            assert_eq!(buf[(y * 4 + x) as usize], want, "pixel {x},{y}");
        }
    }
    assert_eq!(buf[16], 0x222222);
    assert_eq!(buf[17], 0x222222);
}

#[test]
fn render_button_face_and_border() {
    let mut style = Style::default();
    style.background = 0x10f0ff;
    style.border_color = 0x00ff00;
    style.border_size = 1;
    let b = Widget::Button { text: String::new(), signal: None };
    let mut buf = vec![0u32; 25];
    render(&[item(b, (0, 0, 5, 5), style)], &no_glyphs(), &mut buf, 5, 5);
    // Inner pixels: background lightened by 24 per channel, capped at 255.
    assert_eq!(buf[2 * 5 + 2], 0x28ffff);
    // Border ring.
    assert_eq!(buf[0], 0x00ff00);
    assert_eq!(buf[4 * 5 + 4], 0x00ff00);
    assert_eq!(buf[2 * 5], 0x00ff00);
}

#[test]
fn render_label_glyphs() {
    // A glyph with its leftmost and rightmost pixels set on one row.
    let font = Font {
        glyphs: vec![Glyph { ch: 'x', rows: vec![0b10001] }],
        gap: 1,
        height: 1,
    };
    let mut style = Style::default();
    style.color = 0xabcdef;
    style.align = Align::Left;
    style.padding = 1;
    let l = Widget::Label { text: "xx".to_string() };
    let mut buf = vec![0u32; 20 * 3];
    render(&[item(l, (0, 0, 20, 3), style)], &font, &mut buf, 20, 3);
    // Text row is at y = (3 - 1) / 2 = 1; glyphs start at x = 1 and 7.
    for x in 0..20u32 {
        let on = x == 1 || x == 5 || x == 7 || x == 11;
        let want = if on { 0xabcdef } else { 0x222222 };
        assert_eq!(buf[(20 + x) as usize], want, "pixel {x}");
    }
    assert!(buf[0..20].iter().all(|&p| p == 0x222222));
}

#[test]
fn render_later_items_paint_over_earlier() {
    let mut a = Style::default();
    a.background = 1;
    let mut b = Style::default();
    b.background = 2;
    let c = || Widget::Container { layout: ulib::ui::Layout::VBox, children: vec![] };
    let mut buf = vec![0u32; 4];
    render(&[item(c(), (0, 0, 2, 2), a), item(c(), (1, 0, 1, 2), b)], &no_glyphs(), &mut buf, 2, 2);
    assert_eq!(buf, vec![1, 2, 1, 2]);
}

#[test]
fn rgb_channels() {
    assert_eq!(rgb_from_u32(0x2266aa), (0x22, 0x66, 0xaa));
    assert_eq!(rgb_from_u32(0xff123456), (0x12, 0x34, 0x56));
    let (r, g, b) = rgb_from_u32(0x0a0b0c);
    assert_eq!(((r as u32) << 16) | ((g as u32) << 8) | b as u32, 0x0a0b0c);
}

#[test]
fn font_metrics() {
    let font = Font { glyphs: vec![Glyph { ch: 'a', rows: vec![1, 2] }], gap: 2, height: 9 };
    assert_eq!(font.text_width("abc"), 21);
    assert_eq!(font.text_width(""), 0);
    assert_eq!(font.text_height(), 9);
    assert_eq!(font.glyph('a'), Some(&vec![1u8, 2]));
    assert_eq!(font.glyph('b'), None);
}
