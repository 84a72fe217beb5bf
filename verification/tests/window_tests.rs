use ulib::style::StyleSheet;
use ulib::ui::parse_module;
use ulib::window::{
    click_signal, creation_step, creation_timed_out, fill_gradient, CreationStep, ModulePayload,
    CREATION_POLL_MS,
};

#[test]
fn click_outside_window_fires_nothing() {
    let m = parse_module("Button(\"A\",a)").unwrap();
    let sheet = StyleSheet::new();
    assert_eq!(click_signal(&m.root, &sheet, 100, 40, (-1, 10)), None);
    assert_eq!(click_signal(&m.root, &sheet, 100, 40, (10, -3)), None);
    assert_eq!(click_signal(&m.root, &sheet, 100, 40, (50, 20)).as_deref(), Some("a"));
    assert_eq!(click_signal(&m.root, &sheet, 100, 40, (1, 1)), None);
}

#[test]
fn gradient_pixels() {
    let (w, h) = (40u32, 20u32);
    let mut buf = vec![0u32; (w * h) as usize + 1];
    fill_gradient(&mut buf, w, h);
    let at = |x: u32, y: u32| buf[(y * w + x) as usize];
    assert_eq!(at(0, 0), 0);
    assert_eq!(at(8, 0), 1);
    assert_eq!(at(0, 16), 2 << 8);
    assert_eq!(at(16, 8), ((16 * 8 / 16) << 16) | (1 << 8) | 2);
    assert_eq!(buf[(w * h) as usize], 0);
}

#[test]
fn payload_clone_keeps_tree_and_sheet() {
    let m = parse_module("Label(x)").unwrap();
    let sheet = ulib::style::parse("label { color: #000005 }");
    let p = ModulePayload { tree: m.root, sheet };
    let q = p.clone();
    assert_eq!(q.tree.kind(), "vbox");
    assert_eq!(q.sheet.get("label").unwrap().color, 5);
}

#[test]
fn creation_wait_steps() {
    assert!(matches!(creation_step(true, false), CreationStep::Created));
    assert!(matches!(creation_step(true, true), CreationStep::Created));
    assert!(matches!(creation_step(false, true), CreationStep::Failed));
    assert!(matches!(creation_step(false, false), CreationStep::Wait));
    assert_eq!(CREATION_POLL_MS, 5);
    assert!(!creation_timed_out(5_000_000_000));
    assert!(creation_timed_out(5_000_000_001));
    assert!(!creation_timed_out(0));
}
