//! The decisions of the window's event loop that do not touch the windowing
//! system: what a module attached to a window holds, which signal a click
//! fires, and the picture shown before any module is attached.
use vstd::prelude::*;

use crate::style::StyleSheet;
use crate::ui::layout::{best_target, hit_test, layout, layout_spec, placed_models, signal_of};
use crate::ui::render::lemma_position;
use crate::ui::widget::Widget;

verus! {

/// A parsed module ready to be shown: its widget tree and its stylesheet.
pub struct ModulePayload {
    pub tree: Widget,
    pub sheet: StyleSheet,
}

impl Clone for ModulePayload {
    fn clone(&self) -> (r: Self)
        ensures
            r.tree@ == self.tree@,
            r.sheet@ == self.sheet@,
    {
        ModulePayload { tree: self.tree.clone(), sheet: self.sheet.clone() }
    }
}

/// The signal a left click at `cursor` fires in a `width` by `height` window
/// showing `tree`: none for a cursor left of or above the window, else the
/// smallest button with a signal under the cursor in the laid out tree.
pub fn click_signal(
    tree: &Widget,
    sheet: &StyleSheet,
    width: u32,
    height: u32,
    cursor: (i32, i32),
) -> (r: Option<String>)
    requires
        cursor.0 >= 0 && cursor.1 >= 0 ==> layout_spec(tree@, sheet@, 0, 0, width, height) is Some,
    ensures
        cursor.0 < 0 || cursor.1 < 0 ==> r is None,
        cursor.0 >= 0 && cursor.1 >= 0 ==> ({
            let ps = layout_spec(tree@, sheet@, 0, 0, width, height)->0;
            match best_target(ps, ps.len() as int, cursor.0 as int, cursor.1 as int) {
                Some(b) => r matches Some(s) && s@ == signal_of(ps[b].widget)->0,
                None => r is None,
            }
        }),
{
    let (cx, cy) = cursor;
    if cx < 0 || cy < 0 {
        return None;
    }
    let placed = layout(tree, sheet, width, height);
    hit_test(&placed, cx as u32, cy as u32)
}

/// What the wait for a newly requested window does next.
pub enum CreationStep {
    /// The window exists: stop waiting.
    Created,
    /// The event loop could not create it: give up with an error.
    Failed,
    /// Neither yet: sleep `CREATION_POLL_MS` and look again.
    Wait,
}

/// Milliseconds between two looks at a window being created.
pub const CREATION_POLL_MS: u64 = 5;

/// How long, in nanoseconds, to wait for a window before giving up.
pub const CREATION_TIMEOUT_NANOS: u128 = 5_000_000_000;

/// The next step of the wait for a new window, from the two flags the event
/// loop sets: creation wins over failure.
pub fn creation_step(created: bool, failed: bool) -> (r: CreationStep)
    ensures
        created ==> r is Created,
        !created && failed ==> r is Failed,
        !created && !failed ==> r is Wait,
{
    if created {
        CreationStep::Created
    } else if failed {
        CreationStep::Failed
    } else {
        CreationStep::Wait
    }
}

/// Whether a wait of `elapsed_nanos` has gone past the time limit.
pub fn creation_timed_out(elapsed_nanos: u128) -> (r: bool)
    ensures
        r == (elapsed_nanos > CREATION_TIMEOUT_NANOS),
{
    elapsed_nanos > CREATION_TIMEOUT_NANOS
}

/// The colour of pixel `(x, y)` in the picture shown before a module is
/// attached: red grows every 8 columns, green every 8 rows, blue with `x * y`.
pub open spec fn gradient(x: int, y: int) -> int {
    ((x * y) / 16 % 256) * 65536 + (y / 8 % 256) * 256 + (x / 8 % 256)
}

/// Fills a `w` by `h` buffer with the gradient; pixel `(x, y)` sits at index `y * w + x`.
pub fn fill_gradient(buf: &mut [u32], w: u32, h: u32)
    requires
        w * h <= old(buf)@.len(),
        w * h <= 0x1_0000_0000,
    ensures
        final(buf)@.len() == old(buf)@.len(),
        forall|i: int| 0 <= i < w * h ==> #[trigger] final(buf)@[i] == gradient(i % w as int, i / w as int),
        forall|i: int| w * h <= i < old(buf)@.len() ==> #[trigger] final(buf)@[i] == old(buf)@[i],
{
    let ghost buf0 = buf@;
    let mut y: u32 = 0;
    while y < h
        invariant
            w * h <= buf@.len(),
            w * h <= 0x1_0000_0000,
            buf@.len() == buf0.len(),
            y <= h,
            forall|i: int| 0 <= i < y * w ==> #[trigger] buf@[i] == gradient(i % w as int, i / w as int),
            forall|i: int| y * w <= i < buf0.len() ==> #[trigger] buf@[i] == buf0[i],
        decreases h - y,
    {
        let mut x: u32 = 0;
        while x < w
            invariant
                w * h <= buf@.len(),
                w * h <= 0x1_0000_0000,
                buf@.len() == buf0.len(),
                y < h,
                x <= w,
                forall|i: int| 0 <= i < y * w + x ==> #[trigger] buf@[i] == gradient(i % w as int, i / w as int),
                forall|i: int| y * w + x <= i < buf0.len() ==> #[trigger] buf@[i] == buf0[i],
            decreases w - x,
        {
            proof {
                lemma_position(x as int, y as int, w as int, h as int);
            }
            assert(x * y < w * h) by (nonlinear_arith)
                requires
                    x < w,
                    y < h,
            ;
            let red = (x / 8) % 256;
            let green = (y / 8) % 256;
            let blue = ((x * y) / 16) % 256;
            let idx = y * w + x;
            proof {
                assert((blue << 16) | (green << 8) | red == blue * 65536 + green * 256 + red)
                    by (bit_vector)
                    requires
                        blue < 256,
                        green < 256,
                        red < 256,
                ;
            }
            buf[idx as usize] = (blue << 16) | (green << 8) | red;
            x = x + 1;
        }
        assert(y * w + w == (y + 1) * w) by (nonlinear_arith);
        y = y + 1;
    }
    assert(h * w == w * h) by (nonlinear_arith);
}

} // verus!
