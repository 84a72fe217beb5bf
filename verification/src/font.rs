//! A bitmap font: one pattern of pixel rows per character.
use vstd::prelude::*;

use crate::text::chars_of;

verus! {

/// Width of every glyph in pixels. A row pattern holds the glyph's pixels in
/// its five low bits, the leftmost pixel in bit 4.
pub const GLYPH_W: u32 = 5;

/// The pixel rows of one character.
pub struct Glyph {
    pub ch: char,
    pub rows: Vec<u8>,
}

/// A bitmap font.
pub struct Font {
    /// The glyphs; a character without one is drawn as blank space.
    pub glyphs: Vec<Glyph>,
    /// Pixels of space between two glyphs.
    pub gap: u32,
    /// Height of a line of text in pixels.
    pub height: u32,
}

/// The rows of the first glyph in `gs` that draws `c`.
pub open spec fn first_glyph(gs: Seq<Glyph>, c: char) -> Option<Seq<u8>>
    decreases gs.len(),
{
    if gs.len() == 0 {
        None
    } else if gs[0].ch == c {
        Some(gs[0].rows@)
    } else {
        first_glyph(gs.drop_first(), c)
    }
}

/// The rows the font draws `c` with, if it has a glyph for it.
pub open spec fn glyph_rows(font: &Font, c: char) -> Option<Seq<u8>> {
    first_glyph(font.glyphs@, c)
}

/// How far the pen moves for each character: a glyph and the gap after it.
pub open spec fn advance(font: &Font) -> int {
    GLYPH_W + font.gap
}

/// The width of a run of `n` characters.
pub open spec fn run_width(font: &Font, n: int) -> int {
    n * advance(font)
}

impl Font {
    /// The rows of the glyph for `c`, if the font has one.
    pub fn glyph(&self, c: char) -> (r: Option<&Vec<u8>>)
        ensures
            match r {
                Some(rows) => glyph_rows(self, c) == Some(rows@),
                None => glyph_rows(self, c) is None,
            },
    {
        let mut i: usize = 0;
        assert(self.glyphs@.subrange(0, self.glyphs@.len() as int) =~= self.glyphs@);
        while i < self.glyphs.len()
            invariant
                i <= self.glyphs@.len(),
                glyph_rows(self, c) == first_glyph(self.glyphs@.subrange(i as int, self.glyphs@.len() as int), c),
            decreases self.glyphs@.len() - i,
        {
            let ghost rest = self.glyphs@.subrange(i as int, self.glyphs@.len() as int);
            assert(rest[0] == self.glyphs@[i as int]);
            if self.glyphs[i].ch == c {
                return Some(&self.glyphs[i].rows);
            }
            assert(rest.drop_first() =~= self.glyphs@.subrange(i + 1, self.glyphs@.len() as int));
            i = i + 1;
        }
        None
    }

    /// Width in pixels of `text` drawn in this font (capped at `u64::MAX`).
    pub fn text_width(&self, text: &str) -> (w: u64)
        ensures
            w == (if run_width(self, text@.len() as int) <= u64::MAX {
                run_width(self, text@.len() as int)
            } else {
                u64::MAX as int
            }),
    {
        let n = chars_of(text).len() as u64;
        let adv = GLYPH_W as u64 + self.gap as u64;
        if n != 0 && adv > u64::MAX / n {
            proof {
                assert(n * adv > u64::MAX) by (nonlinear_arith)
                    requires
                        n > 0,
                        adv > u64::MAX / n,
                ;
            }
            u64::MAX
        } else {
            proof {
                assert(n * adv <= u64::MAX) by (nonlinear_arith)
                    requires
                        n == 0 || adv <= u64::MAX / n,
                ;
            }
            n * adv
        }
    }

    /// Height in pixels of a line of text.
    pub fn text_height(&self) -> (h: u32)
        ensures
            h == self.height,
    {
        self.height
    }
}

} // verus!
