# ulib

A small native UI library. A `.ulib` markup file describes a widget tree
(labels, buttons, horizontal and vertical boxes); a CSS subset styles it; the
tree is laid out into pixel rectangles, drawn into a `u32` pixel buffer and
hit-tested for clicks. Windows are opened and driven through a C interface.

Layout:

- `src/` is the verified library (Verus):
  - `text.rs`: character-level helpers (the Unicode white-space set,
    trimming, splitting, line breaking, number parsing) and the trusted
    wrappers over std's lowercasing and `String::push`.
  - `style.rs`: the stylesheet (a map from selector to style), the CSS parser
    and style resolution.
  - `ui/markup.rs`: tokenizer and parser of the markup.
  - `ui/widget.rs`: the widget tree and its mathematical model.
  - `ui/layout.rs`: layout and hit-testing.
  - `ui/render.rs`: drawing into the pixel buffer.
  - `font.rs`: the bitmap font that text is drawn with.
  - `window.rs`: the decisions of the window's event loop (which signal a
    click fires, the picture shown before a module is attached, the wait for
    a new window).
- `app/` is ordinary Rust: the C interface, file reading, and the
  winit/softbuffer event loop that calls into the library.
- `tests/` runs the library on concrete inputs.
