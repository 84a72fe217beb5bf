//! Laying out a widget tree into pixel rectangles, and hit-testing them.
use vstd::prelude::*;

use crate::style::{
    cascade, default_style, is_set, law_resolve_cascade, present_entries, selector_entries,
    spec_canonical, field, law_resolve_bounded, resolve, spec_resolve, Style, StyleSheet};
use crate::text::string_from;
use crate::ui::widget::{
    kind_name, lemma_widgets_model, widget_model, widgets_model, Layout, Widget, WidgetModel,
};

verus! {

/// A laid out widget with its pixel rectangle.
pub struct Placed {
    pub widget: Widget,
    pub rect: (u32, u32, u32, u32),  // x, y, w, h
    pub style: Style,
}

/// What a placed widget is.
pub struct PlacedModel {
    pub widget: WidgetModel,
    pub rect: (u32, u32, u32, u32),
    pub style: Style,
}

impl View for Placed {
    type V = PlacedModel;

    open spec fn view(&self) -> PlacedModel {
        PlacedModel { widget: self.widget@, rect: self.rect, style: self.style }
    }
}

/// The models of a list of placed widgets.
pub open spec fn placed_models(ps: Seq<Placed>) -> Seq<PlacedModel> {
    ps.map_values(|p: Placed| p@)
}

/// The style a widget gets: its kind's entry, then `window`'s.
pub open spec fn widget_style(sheet: Map<Seq<char>, Style>, w: WidgetModel) -> Style {
    spec_resolve(sheet, seq![kind_name(w), "window"@])
}

/// `a - b`, or 0 when `b` is larger (`u32::saturating_sub`).
pub open spec fn sat_sub(a: int, b: int) -> int {
    if a > b {
        a - b
    } else {
        0
    }
}

/// Whether `v` fits in a `u32`.
pub open spec fn fits(v: int) -> bool {
    v <= u32::MAX
}

/// The placed widgets of the tree `w` laid out in the rectangle `(x, y, wd, h)`:
/// the children of a container first, in order, then the container itself.
/// A container's content box is its rectangle shrunk by the margin, then by the
/// padding, on every side (never below zero), and split evenly among its
/// children along its axis. `None` when a coordinate leaves the `u32` range,
/// where the arithmetic would overflow.
pub open spec fn layout_spec(
    w: WidgetModel,
    sheet: Map<Seq<char>, Style>,
    x: u32,
    y: u32,
    wd: u32,
    h: u32,
) -> Option<Seq<PlacedModel>>
    decreases w, 0int,
{
    let st = widget_style(sheet, w);
    let me = PlacedModel { widget: w, rect: (x, y, wd, h), style: st };
    match w {
        WidgetModel::Container { layout, children } => {
            let m = st.margin as int;
            let p = st.padding as int;
            if !fits(x + m) || !fits(y + m) || !fits(2 * m) || !fits(x + m + p) || !fits(y + m + p)
                || !fits(2 * p) || !fits(children.len() as int) {
                None
            } else {
                let cx = (x + m + p) as u32;
                let cy = (y + m + p) as u32;
                let cw = sat_sub(sat_sub(wd as int, 2 * m), 2 * p) as u32;
                let ch = sat_sub(sat_sub(h as int, 2 * m), 2 * p) as u32;
                let n = if children.len() == 0 {
                    1
                } else {
                    children.len() as int
                };
                match layout_children(children, 0, layout, sheet, cx, cy, cw, ch, n) {
                    Some(ps) => Some(ps.push(me)),
                    None => None,
                }
            }
        },
        _ => Some(seq![me]),
    }
}

/// The rectangle of child `k` of `n` in a content box.
pub open spec fn child_rect(layout: Layout, k: int, cx: u32, cy: u32, cw: u32, ch: u32, n: int) -> (
    int,
    int,
    int,
    int,
) {
    match layout {
        Layout::VBox => (cx as int, cy + k * (ch as int / n), cw as int, ch as int / n),
        Layout::HBox => (cx + k * (cw as int / n), cy as int, cw as int / n, ch as int),
    }
}

/// The placed widgets of the children from `k` on.
pub open spec fn layout_children(
    cs: Seq<WidgetModel>,
    k: int,
    layout: Layout,
    sheet: Map<Seq<char>, Style>,
    cx: u32,
    cy: u32,
    cw: u32,
    ch: u32,
    n: int,
) -> Option<Seq<PlacedModel>>
    decreases cs, cs.len() - k,
{
    if k < 0 || k >= cs.len() || n <= 0 {
        Some(Seq::empty())
    } else {
        let r = child_rect(layout, k, cx, cy, cw, ch, n);
        if !fits(r.0) || !fits(r.1) || r.0 < 0 || r.1 < 0 || r.2 < 0 || r.3 < 0 || !fits(r.2)
            || !fits(r.3) {
            None
        } else {
            match layout_spec(cs[k], sheet, r.0 as u32, r.1 as u32, r.2 as u32, r.3 as u32) {
                None => None,
                Some(ps) => match layout_children(cs, k + 1, layout, sheet, cx, cy, cw, ch, n) {
                    None => None,
                    Some(rest) => Some(ps + rest),
                },
            }
        }
    }
}

/// `done` followed by the placed widgets of `rest`, when there are any.
pub open spec fn placed_after(done: Seq<PlacedModel>, rest: Option<Seq<PlacedModel>>) -> Option<
    Seq<PlacedModel>,
> {
    match rest {
        Some(ps) => Some(done + ps),
        None => None,
    }
}

proof fn lemma_share(k: int, c: int, n: int)
    requires
        0 <= k < n,
        0 <= c,
    ensures
        0 <= k * (c / n) <= c,
        k * (c / n) + c / n <= c,
        0 <= c / n <= c,
{
    assert(0 <= c / n <= c) by (nonlinear_arith)
        requires
            0 <= c,
            0 < n,
    ;
    assert((c / n) * n <= c) by (nonlinear_arith)
        requires
            0 <= c,
            0 < n,
    ;
    assert(k * (c / n) + c / n <= (c / n) * n) by (nonlinear_arith)
        requires
            0 <= k < n,
            0 <= c / n,
    ;
    assert(0 <= k * (c / n)) by (nonlinear_arith)
        requires
            0 <= k,
            0 <= c / n,
    ;
}

/// Lays out `widget` in the given rectangle, appending the placed widgets to
/// `out`; `false` (with `out` partly filled) where a coordinate would overflow.
fn layout_into(
    widget: &Widget,
    sheet: &StyleSheet,
    x: u32,
    y: u32,
    w: u32,
    h: u32,
    out: &mut Vec<Placed>,
) -> (ok: bool)
    ensures
        ok == (layout_spec(widget@, sheet@, x, y, w, h) is Some),
        ok ==> placed_models(final(out)@) == placed_models(old(out)@) + layout_spec(
            widget@,
            sheet@,
            x,
            y,
            w,
            h,
        )->0,
    decreases widget,
{
    let (sel, win_sel) = widget.selectors();
    let sels: [&str; 2] = [sel, win_sel];
    let style = resolve(sheet, &sels);
    assert(sels@.map_values(|s: &str| s@) =~= seq![kind_name(widget@), "window"@]);
    assert(style == widget_style(sheet@, widget@));
    let pad = style.padding;
    let margin = style.margin;
    let ghost me = PlacedModel { widget: widget@, rect: (x, y, w, h), style };
    match widget {
        Widget::Container { layout, children } => {
            proof {
                lemma_widgets_model(children@);
                assert(widget@ == WidgetModel::Container {
                    layout: *layout,
                    children: widgets_model(children@),
                });
            }
            if x > u32::MAX - margin || y > u32::MAX - margin || margin > u32::MAX / 2 {
                return false;
            }
            let inner_x = x + margin;
            let inner_y = y + margin;
            let inner_w = w.saturating_sub(2 * margin);
            let inner_h = h.saturating_sub(2 * margin);
            if inner_x > u32::MAX - pad || inner_y > u32::MAX - pad || pad > u32::MAX / 2
                || children.len() > 0xffff_ffffusize {
                return false;
            }
            let content_x = inner_x + pad;
            let content_y = inner_y + pad;
            let content_w = inner_w.saturating_sub(2 * pad);
            let content_h = inner_h.saturating_sub(2 * pad);
            let n: u32 = if children.len() == 0 {
                1
            } else {
                children.len() as u32
            };
            let ghost cs = widgets_model(children@);
            proof {
                lemma_widgets_model(children@);
                assert(widget@ == WidgetModel::Container { layout: *layout, children: cs });
                let m = margin as int;
                let p = pad as int;
                assert(content_x == (x + m + p) as u32);
                assert(content_y == (y + m + p) as u32);
                assert(content_w == sat_sub(sat_sub(w as int, 2 * m), 2 * p) as u32);
                assert(content_h == sat_sub(sat_sub(h as int, 2 * m), 2 * p) as u32);
                assert(layout_spec(widget@, sheet@, x, y, w, h) == (match layout_children(
                    cs,
                    0,
                    *layout,
                    sheet@,
                    content_x,
                    content_y,
                    content_w,
                    content_h,
                    n as int,
                ) {
                    Some(ps) => Some(ps.push(me)),
                    None => None,
                }));
            }
            let ghost out0 = placed_models(out@);
            let ghost acc: Seq<PlacedModel> = Seq::empty();
            let mut child_index: u32 = 0;
            while (child_index as usize) < children.len()
                invariant
                    *widget == (Widget::Container { layout: *layout, children: *children }),
                    cs == widgets_model(children@),
                    cs.len() == children@.len(),
                    forall|j: int|
                        0 <= j < children@.len() ==> #[trigger] cs[j] == widget_model(
                            children@[j],
                        ),
                    child_index <= children@.len(),
                    children@.len() <= u32::MAX,
                    n as int == (if children@.len() == 0 {
                        1
                    } else {
                        children@.len() as int
                    }),
                    placed_models(out@) == out0 + acc,
                    layout_spec(widget@, sheet@, x, y, w, h) == (match layout_children(
                        cs,
                        0,
                        *layout,
                        sheet@,
                        content_x,
                        content_y,
                        content_w,
                        content_h,
                        n as int,
                    ) {
                        Some(ps) => Some(ps.push(me)),
                        None => None,
                    }),
                    layout_children(
                        cs,
                        0,
                        *layout,
                        sheet@,
                        content_x,
                        content_y,
                        content_w,
                        content_h,
                        n as int,
                    ) == placed_after(
                        acc,
                        layout_children(
                            cs,
                            child_index as int,
                            *layout,
                            sheet@,
                            content_x,
                            content_y,
                            content_w,
                            content_h,
                            n as int,
                        ),
                    ),
                decreases children@.len() - child_index,
            {
                let k = child_index;
                let child = &children[k as usize];
                proof {
                    assert(decreases_to!(*widget => (*widget)->children));
                    assert(decreases_to!(*children => children@));
                    assert(decreases_to!(children@ => children@[k as int]));
                }
                let ok = match layout {
                    Layout::VBox => {
                        let child_h = content_h / n;
                        proof {
                            lemma_share(k as int, content_h as int, n as int);
                        }
                        let off = k * child_h;
                        if content_y > u32::MAX - off {
                            false
                        } else {
                            layout_into(
                                child,
                                sheet,
                                content_x,
                                content_y + off,
                                content_w,
                                child_h,
                                out,
                            )
                        }
                    },
                    Layout::HBox => {
                        let child_w = content_w / n;
                        proof {
                            lemma_share(k as int, content_w as int, n as int);
                        }
                        let off = k * child_w;
                        if content_x > u32::MAX - off {
                            false
                        } else {
                            layout_into(
                                child,
                                sheet,
                                content_x + off,
                                content_y,
                                child_w,
                                content_h,
                                out,
                            )
                        }
                    },
                };
                if !ok {
                    proof {
                        let r = child_rect(
                            *layout,
                            k as int,
                            content_x,
                            content_y,
                            content_w,
                            content_h,
                            n as int,
                        );
                        assert(k < cs.len());
                        assert(n > 0);
                        if fits(r.0) && fits(r.1) {
                            assert(cs[k as int] == child@);
                            assert(layout_spec(
                                cs[k as int],
                                sheet@,
                                r.0 as u32,
                                r.1 as u32,
                                r.2 as u32,
                                r.3 as u32,
                            ) is None);
                        }
                        assert(layout_children(
                            cs,
                            k as int,
                            *layout,
                            sheet@,
                            content_x,
                            content_y,
                            content_w,
                            content_h,
                            n as int,
                        ) is None);
                    }
                    return false;
                }
                proof {
                    let r = child_rect(
                        *layout,
                        k as int,
                        content_x,
                        content_y,
                        content_w,
                        content_h,
                        n as int,
                    );
                    let ps = layout_spec(
                        cs[k as int],
                        sheet@,
                        r.0 as u32,
                        r.1 as u32,
                        r.2 as u32,
                        r.3 as u32,
                    )->0;
                    let old_acc = acc;
                    acc = acc + ps;
                    assert(out0 + old_acc + ps =~= out0 + acc);
                    match layout_children(
                        cs,
                        k + 1,
                        *layout,
                        sheet@,
                        content_x,
                        content_y,
                        content_w,
                        content_h,
                        n as int,
                    ) {
                        Some(rest) => {
                            assert(old_acc + (ps + rest) =~= acc + rest);
                        },
                        None => {},
                    }
                }
                child_index = child_index + 1;
            }
            let ghost prev = out@;
            out.push(
                Placed {
                    widget: widget.clone(),
                    rect: (x, y, w, h),
                    style,
                },
            );
            proof {
                assert(placed_models(out@) =~= placed_models(prev).push(out@.last()@));
                assert(acc + Seq::<PlacedModel>::empty() =~= acc);
                assert(out@.last()@ == me);
                assert(placed_models(out@) =~= out0 + acc.push(me));
            }
            true
        },
        _ => {
            out.push(
                Placed {
                    widget: widget.clone(),
                    rect: (x, y, w, h),
                    style,
                },
            );
            proof {
                assert(placed_models(out@) =~= placed_models(old(out)@) + seq![me]);
            }
            true
        },
    }
}

/// Lay out a widget tree into a list of placed widgets with resolved styles,
/// or `None` where a coordinate would leave the `u32` range.
pub fn try_layout(root: &Widget, sheet: &StyleSheet, width: u32, height: u32) -> (r: Option<
    Vec<Placed>,
>)
    ensures
        r is Some == (layout_spec(root@, sheet@, 0, 0, width, height) is Some),
        r matches Some(placed) ==> placed_models(placed@) == layout_spec(
            root@,
            sheet@,
            0,
            0,
            width,
            height,
        )->0,
{
    let mut placed: Vec<Placed> = Vec::new();
    let ok = layout_into(root, sheet, 0, 0, width, height, &mut placed);
    if ok {
        assert(placed_models(Seq::<Placed>::empty()) =~= Seq::<PlacedModel>::empty());
        assert(Seq::<PlacedModel>::empty() + layout_spec(root@, sheet@, 0, 0, width, height)->0
            =~= layout_spec(root@, sheet@, 0, 0, width, height)->0);
        Some(placed)
    } else {
        None
    }
}

/// Lay out a widget tree into a list of placed widgets with resolved styles.
pub fn layout(root: &Widget, sheet: &StyleSheet, width: u32, height: u32) -> (placed: Vec<Placed>)
    requires
        layout_spec(root@, sheet@, 0, 0, width, height) is Some,
    ensures
        placed_models(placed@) == layout_spec(root@, sheet@, 0, 0, width, height)->0,
{
    match try_layout(root, sheet, width, height) {
        Some(p) => p,
        None => Vec::new(),
    }
}

/// The number of widgets in the tree `w`.
pub open spec fn node_count(w: WidgetModel) -> int
    decreases w, 0int,
{
    match w {
        WidgetModel::Container { children, .. } => 1 + nodes_count(children, 0),
        _ => 1,
    }
}

/// The number of widgets in the trees `cs[k..]`.
pub open spec fn nodes_count(cs: Seq<WidgetModel>, k: int) -> int
    decreases cs, cs.len() - k,
{
    if k < 0 || k >= cs.len() {
        0
    } else {
        node_count(cs[k]) + nodes_count(cs, k + 1)
    }
}

/// The widgets of the tree `w` in the order layout places them: the subtrees
/// of a container's children first, in order, then the container itself.
pub open spec fn post_order(w: WidgetModel) -> Seq<WidgetModel>
    decreases w, 0int,
{
    match w {
        WidgetModel::Container { children, .. } => post_order_all(children, 0).push(w),
        _ => seq![w],
    }
}

/// The widgets of the trees `cs[k..]`, each tree in the order of `post_order`.
pub open spec fn post_order_all(cs: Seq<WidgetModel>, k: int) -> Seq<WidgetModel>
    decreases cs, cs.len() - k,
{
    if k < 0 || k >= cs.len() {
        Seq::empty()
    } else {
        post_order(cs[k]) + post_order_all(cs, k + 1)
    }
}

/// The widgets of a list of placed widgets, in order.
pub open spec fn widgets_of(ps: Seq<PlacedModel>) -> Seq<WidgetModel> {
    ps.map_values(|p: PlacedModel| p.widget)
}

/// Whether every placed widget carries the style its selectors resolve to.
pub open spec fn styled(ps: Seq<PlacedModel>, sheet: Map<Seq<char>, Style>) -> bool {
    forall|i: int| 0 <= i < ps.len() ==> #[trigger] ps[i].style == widget_style(sheet, ps[i].widget)
}

/// Layout places every widget of the tree once, in the order of `post_order`
/// (each container after its children), each with the style its selectors
/// resolve to, and places the root last, in the whole rectangle it was given.
pub proof fn law_layout_places_every_widget(
    w: WidgetModel,
    sheet: Map<Seq<char>, Style>,
    x: u32,
    y: u32,
    wd: u32,
    h: u32,
)
    ensures
        layout_spec(w, sheet, x, y, wd, h) matches Some(ps) ==> {
            &&& ps.len() == node_count(w)
            &&& widgets_of(ps) == post_order(w)
            &&& ps.last() == PlacedModel { widget: w, rect: (x, y, wd, h), style: widget_style(sheet, w) }
            &&& styled(ps, sheet)
        },
    decreases w, 0int,
{
    if let WidgetModel::Container { layout, children } = w {
        let st = widget_style(sheet, w);
        let m = st.margin as int;
        let p = st.padding as int;
        if fits(x + m) && fits(y + m) && fits(2 * m) && fits(x + m + p) && fits(y + m + p) && fits(
            2 * p,
        ) && fits(children.len() as int) {
            let cx = (x + m + p) as u32;
            let cy = (y + m + p) as u32;
            let cw = sat_sub(sat_sub(wd as int, 2 * m), 2 * p) as u32;
            let ch = sat_sub(sat_sub(h as int, 2 * m), 2 * p) as u32;
            let n = if children.len() == 0 {
                1
            } else {
                children.len() as int
            };
            lemma_children_places_every_widget(children, 0, layout, sheet, cx, cy, cw, ch, n);
            if let Some(cps) = layout_children(children, 0, layout, sheet, cx, cy, cw, ch, n) {
                let me = PlacedModel { widget: w, rect: (x, y, wd, h), style: st };
                assert(widgets_of(cps.push(me)) =~= widgets_of(cps).push(w));
            }
        }
    } else {
        let me = PlacedModel { widget: w, rect: (x, y, wd, h), style: widget_style(sheet, w) };
        assert(widgets_of(seq![me]) =~= seq![w]);
    }
}

proof fn lemma_children_places_every_widget(
    cs: Seq<WidgetModel>,
    k: int,
    layout: Layout,
    sheet: Map<Seq<char>, Style>,
    cx: u32,
    cy: u32,
    cw: u32,
    ch: u32,
    n: int,
)
    requires
        0 <= k,
        n > 0,
    ensures
        layout_children(cs, k, layout, sheet, cx, cy, cw, ch, n) matches Some(ps) ==> {
            &&& ps.len() == nodes_count(cs, k)
            &&& widgets_of(ps) == post_order_all(cs, k)
            &&& styled(ps, sheet)
        },
    decreases cs, cs.len() - k,
{
    if k < cs.len() && n > 0 {
        let r = child_rect(layout, k, cx, cy, cw, ch, n);
        if fits(r.0) && fits(r.1) && r.0 >= 0 && r.1 >= 0 && r.2 >= 0 && r.3 >= 0 && fits(r.2) && fits(
            r.3,
        ) {
            law_layout_places_every_widget(cs[k], sheet, r.0 as u32, r.1 as u32, r.2 as u32, r.3 as u32);
            lemma_children_places_every_widget(cs, k + 1, layout, sheet, cx, cy, cw, ch, n);
            if let Some(ps) = layout_spec(cs[k], sheet, r.0 as u32, r.1 as u32, r.2 as u32, r.3 as u32) {
                if let Some(rest) = layout_children(cs, k + 1, layout, sheet, cx, cy, cw, ch, n) {
                    assert(widgets_of(ps + rest) =~= widgets_of(ps) + widgets_of(rest));
                    assert forall|i: int| 0 <= i < (ps + rest).len() implies #[trigger] (ps + rest)[i].style
                        == widget_style(sheet, (ps + rest)[i].widget) by {
                        if i < ps.len() {
                            assert((ps + rest)[i] == ps[i]);
                        } else {
                            assert((ps + rest)[i] == rest[i - ps.len()]);
                        }
                    }
                }
            }
        }
    }
}

/// Where in the placed widgets of a container's children the root of child
/// `k` sits: after the subtrees of the children before it and its own.
pub open spec fn child_root_index(cs: Seq<WidgetModel>, k: int) -> int {
    nodes_count(cs, 0) - nodes_count(cs, k + 1) - 1
}

proof fn lemma_node_count_pos(w: WidgetModel)
    ensures
        node_count(w) >= 1,
    decreases w, 0int,
{
    if let WidgetModel::Container { children, .. } = w {
        lemma_nodes_count_pos(children, 0);
    }
}

proof fn lemma_nodes_count_pos(cs: Seq<WidgetModel>, k: int)
    ensures
        nodes_count(cs, k) >= 0,
        0 <= k < cs.len() ==> node_count(cs[k]) >= 1,
    decreases cs, cs.len() - k,
{
    if 0 <= k < cs.len() {
        lemma_node_count_pos(cs[k]);
        lemma_nodes_count_pos(cs, k + 1);
    }
}

proof fn lemma_child_slots(
    cs: Seq<WidgetModel>,
    j: int,
    k: int,
    layout: Layout,
    sheet: Map<Seq<char>, Style>,
    cx: u32,
    cy: u32,
    cw: u32,
    ch: u32,
    n: int,
)
    requires
        0 <= j <= k < cs.len(),
        n > 0,
    ensures
        layout_children(cs, j, layout, sheet, cx, cy, cw, ch, n) matches Some(ps) ==> {
            let i = nodes_count(cs, j) - nodes_count(cs, k + 1) - 1;
            let r = child_rect(layout, k, cx, cy, cw, ch, n);
            &&& 0 <= i < ps.len()
            &&& ps[i].widget == cs[k]
            &&& ps[i].rect == (r.0 as u32, r.1 as u32, r.2 as u32, r.3 as u32)
        },
    decreases cs.len() - j,
{
    let r = child_rect(layout, j, cx, cy, cw, ch, n);
    if let Some(ps) = layout_children(cs, j, layout, sheet, cx, cy, cw, ch, n) {
        let cps = layout_spec(cs[j], sheet, r.0 as u32, r.1 as u32, r.2 as u32, r.3 as u32)->0;
        let rest = layout_children(cs, j + 1, layout, sheet, cx, cy, cw, ch, n)->0;
        law_layout_places_every_widget(cs[j], sheet, r.0 as u32, r.1 as u32, r.2 as u32, r.3 as u32);
        lemma_children_places_every_widget(cs, j + 1, layout, sheet, cx, cy, cw, ch, n);
        lemma_nodes_count_pos(cs, j + 1);
        lemma_nodes_count_pos(cs, k + 1);
        assert(ps == cps + rest);
        if j < k {
            lemma_child_slots(cs, j + 1, k, layout, sheet, cx, cy, cw, ch, n);
            lemma_nodes_count_mono(cs, j + 1, k + 1);
        }
    }
}

proof fn lemma_nodes_count_mono(cs: Seq<WidgetModel>, a: int, b: int)
    requires
        0 <= a <= b,
    ensures
        nodes_count(cs, a) >= nodes_count(cs, b),
    decreases b - a,
{
    if a < b {
        lemma_nodes_count_mono(cs, a + 1, b);
        lemma_nodes_count_pos(cs, a);
    }
}

/// The content box of a widget with style `st` in the rectangle
/// `(x, y, wd, h)`: shrunk by the margin, then the padding, on every side.
pub open spec fn content_box(st: Style, x: int, y: int, wd: int, h: int) -> (int, int, int, int) {
    let m = st.margin as int;
    let p = st.padding as int;
    (x + m + p, y + m + p, sat_sub(sat_sub(wd, 2 * m), 2 * p), sat_sub(sat_sub(h, 2 * m), 2 * p))
}

/// The children of a container get equal slots of its content box, one after
/// another along its axis and in child order: child `k` of `n` is placed at
/// `(cx + k * (cw / n), cy, cw / n, ch)` in a horizontal box and at
/// `(cx, cy + k * (ch / n), cw, ch / n)` in a vertical one.
pub proof fn law_child_slots(
    layout: Layout,
    children: Seq<WidgetModel>,
    sheet: Map<Seq<char>, Style>,
    x: u32,
    y: u32,
    wd: u32,
    h: u32,
    k: int,
)
    requires
        0 <= k < children.len(),
    ensures
        ({
            let w = WidgetModel::Container { layout, children };
            let (cx, cy, cw, ch) = content_box(widget_style(sheet, w), x as int, y as int, wd as int, h as int);
            let n = children.len() as int;
            let slot = match layout {
                Layout::HBox => (cx + k * (cw / n), cy, cw / n, ch),
                Layout::VBox => (cx, cy + k * (ch / n), cw, ch / n),
            };
            layout_spec(w, sheet, x, y, wd, h) matches Some(ps) ==> {
                let i = child_root_index(children, k);
                &&& 0 <= i < ps.len()
                &&& ps[i].widget == children[k]
                &&& ps[i].rect == (slot.0 as u32, slot.1 as u32, slot.2 as u32, slot.3 as u32)
            }
        }),
{
    let w = WidgetModel::Container { layout, children };
    let st = widget_style(sheet, w);
    let m = st.margin as int;
    let p = st.padding as int;
    if layout_spec(w, sheet, x, y, wd, h) is Some {
        let cx = (x + m + p) as u32;
        let cy = (y + m + p) as u32;
        let cw = sat_sub(sat_sub(wd as int, 2 * m), 2 * p) as u32;
        let ch = sat_sub(sat_sub(h as int, 2 * m), 2 * p) as u32;
        let n = children.len() as int;
        lemma_child_slots(children, 0, k, layout, sheet, cx, cy, cw, ch, n);
    }
}

/// Whether the rectangle `r`, unless it is empty, lies within `(x, y, wd, h)`.
pub open spec fn inside(r: (u32, u32, u32, u32), x: int, y: int, wd: int, h: int) -> bool {
    r.2 > 0 && r.3 > 0 ==> x <= r.0 && r.0 + r.2 <= x + wd && y <= r.1 && r.1 + r.3 <= y + h
}

/// Every widget that layout gives a non-empty rectangle lies within the
/// rectangle the tree was laid out in; with `layout`, within
/// `(0, 0, width, height)`.
pub proof fn law_layout_inside(
    w: WidgetModel,
    sheet: Map<Seq<char>, Style>,
    x: u32,
    y: u32,
    wd: u32,
    h: u32,
)
    ensures
        layout_spec(w, sheet, x, y, wd, h) matches Some(ps) ==> forall|i: int|
            0 <= i < ps.len() ==> inside(#[trigger] ps[i].rect, x as int, y as int, wd as int, h as int),
    decreases w, 0int,
{
    if let WidgetModel::Container { layout, children } = w {
        let st = widget_style(sheet, w);
        let m = st.margin as int;
        let p = st.padding as int;
        if let Some(ps) = layout_spec(w, sheet, x, y, wd, h) {
            let cx = (x + m + p) as u32;
            let cy = (y + m + p) as u32;
            let cw = sat_sub(sat_sub(wd as int, 2 * m), 2 * p) as u32;
            let ch = sat_sub(sat_sub(h as int, 2 * m), 2 * p) as u32;
            let n = if children.len() == 0 {
                1
            } else {
                children.len() as int
            };
            lemma_children_inside(children, 0, layout, sheet, cx, cy, cw, ch, n);
            let cps = layout_children(children, 0, layout, sheet, cx, cy, cw, ch, n)->0;
            assert forall|i: int| 0 <= i < ps.len() implies inside(
                #[trigger] ps[i].rect,
                x as int,
                y as int,
                wd as int,
                h as int,
            ) by {
                if i < cps.len() {
                    assert(ps[i] == cps[i]);
                    assert(inside(cps[i].rect, cx as int, cy as int, cw as int, ch as int));
                }
            }
        }
    }
}

proof fn lemma_children_inside(
    cs: Seq<WidgetModel>,
    k: int,
    layout: Layout,
    sheet: Map<Seq<char>, Style>,
    cx: u32,
    cy: u32,
    cw: u32,
    ch: u32,
    n: int,
)
    requires
        0 <= k,
        n > 0,
        cs.len() <= n,
    ensures
        layout_children(cs, k, layout, sheet, cx, cy, cw, ch, n) matches Some(ps) ==> forall|i: int|
            0 <= i < ps.len() ==> inside(#[trigger] ps[i].rect, cx as int, cy as int, cw as int, ch as int),
    decreases cs, cs.len() - k,
{
    if k < cs.len() {
        let r = child_rect(layout, k, cx, cy, cw, ch, n);
        if let Some(ps) = layout_children(cs, k, layout, sheet, cx, cy, cw, ch, n) {
            let (rx, ry, rw, rh) = (r.0 as u32, r.1 as u32, r.2 as u32, r.3 as u32);
            law_layout_inside(cs[k], sheet, rx, ry, rw, rh);
            lemma_children_inside(cs, k + 1, layout, sheet, cx, cy, cw, ch, n);
            lemma_share(k, cw as int, n);
            lemma_share(k, ch as int, n);
            let cps = layout_spec(cs[k], sheet, rx, ry, rw, rh)->0;
            let rest = layout_children(cs, k + 1, layout, sheet, cx, cy, cw, ch, n)->0;
            assert forall|i: int| 0 <= i < ps.len() implies inside(
                #[trigger] ps[i].rect,
                cx as int,
                cy as int,
                cw as int,
                ch as int,
            ) by {
                if i < cps.len() {
                    assert(ps[i] == cps[i]);
                    assert(inside(cps[i].rect, rx as int, ry as int, rw as int, rh as int));
                } else {
                    assert(ps[i] == rest[i - cps.len()]);
                }
            }
        }
    }
}

/// How many containers deep the tree `w` goes: 0 for a label or button.
pub open spec fn tree_depth(w: WidgetModel) -> int
    decreases w, 0int,
{
    match w {
        WidgetModel::Container { children, .. } => 1 + depth_of_all(children, 0),
        _ => 0,
    }
}

/// The largest depth among the trees `cs[k..]`, 0 when there are none.
pub open spec fn depth_of_all(cs: Seq<WidgetModel>, k: int) -> int
    decreases cs, cs.len() - k,
{
    if k < 0 || k >= cs.len() {
        0
    } else {
        let d = tree_depth(cs[k]);
        let rest = depth_of_all(cs, k + 1);
        if d > rest {
            d
        } else {
            rest
        }
    }
}

/// Whether no container of the tree `w` has more children than a `u32` counts.
pub open spec fn fanout_fits(w: WidgetModel) -> bool
    decreases w, 0int,
{
    match w {
        WidgetModel::Container { children, .. } => children.len() <= u32::MAX && forall|i: int|
            0 <= i < children.len() ==> fanout_fits(#[trigger] children[i]),
        _ => true,
    }
}

proof fn lemma_depth_of_all(cs: Seq<WidgetModel>, j: int, k: int)
    requires
        0 <= j <= k < cs.len(),
    ensures
        0 <= tree_depth(cs[k]) <= depth_of_all(cs, j),
    decreases cs, k - j,
{
    lemma_depth_nonneg(cs[k]);
    if j < k {
        lemma_depth_of_all(cs, j + 1, k);
    }
}

proof fn lemma_depth_nonneg(w: WidgetModel)
    ensures
        tree_depth(w) >= 0,
    decreases w, 0int,
{
    if let WidgetModel::Container { children, .. } = w {
        lemma_depth_all_nonneg(children, 0);
    }
}

proof fn lemma_depth_all_nonneg(cs: Seq<WidgetModel>, k: int)
    ensures
        depth_of_all(cs, k) >= 0,
    decreases cs, cs.len() - k,
{
    if 0 <= k < cs.len() {
        lemma_depth_all_nonneg(cs, k + 1);
    }
}

/// Whether every entry of the sheet keeps its margin to `bm` and its padding to `bp`.
pub open spec fn spacing_bounded(sheet: Map<Seq<char>, Style>, bm: int, bp: int) -> bool {
    forall|k: Seq<char>| #[trigger] sheet.contains_key(k) ==> sheet[k].margin <= bm && sheet[k].padding <= bp
}

proof fn lemma_style_bounded(sheet: Map<Seq<char>, Style>, w: WidgetModel, bm: int, bp: int)
    requires
        spacing_bounded(sheet, bm, bp),
        2 <= bm,
        4 <= bp,
    ensures
        widget_style(sheet, w).margin <= bm,
        widget_style(sheet, w).padding <= bp,
{
    let sels = seq![kind_name(w), "window"@];
    assert forall|k: Seq<char>| #[trigger] sheet.contains_key(k) implies field(sheet[k], 5) <= bm by {}
    assert forall|k: Seq<char>| #[trigger] sheet.contains_key(k) implies field(sheet[k], 4) <= bp by {}
    law_resolve_bounded(sheet, sels, 5, bm);
    law_resolve_bounded(sheet, sels, 4, bp);
}

/// Layout succeeds, with no coordinate leaving the `u32` range, when every
/// entry of the sheet keeps its margin to `bm` and its padding to `bp` (at
/// least the defaults 2 and 4), no container has more than `u32::MAX`
/// children, and the rectangle leaves room for the insets of every level:
/// `x + wd` and `y + h` plus `(depth + 1) * (bm + bp)` stay within `u32`.
pub proof fn law_layout_fits(
    w: WidgetModel,
    sheet: Map<Seq<char>, Style>,
    x: u32,
    y: u32,
    wd: u32,
    h: u32,
    bm: int,
    bp: int,
)
    requires
        spacing_bounded(sheet, bm, bp),
        2 <= bm,
        4 <= bp,
        2 * (bm + bp) <= u32::MAX,
        fanout_fits(w),
        x + wd + (tree_depth(w) + 1) * (bm + bp) <= u32::MAX,
        y + h + (tree_depth(w) + 1) * (bm + bp) <= u32::MAX,
    ensures
        layout_spec(w, sheet, x, y, wd, h) is Some,
    decreases w, 0int,
{
    lemma_depth_nonneg(w);
    if let WidgetModel::Container { layout, children } = w {
        let st = widget_style(sheet, w);
        lemma_style_bounded(sheet, w, bm, bp);
        let m = st.margin as int;
        let p = st.padding as int;
        let big = bm + bp;
        let d = tree_depth(w);
        assert(d * big >= 0) by (nonlinear_arith)
            requires
                d >= 0,
                big >= 0,
        ;
        assert((d + 1) * big == d * big + big) by (nonlinear_arith);
        let cx = (x + m + p) as u32;
        let cy = (y + m + p) as u32;
        let cw = sat_sub(sat_sub(wd as int, 2 * m), 2 * p) as u32;
        let ch = sat_sub(sat_sub(h as int, 2 * m), 2 * p) as u32;
        let n = if children.len() == 0 {
            1
        } else {
            children.len() as int
        };
        assert(cx + cw <= x + wd + big);
        assert(cy + ch <= y + h + big);
        lemma_children_fit(children, 0, layout, sheet, cx, cy, cw, ch, n, bm, bp, d);
    }
}

proof fn lemma_children_fit(
    cs: Seq<WidgetModel>,
    k: int,
    layout: Layout,
    sheet: Map<Seq<char>, Style>,
    cx: u32,
    cy: u32,
    cw: u32,
    ch: u32,
    n: int,
    bm: int,
    bp: int,
    d: int,
)
    requires
        0 <= k,
        n > 0,
        cs.len() <= n,
        spacing_bounded(sheet, bm, bp),
        2 <= bm,
        4 <= bp,
        2 * (bm + bp) <= u32::MAX,
        forall|i: int| 0 <= i < cs.len() ==> fanout_fits(#[trigger] cs[i]),
        d == 1 + depth_of_all(cs, 0),
        cx + cw + d * (bm + bp) <= u32::MAX,
        cy + ch + d * (bm + bp) <= u32::MAX,
    ensures
        layout_children(cs, k, layout, sheet, cx, cy, cw, ch, n) is Some,
    decreases cs, cs.len() - k,
{
    if k < cs.len() {
        let r = child_rect(layout, k, cx, cy, cw, ch, n);
        lemma_share(k, cw as int, n);
        lemma_share(k, ch as int, n);
        lemma_depth_of_all(cs, 0, k);
        let big = bm + bp;
        let dc = tree_depth(cs[k]);
        assert((dc + 1) * big <= d * big) by (nonlinear_arith)
            requires
                dc + 1 <= d,
                big >= 0,
        ;
        assert(r.0 + r.2 <= cx + cw);
        assert(r.1 + r.3 <= cy + ch);
        law_layout_fits(cs[k], sheet, r.0 as u32, r.1 as u32, r.2 as u32, r.3 as u32, bm, bp);
        lemma_children_fit(cs, k + 1, layout, sheet, cx, cy, cw, ch, n, bm, bp, d);
    }
}

/// Field `f` as the entries of `window`, of the widget's kind (`kind`, as
/// written in a selector) and of `*` decide it, in that order of precedence:
/// the first of them that the sheet has and that sets the field gives its
/// value; the default style gives it when none does.
pub open spec fn cascaded_field(sheet: Map<Seq<char>, Style>, kind: Seq<char>, f: int) -> int {
    let win = spec_canonical("window"@);
    let own = spec_canonical(kind);
    let star = seq!['*'];
    if sheet.contains_key(win) && is_set(sheet[win], f) {
        field(sheet[win], f)
    } else if sheet.contains_key(own) && is_set(sheet[own], f) {
        field(sheet[own], f)
    } else if sheet.contains_key(star) && is_set(sheet[star], f) {
        field(sheet[star], f)
    } else {
        field(default_style(), f)
    }
}

proof fn lemma_widget_style_fields(sheet: Map<Seq<char>, Style>, w: WidgetModel)
    ensures
        forall|f: int|
            0 <= f <= 6 ==> #[trigger] field(widget_style(sheet, w), f) == cascaded_field(
                sheet,
                kind_name(w),
                f,
            ),
{
    let sels = seq![kind_name(w), "window"@];
    law_resolve_cascade(sheet, sels);
    let one = seq![kind_name(w)];
    assert(sels.drop_last() =~= one);
    assert(one.drop_last() =~= Seq::<Seq<char>>::empty());
    let e0 = selector_entries(sheet, Seq::<Seq<char>>::empty());
    let e1 = selector_entries(sheet, one);
    let e2 = selector_entries(sheet, sels);
    let star: Seq<Style> = if sheet.contains_key(seq!['*']) {
        seq![sheet[seq!['*']]]
    } else {
        Seq::empty()
    };
    let es = present_entries(sheet, sels);
    assert(es == star + e2);
    assert forall|f: int| 0 <= f <= 6 implies #[trigger] field(widget_style(sheet, w), f)
        == cascaded_field(sheet, kind_name(w), f) by {
        let win = spec_canonical("window"@);
        let own = spec_canonical(kind_name(w));
        let s1 = star + e1;
        assert(e0.len() == 0);
        assert(field(widget_style(sheet, w), f) == cascade(es, f));
        assert(e1 == (if sheet.contains_key(own) { e0.push(sheet[own]) } else { e0 }));
        assert(e2 == (if sheet.contains_key(win) { e1.push(sheet[win]) } else { e1 }));
        let c0 = field(default_style(), f);
        let cs = if sheet.contains_key(seq!['*']) && is_set(sheet[seq!['*']], f) {
            field(sheet[seq!['*']], f)
        } else {
            c0
        };
        if sheet.contains_key(seq!['*']) {
            assert(star.drop_last() =~= Seq::<Style>::empty());
            assert(star.last() == sheet[seq!['*']]);
            assert(cascade(star.drop_last(), f) == c0);
        } else {
            assert(star =~= Seq::<Style>::empty());
        }
        assert(cascade(star, f) == cs);
        let co = if sheet.contains_key(own) && is_set(sheet[own], f) {
            field(sheet[own], f)
        } else {
            cs
        };
        if sheet.contains_key(own) {
            assert(s1 =~= star.push(sheet[own]));
            assert(s1.drop_last() =~= star);
        } else {
            assert(s1 =~= star);
        }
        assert(cascade(s1, f) == co);
        if sheet.contains_key(win) {
            assert(es =~= s1.push(sheet[win]));
            assert(es.drop_last() =~= s1);
        } else {
            assert(es =~= s1);
        }
    }
}

/// Every placed widget gets its style from the cascade over the entries of
/// `window`, of its own kind and of `*`: a field that the `window` entry sets
/// is that field of every widget, whatever its kind.
pub proof fn law_window_entry_styles_every_widget(
    w: WidgetModel,
    sheet: Map<Seq<char>, Style>,
    x: u32,
    y: u32,
    wd: u32,
    h: u32,
)
    ensures
        layout_spec(w, sheet, x, y, wd, h) matches Some(ps) ==> forall|i: int, f: int|
            0 <= i < ps.len() && 0 <= f <= 6 ==> #[trigger] field(ps[i].style, f) == cascaded_field(
                sheet,
                kind_name(ps[i].widget),
                f,
            ),
{
    law_layout_places_every_widget(w, sheet, x, y, wd, h);
    if let Some(ps) = layout_spec(w, sheet, x, y, wd, h) {
        assert forall|i: int, f: int| 0 <= i < ps.len() && 0 <= f <= 6 implies #[trigger] field(
            ps[i].style,
            f,
        ) == cascaded_field(sheet, kind_name(ps[i].widget), f) by {
            assert(ps[i].style == widget_style(sheet, ps[i].widget));
            lemma_widget_style_fields(sheet, ps[i].widget);
        }
    }
}

/// The signal a widget sends when clicked, if it is a button with one.
pub open spec fn signal_of(w: WidgetModel) -> Option<Seq<char>> {
    match w {
        WidgetModel::Button { signal, .. } => signal,
        _ => None,
    }
}

/// Whether the point `(x, y)` lies in the rectangle `r`.
pub open spec fn in_rect(r: (u32, u32, u32, u32), x: int, y: int) -> bool {
    r.0 <= x < r.0 + r.2 && r.1 <= y < r.1 + r.3
}

/// Whether a click at `(x, y)` can land on the placed widget `p`: a button
/// with a signal whose rectangle holds the point.
pub open spec fn is_target(p: PlacedModel, x: int, y: int) -> bool {
    signal_of(p.widget) is Some && in_rect(p.rect, x, y)
}

/// The area of a placed widget's rectangle.
pub open spec fn area(p: PlacedModel) -> int {
    p.rect.2 * p.rect.3
}

/// Among the first `n` placed widgets, the position of the target of a click at
/// `(x, y)` with the smallest area, the earliest of them on a tie.
pub open spec fn best_target(ps: Seq<PlacedModel>, n: int, x: int, y: int) -> Option<int>
    decreases n,
{
    if n <= 0 {
        None
    } else {
        let prev = best_target(ps, n - 1, x, y);
        if is_target(ps[n - 1], x, y) && (prev is None || area(ps[n - 1]) < area(ps[prev->0])) {
            Some(n - 1)
        } else {
            prev
        }
    }
}

/// The best target is a target, no target is smaller, and none before it is as small.
pub proof fn lemma_best_target(ps: Seq<PlacedModel>, n: int, x: int, y: int)
    requires
        0 <= n <= ps.len(),
    ensures
        best_target(ps, n, x, y) is None <==> forall|i: int| 0 <= i < n ==> !is_target(
            #[trigger] ps[i],
            x,
            y,
        ),
        best_target(ps, n, x, y) matches Some(b) ==> {
            &&& 0 <= b < n
            &&& is_target(ps[b], x, y)
            &&& forall|i: int| 0 <= i < n && is_target(#[trigger] ps[i], x, y) ==> area(ps[b]) <= area(ps[i])
            &&& forall|i: int| 0 <= i < b && is_target(#[trigger] ps[i], x, y) ==> area(ps[b]) < area(ps[i])
        },
    decreases n,
{
    if n > 0 {
        lemma_best_target(ps, n - 1, x, y);
    }
}

/// Given a click position, return the signal name of the deepest button hit.
pub fn hit_test(placed: &[Placed], x: u32, y: u32) -> (r: Option<String>)
    ensures
        ({
            let ps = placed_models(placed@);
            match best_target(ps, ps.len() as int, x as int, y as int) {
                Some(b) => r matches Some(s) && s@ == signal_of(ps[b].widget)->0,
                None => r is None,
            }
        }),
        r is None <==> forall|i: int|
            0 <= i < placed@.len() ==> !is_target(#[trigger] placed@[i]@, x as int, y as int),
        r matches Some(s) ==> exists|i: int|
            0 <= i < placed@.len() && is_target(#[trigger] placed@[i]@, x as int, y as int)
                && signal_of(placed@[i]@.widget) == Some(s@) && forall|j: int|
                0 <= j < placed@.len() && is_target(#[trigger] placed@[j]@, x as int, y as int)
                    ==> area(placed@[i]@) <= area(placed@[j]@),
{
    let ghost ps = placed_models(placed@);
    // Iterate over placed widgets; prefer the smallest (deepest) hit button.
    let mut best: Option<(u64, usize)> = None;
    let mut i: usize = 0;
    while i < placed.len()
        invariant
            i <= placed@.len(),
            ps == placed_models(placed@),
            ps.len() == placed@.len(),
            match best {
                Some((a, b)) => best_target(ps, i as int, x as int, y as int) == Some(b as int)
                    && a == area(ps[b as int]) && b < i,
                None => best_target(ps, i as int, x as int, y as int) is None,
            },
        decreases placed@.len() - i,
    {
        let item = &placed[i];
        let (rx, ry, rw, rh) = item.rect;
        assert(ps[i as int] == item@);
        if let Widget::Button { signal, .. } = &item.widget {
            if signal.is_some() {
                let inside = (x as u64) >= (rx as u64) && (x as u64) < (rx as u64) + (rw as u64)
                    && (y as u64) >= (ry as u64) && (y as u64) < (ry as u64) + (rh as u64);
                if inside {
                    assert((rw as u64) * (rh as u64) <= 0xffff_ffff_ffff_ffffu64) by (nonlinear_arith)
                        requires
                            rw <= 0xffff_ffffu32,
                            rh <= 0xffff_ffffu32,
                    ;
                    let area_here = (rw as u64) * (rh as u64);
                    match best {
                        Some((ba, _)) => {
                            if area_here < ba {
                                best = Some((area_here, i));
                            }
                        },
                        None => {
                            best = Some((area_here, i));
                        },
                    }
                }
            }
        }
        i = i + 1;
    }
    proof {
        lemma_best_target(ps, ps.len() as int, x as int, y as int);
        assert forall|j: int| 0 <= j < placed@.len() implies #[trigger] placed@[j]@ == ps[j] by {}
    }
    match best {
        Some((_, b)) => match &placed[b].widget {
            Widget::Button { signal: Some(s), .. } => Some(s.clone()),
            _ => None,
        },
        None => None,
    }
}

} // verus!
