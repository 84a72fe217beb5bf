//! The widget tree and its mathematical model.
use vstd::prelude::*;

verus! {

/// How a container arranges its children.
#[derive(Clone, Copy, PartialEq, Eq, Structural, Debug)]
pub enum Layout {
    HBox,
    VBox,
}

/// A node of the widget tree.
pub enum Widget {
    Container { layout: Layout, children: Vec<Widget> },
    Label { text: String },
    Button { text: String, signal: Option<String> },
}

/// What a widget is, with its texts as character sequences.
pub enum WidgetModel {
    Container { layout: Layout, children: Seq<WidgetModel> },
    Label { text: Seq<char> },
    Button { text: Seq<char>, signal: Option<Seq<char>> },
}

/// The characters of an optional string.
pub open spec fn opt_string(o: Option<String>) -> Option<Seq<char>> {
    match o {
        Some(s) => Some(s@),
        None => None,
    }
}

/// The model of a widget.
pub open spec fn widget_model(w: Widget) -> WidgetModel
    decreases w, 0int,
{
    match w {
        Widget::Container { layout, children } => {
            proof {
                assert(decreases_to!(w => children));
                assert(decreases_to!(children => children@));
            }
            WidgetModel::Container { layout, children: widgets_model(children@) }
        },
        Widget::Label { text } => WidgetModel::Label { text: text@ },
        Widget::Button { text, signal } => WidgetModel::Button {
            text: text@,
            signal: opt_string(signal),
        },
    }
}

/// The models of a sequence of widgets.
pub open spec fn widgets_model(ws: Seq<Widget>) -> Seq<WidgetModel>
    decreases ws, ws.len(),
{
    if ws.len() == 0 {
        Seq::empty()
    } else {
        widgets_model(ws.drop_last()).push(widget_model(ws.last()))
    }
}

pub proof fn lemma_widgets_model(ws: Seq<Widget>)
    ensures
        widgets_model(ws).len() == ws.len(),
        forall|i: int| 0 <= i < ws.len() ==> #[trigger] widgets_model(ws)[i] == widget_model(ws[i]),
    decreases ws.len(),
{
    if ws.len() > 0 {
        lemma_widgets_model(ws.drop_last());
    }
}

impl View for Widget {
    type V = WidgetModel;

    open spec fn view(&self) -> WidgetModel {
        widget_model(*self)
    }
}

/// The selector name of a widget's kind.
pub open spec fn kind_name(w: WidgetModel) -> Seq<char> {
    match w {
        WidgetModel::Container { layout, .. } => match layout {
            Layout::HBox => "hbox"@,
            Layout::VBox => "vbox"@,
        },
        WidgetModel::Label { .. } => "label"@,
        WidgetModel::Button { .. } => "button"@,
    }
}

fn copy_string(s: &String) -> (r: String)
    ensures
        r@ == s@,
{
    s.clone()
}

fn copy_opt_string(s: &Option<String>) -> (r: Option<String>)
    ensures
        opt_string(r) == opt_string(*s),
{
    match s {
        Some(t) => Some(t.clone()),
        None => None,
    }
}

impl Widget {
    /// The selector name of this widget's kind.
    pub fn kind(&self) -> (k: &'static str)
        ensures
            k@ == kind_name(self@),
    {
        match self {
            Widget::Container { layout, .. } => match layout {
                Layout::HBox => "hbox",
                Layout::VBox => "vbox",
            },
            Widget::Label { .. } => "label",
            Widget::Button { .. } => "button",
        }
    }

    /// The selectors a widget's style is resolved from: its kind, then `window`.
    pub fn selectors(&self) -> (r: (&'static str, &'static str))
        ensures
            r.0@ == kind_name(self@),
            r.1@ == "window"@,
    {
        (self.kind(), "window")
    }
}

impl Clone for Widget {
    fn clone(&self) -> (r: Self)
        ensures
            r@ == self@,
        decreases self,
    {
        match self {
            Widget::Container { layout, children } => {
                let mut out: Vec<Widget> = Vec::new();
                let mut i: usize = 0;
                proof {
                    lemma_widgets_model(children@);
                }
                while i < children.len()
                    invariant
                        *self == (Widget::Container { layout: *layout, children: *children }),
                        i <= children@.len(),
                        out@.len() == i,
                        widgets_model(children@).len() == children@.len(),
                        forall|j: int|
                            0 <= j < children@.len() ==> #[trigger] widgets_model(children@)[j]
                                == widget_model(children@[j]),
                        forall|j: int|
                            0 <= j < i ==> #[trigger] widget_model(out@[j]) == widget_model(
                                children@[j],
                            ),
                    decreases children@.len() - i,
                {
                    proof {
                        assert(decreases_to!(*self => (*self)->children));
                        assert((*self)->children == *children);
                        assert(decreases_to!(*children => children@));
                        assert(decreases_to!(children@ => children@[i as int]));
                        assert(decreases_to!(*self => children@[i as int]));
                    }
                    let c = children[i].clone();
                    out.push(c);
                    i = i + 1;
                }
                proof {
                    lemma_widgets_model(out@);
                    assert(widgets_model(out@) =~= widgets_model(children@));
                }
                Widget::Container { layout: *layout, children: out }
            },
            Widget::Label { text } => Widget::Label { text: copy_string(text) },
            Widget::Button { text, signal } => Widget::Button {
                text: copy_string(text),
                signal: copy_opt_string(signal),
            },
        }
    }
}

} // verus!
