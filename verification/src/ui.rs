//! UI subsystem: parsing the .ulib markup, building a widget tree,
//! laying out and rendering it into a pixel buffer, and hit-testing clicks.
pub mod layout;
pub mod markup;
pub mod render;
pub mod widget;

pub use self::layout::{hit_test, layout, try_layout, Placed, PlacedModel};
pub use self::markup::{parse_module, Module, ModuleModel};
pub use self::render::{render, rgb_from_u32};
pub use self::widget::{Layout, Widget, WidgetModel};
