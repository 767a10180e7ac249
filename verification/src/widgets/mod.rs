pub mod base;
pub mod build_context;
pub mod button;
pub mod checkbox;
pub mod column;
pub mod element;
pub mod image;
pub mod prim_id;
pub mod scrollable;
pub mod text;
pub mod text_input;

pub use base::Widget;
pub use build_context::BuildCtx;
pub use button::Button;
pub use checkbox::Checkbox;
pub use column::Column;
pub use element::Element;
pub use image::{Image, ImageFit};
pub use prim_id::PrimId;
pub use scrollable::Scrollable;
pub use text::Text;
pub use text_input::TextInput;
