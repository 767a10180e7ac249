pub mod properties;

pub use properties::{Align, Display, Flex, FlexDir, Grid, Justify, Rgba, Style};
