pub mod highlight;
pub mod layout;
pub mod pattern;
pub mod process;
pub mod style;
pub mod tree;
pub mod treetop_app;
