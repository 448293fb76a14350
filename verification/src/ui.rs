//! Logic behind the user interface's widgets.

pub mod text;
pub mod info;
pub mod instruments;
pub mod instruments_tab;
