//! The interactive session: the line under edit, and what each key does.

pub mod input_field;
pub mod session;
