use vstd::prelude::*;

pub mod text;
pub mod encoding;
pub mod string_map;
pub mod oauth;
pub mod json;
pub mod credentials;
pub mod catalog;
pub mod completion;
pub mod picker;
pub mod read_line;

verus! {
}
