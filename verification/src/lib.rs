//! An in-memory XML document model: a mutable tree held in a
//! generation-checked arena, built by parsing, edited through a handle-based
//! API, canonicalized into a deterministic form, and serialized back to text
//! with configurable formatting.

mod arena;
pub mod canon;
pub mod display;
mod attrs;
mod document;
mod element;
pub mod key;
mod qname;
mod reader;
mod text;
mod value;

pub use canon::{ord_elem, ord_node};
pub use display::{Config, EntityMode};
pub use document::{Declaration, DocError, Document};
pub use reader::ReadError;
pub use element::{Element, NewElement};
pub use key::Node;
pub use qname::{is_valid_qname, Error, QName};
