//! A small document object model for XML: items, elements and their attributes.

pub mod attributes;
pub mod element;
pub mod emptyelement;
pub mod error;
pub mod item;
pub mod laws;
pub mod reader;
pub mod render;
pub mod token;
pub mod traverse;
pub mod tree;
pub mod util;

pub use crate::util::{parse, parse_trimmed, stringify};
pub use attributes::Attributes;
pub use element::Element;
pub use emptyelement::EmptyElement;
pub use error::{XmlError, XmlErrorView};
pub use item::{ElementView, Item, ItemView};
pub use token::{Token, TokenView};
pub use tree::from_events;
