use crate::attributes::Attributes;
use crate::item::{element_view, ElementView, Item};
use crate::render::{element_text, end_tag_text, start_tag_text};
use crate::util::stringify;
use vstd::prelude::*;
use vstd::string::*;

verus! {

/// Element `<tag attr="value">...</tag>` or `<tag attr="value" />`.
#[derive(Debug)]
pub struct Element {
    /// Tag name of the element.
    pub name: String,
    /// Items between the start and end tags of the element.
    pub children: Vec<Item>,
    /// Attributes of the element.
    pub attributes: Attributes,
    /// Whether to self-close if childless.
    pub self_closing: bool,
}

impl View for Element {
    type V = ElementView;

    open spec fn view(&self) -> ElementView {
        element_view(*self)
    }
}

impl Element {
    /// An element of the given name, with no attribute and no child, written
    /// with a start tag and an end tag.
    pub fn new(name: String) -> (r: Element)
        ensures
            r.name@ == name@,
            r.children@.len() == 0,
            r.attributes@ == Map::<Seq<char>, Seq<char>>::empty(),
            r.attributes.listing().len() == 0,
            !r.self_closing,
    {
        Element { name, children: Vec::new(), attributes: Attributes::new(), self_closing: false }
    }

    /// The element as text.
    pub fn to_string(&self) -> (r: String)
        ensures
            r@ == element_text(*self),
        decreases self,
    {
        if self.self_closing {
            let mut text = String::from_str("<");
            text.append(self.name.as_str());
            text.append(self.attributes.to_string().as_str());
            text.append(" />");
            text
        } else {
            let mut text = get_start_tag(self);
            text.append(stringify(&self.children).as_str());
            text.append(get_end_tag(self).as_str());
            text
        }
    }
}

/// The start tag of an element.
pub fn get_start_tag(element: &Element) -> (r: String)
    ensures
        r@ == start_tag_text(element.name@, element.attributes.listing()),
{
    let mut text = String::from_str("<");
    text.append(element.name.as_str());
    text.append(element.attributes.to_string().as_str());
    text.append(">");
    text
}

/// The end tag of an element.
pub fn get_end_tag(element: &Element) -> (r: String)
    ensures
        r@ == end_tag_text(element.name@),
{
    let mut text = String::from_str("</");
    text.append(element.name.as_str());
    text.append(">");
    text
}

} // verus!
