use crate::attributes::Attributes;
use crate::element::Element;
use crate::render::empty_tag_text;
use vstd::prelude::*;
use vstd::string::*;

verus! {

/// Empty element `<tag attr="value" />`.
#[derive(Debug)]
pub struct EmptyElement {
    /// Tag name of the element.
    pub name: String,
    /// Attributes of the element.
    pub attributes: Attributes,
}

impl EmptyElement {
    /// An empty element of the given name, without attributes.
    pub fn new(name: String) -> (r: EmptyElement)
        ensures
            r.name@ == name@,
            r.attributes@ == Map::<Seq<char>, Seq<char>>::empty(),
            r.attributes.listing().len() == 0,
    {
        EmptyElement { name, attributes: Attributes::new() }
    }

    /// The element as text: its one tag.
    pub fn to_string(&self) -> (r: String)
        ensures
            r@ == empty_tag_text(self.name@, self.attributes.listing()),
    {
        get_empty_tag(self)
    }

}

impl TryFrom<Element> for EmptyElement {
    type Error = ();

    /// The empty element with the name and the attributes of `value`, which
    /// must have no children.
    fn try_from(value: Element) -> (r: Result<EmptyElement, ()>) {
        if value.children.len() == 0 {
            Ok(EmptyElement { name: value.name, attributes: value.attributes })
        } else {
            Err(())
        }
    }
}

impl vstd::std_specs::convert::TryFromSpecImpl<Element> for EmptyElement {
    open spec fn obeys_try_from_spec() -> bool {
        true
    }

    /// An element without children gives the empty element of its name and
    /// attributes; one with children gives none.
    open spec fn try_from_spec(value: Element) -> Result<EmptyElement, ()> {
        if value.children@.len() == 0 {
            Ok(EmptyElement { name: value.name, attributes: value.attributes })
        } else {
            Err(())
        }
    }
}

/// The tag of an empty element.
pub fn get_empty_tag(element: &EmptyElement) -> (r: String)
    ensures
        r@ == empty_tag_text(element.name@, element.attributes.listing()),
{
    let mut text = String::from_str("<");
    text.append(element.name.as_str());
    text.append(element.attributes.to_string().as_str());
    text.append(" />");
    text
}

} // verus!
