use crate::element::Element;
use crate::item::Item;
use vstd::prelude::*;

verus! {

/// One attribute as it is written in a tag: a space, the name, `="`, the
/// value and `"`.
pub open spec fn attribute_text(pair: (Seq<char>, Seq<char>)) -> Seq<char> {
    " "@ + pair.0 + "=\""@ + pair.1 + "\""@
}

/// The attributes of a tag as they are written, one after the other.
pub open spec fn attributes_text(pairs: Seq<(Seq<char>, Seq<char>)>) -> Seq<char>
    decreases pairs.len(),
{
    if pairs.len() == 0 {
        Seq::empty()
    } else {
        attributes_text(pairs.drop_last()) + attribute_text(pairs.last())
    }
}

/// The start tag `<name attr="value">`.
pub open spec fn start_tag_text(name: Seq<char>, pairs: Seq<(Seq<char>, Seq<char>)>) -> Seq<char> {
    "<"@ + name + attributes_text(pairs) + ">"@
}

/// The end tag `</name>`.
pub open spec fn end_tag_text(name: Seq<char>) -> Seq<char> {
    "</"@ + name + ">"@
}

/// The empty element tag `<name attr="value" />`.
pub open spec fn empty_tag_text(name: Seq<char>, pairs: Seq<(Seq<char>, Seq<char>)>) -> Seq<char> {
    "<"@ + name + attributes_text(pairs) + " />"@
}

/// An item as text.
pub open spec fn item_text(item: Item) -> Seq<char>
    decreases item,
{
    match item {
        Item::Element(e) => element_text(e),
        Item::Text(s) => s@,
        Item::Comment(s) => "<!--"@ + s@ + "-->"@,
        Item::DocType(s) => "<!DOCTYPE "@ + s@ + ">"@,
        Item::Decl(s) => "<?"@ + s@ + "?>"@,
        Item::CData(s) => "<![CDATA["@ + s@ + "]]>"@,
        Item::PI(s) => "<?"@ + s@ + "?>"@,
    }
}

/// An element as text: one empty element tag where it is self-closing, else
/// its children between its start tag and its end tag. The attributes stand
/// in the order of their listing.
pub open spec fn element_text(e: Element) -> Seq<char>
    decreases e,
{
    if e.self_closing {
        empty_tag_text(e.name@, e.attributes.listing())
    } else {
        start_tag_text(e.name@, e.attributes.listing()) + items_text(e.children@) + end_tag_text(
            e.name@,
        )
    }
}

/// Items as text: the texts of the items, one after the other.
pub open spec fn items_text(items: Seq<Item>) -> Seq<char>
    decreases items,
{
    if items.len() == 0 {
        Seq::empty()
    } else {
        items_text(items.drop_last()) + item_text(items.last())
    }
}

} // verus!
