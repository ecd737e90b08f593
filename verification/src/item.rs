use crate::element::Element;
use crate::render::item_text;
use vstd::prelude::*;
use vstd::string::*;

verus! {

/// Any XML item: an element, a comment, a run of text and so on.
#[derive(Debug)]
pub enum Item {
    /// Element `<tag attr="value">...</tag>` or `<tag attr="value" />`.
    Element(Element),
    /// Comment `<!-- ... -->`.
    Comment(String),
    /// Escaped character data between tags.
    Text(String),
    /// Document type definition data stored in `<!DOCTYPE ...>`.
    DocType(String),
    /// Unescaped character data stored in `<![CDATA[...]]>`.
    CData(String),
    /// XML declaration `<?xml ...?>`.
    Decl(String),
    /// Processing instruction `<?...?>`.
    PI(String),
}

/// What an [`Item`] holds, as mathematical values.
pub enum ItemView {
    Element(ElementView),
    Comment(Seq<char>),
    Text(Seq<char>),
    DocType(Seq<char>),
    CData(Seq<char>),
    Decl(Seq<char>),
    PI(Seq<char>),
}

/// What an [`Element`] holds, as mathematical values. The attributes are a
/// mapping: the order in which they are written out is no part of it.
pub struct ElementView {
    pub name: Seq<char>,
    pub children: Seq<ItemView>,
    pub attributes: Map<Seq<char>, Seq<char>>,
    pub self_closing: bool,
}

/// The view of an item.
pub open spec fn item_view(item: Item) -> ItemView
    decreases item,
{
    match item {
        Item::Element(e) => ItemView::Element(element_view(e)),
        Item::Comment(s) => ItemView::Comment(s@),
        Item::Text(s) => ItemView::Text(s@),
        Item::DocType(s) => ItemView::DocType(s@),
        Item::CData(s) => ItemView::CData(s@),
        Item::Decl(s) => ItemView::Decl(s@),
        Item::PI(s) => ItemView::PI(s@),
    }
}

/// The view of an element.
pub open spec fn element_view(e: Element) -> ElementView
    decreases e,
{
    ElementView {
        name: e.name@,
        children: Seq::new(
            e.children@.len(),
            |i: int|
                if 0 <= i < e.children@.len() {
                    item_view(e.children@[i])
                } else {
                    arbitrary()
                },
        ),
        attributes: e.attributes@,
        self_closing: e.self_closing,
    }
}

/// The views of a sequence of items.
pub open spec fn items_view(items: Seq<Item>) -> Seq<ItemView> {
    Seq::new(items.len(), |i: int| item_view(items[i]))
}

impl View for Item {
    type V = ItemView;

    open spec fn view(&self) -> ItemView {
        item_view(*self)
    }
}

impl Item {
    /// An element item of the given name, with no attribute and no child,
    /// written with a start tag and an end tag.
    pub fn new_element(name: String) -> (r: Item)
        ensures
            r@ == ItemView::Element(
                ElementView {
                    name: name@,
                    children: Seq::empty(),
                    attributes: Map::empty(),
                    self_closing: false,
                },
            ),
    {
        let r = Item::Element(Element::new(name));
        assert(r@->Element_0.children =~= Seq::empty());
        r
    }

    /// The item as text.
    pub fn to_string(&self) -> (r: String)
        ensures
            r@ == item_text(*self),
        decreases self,
    {
        match self {
            Item::Element(element) => element.to_string(),
            Item::Text(text) => text.clone(),
            Item::Comment(comment) => delimited("<!--", comment, "-->"),
            Item::DocType(doctype) => delimited("<!DOCTYPE ", doctype, ">"),
            Item::Decl(decl) => delimited("<?", decl, "?>"),
            Item::CData(cdata) => delimited("<![CDATA[", cdata, "]]>"),
            Item::PI(pi) => delimited("<?", pi, "?>"),
        }
    }
}

/// `payload` between `open` and `close`.
pub fn delimited(open: &str, payload: &String, close: &str) -> (r: String)
    ensures
        r@ == open@ + payload@ + close@,
{
    let mut text = String::from_str(open);
    text.append(payload.as_str());
    text.append(close);
    text
}

} // verus!
