use crate::attributes::{distinct_keys, lists};
use crate::error::{decoded, XmlErrorView};
use crate::item::{element_view, item_view, items_view, Item, ItemView};
use crate::token::TokenView;
use crate::tree::{attributes_of, closing, document_of, single_of, lemma_closing_bounds, Closing};
use vstd::prelude::*;
use vstd::utf8::{encode_utf8, encode_utf8_decode_utf8, encode_utf8_valid_utf8};

verus! {

/// The number of tokens that an item is spelled with: two tags around the
/// tokens of its children for an element that is not self-closing, one token
/// for any other item.
pub open spec fn span(item: ItemView) -> nat
    decreases item,
{
    match item {
        ItemView::Element(e) => if e.self_closing {
            1
        } else {
            2 + spans(e.children)
        },
        _ => 1,
    }
}

/// The number of tokens that items are spelled with.
pub open spec fn spans(items: Seq<ItemView>) -> nat
    decreases items,
{
    if items.len() == 0 {
        0
    } else {
        span(items.first()) + spans(items.drop_first())
    }
}

/// Whether `tokens` spell `item`: one token of the kind and with the payload
/// of the item; or the tag of a self-closing element without children; or
/// the start tag of an element, tokens that spell its children, and its end
/// tag. A tag has the name of the element, and its attributes are those of
/// the element ([`attributes_of`]).
pub open spec fn spells_item(tokens: Seq<TokenView>, item: ItemView) -> bool
    decreases item,
{
    &&& tokens.len() == span(item)
    &&& match item {
        ItemView::Element(e) => if e.self_closing {
            &&& e.children.len() == 0
            &&& tokens[0] matches TokenView::Empty { name, attributes }
            &&& decoded(name) == Ok::<Seq<char>, XmlErrorView>(e.name)
            &&& attributes_of(attributes) == Ok::<Map<Seq<char>, Seq<char>>, XmlErrorView>(
                e.attributes,
            )
        } else {
            &&& tokens[0] matches TokenView::Start { name, attributes }
            &&& decoded(name) == Ok::<Seq<char>, XmlErrorView>(e.name)
            &&& attributes_of(attributes) == Ok::<Map<Seq<char>, Seq<char>>, XmlErrorView>(
                e.attributes,
            )
            &&& tokens.last() matches TokenView::End { name: ended }
            &&& decoded(ended) == Ok::<Seq<char>, XmlErrorView>(e.name)
            &&& spells(tokens.subrange(1, tokens.len() - 1), e.children)
        },
        ItemView::Text(s) => tokens[0] matches TokenView::Text(b) && decoded(b) == Ok::<
            Seq<char>,
            XmlErrorView,
        >(s),
        ItemView::Comment(s) => tokens[0] matches TokenView::Comment(b) && decoded(b) == Ok::<
            Seq<char>,
            XmlErrorView,
        >(s),
        ItemView::CData(s) => tokens[0] matches TokenView::CData(b) && decoded(b) == Ok::<
            Seq<char>,
            XmlErrorView,
        >(s),
        ItemView::DocType(s) => tokens[0] matches TokenView::DocType(b) && decoded(b) == Ok::<
            Seq<char>,
            XmlErrorView,
        >(s),
        ItemView::Decl(s) => tokens[0] matches TokenView::Decl(b) && decoded(b) == Ok::<
            Seq<char>,
            XmlErrorView,
        >(s),
        ItemView::PI(s) => tokens[0] matches TokenView::PI(b) && decoded(b) == Ok::<
            Seq<char>,
            XmlErrorView,
        >(s),
    }
}

/// Whether `tokens` spell `items`: they fall into as many runs as there are
/// items, in the same order, and each run spells its item.
pub open spec fn spells(tokens: Seq<TokenView>, items: Seq<ItemView>) -> bool
    decreases items,
{
    if items.len() == 0 {
        tokens.len() == 0
    } else {
        &&& span(items.first()) <= tokens.len()
        &&& spells_item(tokens.take(span(items.first()) as int), items.first())
        &&& spells(tokens.skip(span(items.first()) as int), items.drop_first())
    }
}

/// Tokens that spell items are as many as the items span.
pub proof fn lemma_spelled_length(tokens: Seq<TokenView>, items: Seq<ItemView>)
    requires
        spells(tokens, items),
    ensures
        tokens.len() == spans(items),
    decreases items,
{
    if items.len() > 0 {
        lemma_spelled_length(tokens.skip(span(items.first()) as int), items.drop_first());
    }
}

/// The end tag that a search finds is an end tag, and it names the
/// outermost of the elements that were open.
pub proof fn lemma_closing_found(tokens: Seq<TokenView>, from: int, open: Seq<Seq<char>>)
    requires
        0 <= from,
        open.len() >= 1,
    ensures
        closing(tokens, from, open) matches Closing::At(j) ==> {
            &&& from <= j < tokens.len()
            &&& tokens[j] matches TokenView::End { name }
            &&& decoded(name) == Ok::<Seq<char>, XmlErrorView>(open[0])
        },
    decreases tokens.len() - from,
{
    if from < tokens.len() {
        match tokens[from] {
            TokenView::Start { name, .. } => {
                if let Ok(n) = decoded(name) {
                    lemma_closing_found(tokens, from + 1, open.push(n));
                }
            },
            TokenView::End { name } => {
                if let Ok(n) = decoded(name) {
                    if open.last() == n && open.len() != 1 {
                        lemma_closing_found(tokens, from + 1, open.drop_last());
                    }
                }
            },
            _ => {
                lemma_closing_found(tokens, from + 1, open);
            },
        }
    }
}

/// The search for an end tag passes over tokens that spell an item and has
/// the same elements open behind them as before them.
pub proof fn lemma_closing_passes_item(
    tokens: Seq<TokenView>,
    at: int,
    open: Seq<Seq<char>>,
    item: ItemView,
)
    requires
        0 <= at,
        at + span(item) <= tokens.len(),
        spells_item(tokens.subrange(at, at + span(item)), item),
        open.len() >= 1,
    ensures
        closing(tokens, at, open) == closing(tokens, at + span(item), open),
    decreases item,
{
    let run = tokens.subrange(at, at + span(item));
    assert(tokens[at] == run[0]);
    match item {
        ItemView::Element(e) => {
            if !e.self_closing {
                let inside: int = spans(e.children) as int;
                let end: int = at + 1 + inside;
                assert(run.subrange(1, run.len() - 1) =~= tokens.subrange(at + 1, end));
                assert(tokens[end] == run.last());
                lemma_closing_passes(tokens, at + 1, open.push(e.name), e.children);
                assert(open.push(e.name).drop_last() =~= open);
            }
        },
        _ => {},
    }
}

/// The search for an end tag passes over tokens that spell items and has the
/// same elements open behind them as before them.
pub proof fn lemma_closing_passes(
    tokens: Seq<TokenView>,
    at: int,
    open: Seq<Seq<char>>,
    items: Seq<ItemView>,
)
    requires
        0 <= at,
        at + spans(items) <= tokens.len(),
        spells(tokens.subrange(at, at + spans(items)), items),
        open.len() >= 1,
    ensures
        closing(tokens, at, open) == closing(tokens, at + spans(items), open),
    decreases items,
{
    if items.len() > 0 {
        let run = tokens.subrange(at, at + spans(items));
        let n: int = span(items.first()) as int;
        assert(run.take(n) =~= tokens.subrange(at, at + n));
        assert(run.skip(n) =~= tokens.subrange(at + n, at + n + spans(items.drop_first())));
        lemma_closing_passes_item(tokens, at, open, items.first());
        lemma_closing_passes(tokens, at + n, open, items.drop_first());
    }
}

/// The tokens of a document spell its items.
pub proof fn lemma_document_is_spelled(tokens: Seq<TokenView>)
    ensures
        document_of(tokens) matches Ok(items) ==> spells(tokens, items),
    decreases tokens.len(),
{
    if tokens.len() > 0 {
        if let Ok(items) = document_of(tokens) {
            match tokens[0] {
                TokenView::Start { name, attributes } => {
                    let n = decoded(name)->Ok_0;
                    let end: int = closing(tokens, 1, seq![n])->At_0;
                    lemma_closing_found(tokens, 1, seq![n]);
                    let inside = tokens.subrange(1, end);
                    let behind = tokens.skip(end + 1);
                    let children = document_of(inside)->Ok_0;
                    let others = document_of(behind)->Ok_0;
                    lemma_document_is_spelled(inside);
                    lemma_document_is_spelled(behind);
                    lemma_spelled_length(inside, children);
                    assert(items.drop_first() =~= others);
                    let first = items.first();
                    assert(first matches ItemView::Element(e) && !e.self_closing && e.children
                        == children && e.name == n);
                    assert(span(first) == 2 + spans(children));
                    let run = tokens.take(end + 1);
                    assert(run.len() == span(first));
                    assert(run[0] == tokens[0]);
                    assert(run.subrange(1, run.len() - 1) =~= inside);
                    assert(run.last() == tokens[end]);
                    assert(spells_item(run, first));
                    assert(tokens.skip(span(first) as int) =~= behind);
                },
                _ => {
                    let others = document_of(tokens.skip(1))->Ok_0;
                    lemma_document_is_spelled(tokens.skip(1));
                    assert(items.drop_first() =~= others);
                    let first = items.first();
                    assert(single_of(tokens[0]) == Ok::<ItemView, XmlErrorView>(first));
                    assert(span(first) == 1);
                    assert(tokens.take(1)[0] == tokens[0]);
                    assert(spells_item(tokens.take(1), first));
                },
            }
        }
    }
}

/// Tokens that spell items give those items as their document.
pub proof fn lemma_spelled_is_document(tokens: Seq<TokenView>, items: Seq<ItemView>)
    requires
        spells(tokens, items),
    ensures
        document_of(tokens) == Ok::<Seq<ItemView>, XmlErrorView>(items),
    decreases tokens.len(),
{
    lemma_spelled_length(tokens, items);
    if items.len() == 0 {
        assert(items =~= Seq::<ItemView>::empty());
    } else {
        let first = items.first();
        let others = items.drop_first();
        let n: int = span(first) as int;
        let run = tokens.take(n);
        let behind = tokens.skip(n);
        assert(spells_item(run, first));
        assert(spells(behind, others));
        assert(tokens[0] == run[0]);
        lemma_spelled_is_document(behind, others);
        assert(seq![first] + others =~= items);
        match first {
            ItemView::Element(e) => {
                if e.self_closing {
                    assert(e.children =~= Seq::<ItemView>::empty());
                    assert(single_of(tokens[0]) == Ok::<ItemView, XmlErrorView>(first));
                } else {
                    let end: int = n - 1;
                    let inside = tokens.subrange(1, end);
                    assert(run.subrange(1, run.len() - 1) =~= inside);
                    assert(spells(inside, e.children));
                    lemma_spelled_length(inside, e.children);
                    lemma_closing_passes(tokens, 1, seq![e.name], e.children);
                    assert(tokens[end] == run.last());
                    assert(closing(tokens, 1, seq![e.name]) == Closing::At(end));
                    lemma_spelled_is_document(inside, e.children);
                    assert(tokens.skip(end + 1) =~= behind);
                }
            },
            _ => {
                assert(single_of(tokens[0]) == Ok::<ItemView, XmlErrorView>(first));
            },
        }
    }
}

/// A document is built exactly from tokens that spell it: the items stand
/// in the order of their tokens, and the children of an element are what
/// stands between its tags.
pub proof fn lemma_document_iff_spelled(tokens: Seq<TokenView>, items: Seq<ItemView>)
    ensures
        document_of(tokens) == Ok::<Seq<ItemView>, XmlErrorView>(items) <==> spells(tokens, items),
{
    lemma_document_is_spelled(tokens);
    if spells(tokens, items) {
        lemma_spelled_is_document(tokens, items);
    }
}

/// Whether an item is as a document holds it: in it every self-closing
/// element is without children and every element has finitely many
/// attributes.
pub open spec fn well_formed(item: ItemView) -> bool
    decreases item,
{
    match item {
        ItemView::Element(e) => {
            &&& e.self_closing ==> e.children.len() == 0
            &&& e.attributes.dom().finite()
            &&& forall|i: int| 0 <= i < e.children.len() ==> well_formed(#[trigger] e.children[i])
        },
        _ => true,
    }
}

/// Whether each of the items is [`well_formed`].
pub open spec fn all_well_formed(items: Seq<ItemView>) -> bool {
    forall|i: int| 0 <= i < items.len() ==> well_formed(#[trigger] items[i])
}

/// The attributes of a tag are finitely many.
pub proof fn lemma_attributes_finite(pairs: Seq<(Seq<u8>, Seq<u8>)>)
    ensures
        attributes_of(pairs) matches Ok(map) ==> map.dom().finite(),
    decreases pairs.len(),
{
    if pairs.len() > 0 {
        lemma_attributes_finite(pairs.drop_last());
    }
}

/// Every document is well formed: a self-closing element in it has no
/// children, at whatever depth it stands.
pub proof fn lemma_document_well_formed(tokens: Seq<TokenView>)
    ensures
        document_of(tokens) matches Ok(items) ==> all_well_formed(items),
    decreases tokens.len(),
{
    if tokens.len() > 0 {
        match tokens[0] {
            TokenView::Start { name, attributes } => {
                if let Ok(n) = decoded(name) {
                    lemma_attributes_finite(attributes);
                    if let Closing::At(end) = closing(tokens, 1, seq![n]) {
                        lemma_closing_bounds(tokens, 1, seq![n]);
                        lemma_document_well_formed(tokens.subrange(1, end));
                        lemma_document_well_formed(tokens.skip(end + 1));
                    }
                }
            },
            TokenView::Empty { name, attributes } => {
                lemma_attributes_finite(attributes);
                lemma_document_well_formed(tokens.skip(1));
            },
            _ => {
                lemma_document_well_formed(tokens.skip(1));
            },
        }
    }
}

/// Attributes as a tag carries them: each name and each value as its bytes.
pub open spec fn encoded(pairs: Seq<(Seq<char>, Seq<char>)>) -> Seq<(Seq<u8>, Seq<u8>)> {
    Seq::new(pairs.len(), |i: int| (encode_utf8(pairs[i].0), encode_utf8(pairs[i].1)))
}

/// The tokens that the text of an item consists of: for an element that is
/// not self-closing its start tag, the tokens of its children and its end
/// tag; for any other item one token. The attributes of a tag stand in the
/// order of their listing.
pub open spec fn item_tokens(item: Item) -> Seq<TokenView>
    decreases item,
{
    match item {
        Item::Element(e) => if e.self_closing {
            seq![
                TokenView::Empty {
                    name: encode_utf8(e.name@),
                    attributes: encoded(e.attributes.listing()),
                },
            ]
        } else {
            seq![
                TokenView::Start {
                    name: encode_utf8(e.name@),
                    attributes: encoded(e.attributes.listing()),
                },
            ] + items_tokens(e.children@) + seq![TokenView::End { name: encode_utf8(e.name@) }]
        },
        Item::Text(s) => seq![TokenView::Text(encode_utf8(s@))],
        Item::Comment(s) => seq![TokenView::Comment(encode_utf8(s@))],
        Item::DocType(s) => seq![TokenView::DocType(encode_utf8(s@))],
        Item::CData(s) => seq![TokenView::CData(encode_utf8(s@))],
        Item::Decl(s) => seq![TokenView::Decl(encode_utf8(s@))],
        Item::PI(s) => seq![TokenView::PI(encode_utf8(s@))],
    }
}

/// The tokens that the text of items consists of, item after item.
pub open spec fn items_tokens(items: Seq<Item>) -> Seq<TokenView>
    decreases items,
{
    if items.len() == 0 {
        Seq::empty()
    } else {
        item_tokens(items.first()) + items_tokens(items.drop_first())
    }
}

/// Whether an item can be written out without loss: in it no element lists
/// an attribute twice, and no self-closing element has children.
pub open spec fn writable(item: Item) -> bool
    decreases item,
{
    match item {
        Item::Element(e) => {
            &&& distinct_keys(e.attributes.listing())
            &&& e.self_closing ==> e.children@.len() == 0
            &&& all_writable(e.children@)
        },
        _ => true,
    }
}

/// Whether each of the items is [`writable`].
pub open spec fn all_writable(items: Seq<Item>) -> bool
    decreases items,
{
    if items.len() == 0 {
        true
    } else {
        writable(items.first()) && all_writable(items.drop_first())
    }
}

/// The bytes of a text decode to that text.
pub proof fn lemma_decoded_encoded(text: Seq<char>)
    ensures
        decoded(encode_utf8(text)) == Ok::<Seq<char>, XmlErrorView>(text),
{
    encode_utf8_valid_utf8(text);
    encode_utf8_decode_utf8(text);
}

/// The attributes of a tag that carries a listing of a mapping are that
/// mapping.
pub proof fn lemma_attributes_of_listing(
    pairs: Seq<(Seq<char>, Seq<char>)>,
    map: Map<Seq<char>, Seq<char>>,
)
    requires
        lists(pairs, map),
    ensures
        attributes_of(encoded(pairs)) == Ok::<Map<Seq<char>, Seq<char>>, XmlErrorView>(map),
    decreases pairs.len(),
{
    if pairs.len() == 0 {
        assert(map =~= Map::<Seq<char>, Seq<char>>::empty());
    } else {
        let last = pairs.last();
        let rest = pairs.drop_last();
        let smaller = map.remove(last.0);
        assert forall|i: int| 0 <= i < rest.len() implies smaller.contains_key(
            (#[trigger] rest[i]).0,
        ) && smaller[rest[i].0] == rest[i].1 by {
            assert(rest[i] == pairs[i]);
            assert(pairs[i].0 != pairs[pairs.len() - 1].0);
        }
        assert forall|k: Seq<char>| smaller.contains_key(k) implies exists|i: int|
            0 <= i < rest.len() && (#[trigger] rest[i]).0 == k by {
            let i: int = choose|i: int| 0 <= i < pairs.len() && (#[trigger] pairs[i]).0 == k;
            assert(rest[i] == pairs[i]);
        }
        assert forall|i: int, j: int| 0 <= i < j < rest.len() implies (#[trigger] rest[i]).0 != (
        #[trigger] rest[j]).0 by {
            assert(rest[i] == pairs[i]);
            assert(rest[j] == pairs[j]);
        }
        lemma_attributes_of_listing(rest, smaller);
        assert(encoded(pairs).drop_last() =~= encoded(rest));
        assert(encoded(pairs).last() == (encode_utf8(last.0), encode_utf8(last.1)));
        lemma_decoded_encoded(last.0);
        lemma_decoded_encoded(last.1);
        assert(map.contains_key(pairs[pairs.len() - 1].0));
        assert(smaller.insert(last.0, last.1) =~= map);
    }
}

/// The tokens of a writable item spell it.
pub proof fn lemma_item_tokens_spell(item: Item)
    requires
        writable(item),
    ensures
        spells_item(item_tokens(item), item_view(item)),
    decreases item,
{
    let own = item_tokens(item);
    match item {
        Item::Element(e) => {
            lemma_decoded_encoded(e.name@);
            e.attributes.lemma_listing();
            lemma_attributes_of_listing(e.attributes.listing(), e.attributes@);
            if e.self_closing {
                assert(element_view(e).children =~= Seq::<ItemView>::empty());
            } else {
                let inner = items_tokens(e.children@);
                lemma_items_tokens_spell(e.children@);
                lemma_spelled_length(inner, items_view(e.children@));
                assert(element_view(e).children =~= items_view(e.children@));
                assert(own.subrange(1, own.len() - 1) =~= inner);
            }
        },
        Item::Text(s) => {
            lemma_decoded_encoded(s@);
        },
        Item::Comment(s) => {
            lemma_decoded_encoded(s@);
        },
        Item::DocType(s) => {
            lemma_decoded_encoded(s@);
        },
        Item::CData(s) => {
            lemma_decoded_encoded(s@);
        },
        Item::Decl(s) => {
            lemma_decoded_encoded(s@);
        },
        Item::PI(s) => {
            lemma_decoded_encoded(s@);
        },
    }
}

/// The tokens of writable items spell them.
pub proof fn lemma_items_tokens_spell(items: Seq<Item>)
    requires
        all_writable(items),
    ensures
        spells(items_tokens(items), items_view(items)),
    decreases items,
{
    if items.len() > 0 {
        let views = items_view(items);
        let own = item_tokens(items.first());
        let rest = items_tokens(items.drop_first());
        lemma_item_tokens_spell(items.first());
        lemma_items_tokens_spell(items.drop_first());
        assert(views.first() == item_view(items.first()));
        assert(views.drop_first() =~= items_view(items.drop_first()));
        assert((own + rest).take(own.len() as int) =~= own);
        assert((own + rest).skip(own.len() as int) =~= rest);
    }
}

/// Writing out and building are inverse: the tokens that the text of
/// writable items consists of give those items back as a document, with the
/// same names, the same payloads, the same children and the same attributes,
/// in whatever order the attributes were written.
pub proof fn lemma_document_of_tokens(items: Seq<Item>)
    requires
        all_writable(items),
    ensures
        document_of(items_tokens(items)) == Ok::<Seq<ItemView>, XmlErrorView>(items_view(items)),
{
    lemma_items_tokens_spell(items);
    lemma_spelled_is_document(items_tokens(items), items_view(items));
}

} // verus!
