use crate::attributes::Attributes;
use crate::element::Element;
use crate::error::{decoded, u8_to_string, XmlError, XmlErrorView};
use crate::item::{element_view, items_view, ElementView, Item, ItemView};
use crate::token::{pairs_view, tokens_view, Token, TokenView};
use vstd::prelude::*;

verus! {

/// The mapping that a sequence of undecoded attributes stands for: each pair
/// is decoded, name first, and a name that comes again replaces its earlier
/// value. The first pair that cannot be decoded gives the error.
pub open spec fn attributes_of(pairs: Seq<(Seq<u8>, Seq<u8>)>) -> Result<
    Map<Seq<char>, Seq<char>>,
    XmlErrorView,
>
    decreases pairs.len(),
{
    if pairs.len() == 0 {
        Ok(Map::empty())
    } else {
        match attributes_of(pairs.drop_last()) {
            Err(e) => Err(e),
            Ok(map) => match decoded(pairs.last().0) {
                Err(e) => Err(e),
                Ok(key) => match decoded(pairs.last().1) {
                    Err(e) => Err(e),
                    Ok(value) => Ok(map.insert(key, value)),
                },
            },
        }
    }
}

/// How the search for the end tag of an open element ends.
pub enum Closing {
    /// The end tag is the token at this index.
    At(int),
    /// The search failed.
    Failed(XmlErrorView),
}

/// Searches `tokens` from index `from` on for the end tag that closes the
/// outermost of the elements `open`, whose names are given innermost last.
/// Each start tag on the way opens one more element, each end tag must name
/// the innermost open one and closes it. Names are decoded as they are met;
/// other tokens are passed over unread.
pub open spec fn closing(tokens: Seq<TokenView>, from: int, open: Seq<Seq<char>>) -> Closing
    decreases tokens.len() - from,
{
    if from >= tokens.len() {
        Closing::Failed(XmlErrorView::MissingEndTag(open.last()))
    } else {
        match tokens[from] {
            TokenView::Start { name, .. } => match decoded(name) {
                Err(e) => Closing::Failed(e),
                Ok(n) => closing(tokens, from + 1, open.push(n)),
            },
            TokenView::End { name } => match decoded(name) {
                Err(e) => Closing::Failed(e),
                Ok(n) => if open.last() != n {
                    Closing::Failed(
                        XmlErrorView::MismatchedEndTag { expected: open.last(), found: n },
                    )
                } else if open.len() == 1 {
                    Closing::At(from)
                } else {
                    closing(tokens, from + 1, open.drop_last())
                },
            },
            _ => closing(tokens, from + 1, open),
        }
    }
}

/// The end tag that a search finds lies where the search went.
pub proof fn lemma_closing_bounds(tokens: Seq<TokenView>, from: int, open: Seq<Seq<char>>)
    requires
        0 <= from,
    ensures
        closing(tokens, from, open) matches Closing::At(j) ==> from <= j < tokens.len(),
    decreases tokens.len() - from,
{
    if from >= tokens.len() {
    } else {
        match tokens[from] {
            TokenView::Start { name, .. } => {
                if let Ok(n) = decoded(name) {
                    lemma_closing_bounds(tokens, from + 1, open.push(n));
                }
            },
            TokenView::End { name } => {
                if let Ok(n) = decoded(name) {
                    if open.last() == n && open.len() != 1 {
                        lemma_closing_bounds(tokens, from + 1, open.drop_last());
                    }
                }
            },
            _ => {
                lemma_closing_bounds(tokens, from + 1, open);
            },
        }
    }
}

/// `items` followed by what `rest` gives, or the error of `rest`.
pub open spec fn followed(items: Seq<ItemView>, rest: Result<Seq<ItemView>, XmlErrorView>) -> Result<
    Seq<ItemView>,
    XmlErrorView,
> {
    match rest {
        Ok(more) => Ok(items + more),
        Err(e) => Err(e),
    }
}

/// The item that a token stands for where it stands alone: none for an end
/// tag, which then closes nothing, nor for a start tag, which nothing closes.
pub open spec fn single_of(token: TokenView) -> Result<ItemView, XmlErrorView> {
    match token {
        TokenView::Text(b) => match decoded(b) {
            Ok(s) => Ok(ItemView::Text(s)),
            Err(e) => Err(e),
        },
        TokenView::Comment(b) => match decoded(b) {
            Ok(s) => Ok(ItemView::Comment(s)),
            Err(e) => Err(e),
        },
        TokenView::CData(b) => match decoded(b) {
            Ok(s) => Ok(ItemView::CData(s)),
            Err(e) => Err(e),
        },
        TokenView::DocType(b) => match decoded(b) {
            Ok(s) => Ok(ItemView::DocType(s)),
            Err(e) => Err(e),
        },
        TokenView::Decl(b) => match decoded(b) {
            Ok(s) => Ok(ItemView::Decl(s)),
            Err(e) => Err(e),
        },
        TokenView::PI(b) => match decoded(b) {
            Ok(s) => Ok(ItemView::PI(s)),
            Err(e) => Err(e),
        },
        TokenView::Empty { name, attributes } => match decoded(name) {
            Err(e) => Err(e),
            Ok(n) => match attributes_of(attributes) {
                Err(e) => Err(e),
                Ok(map) => Ok(
                    ItemView::Element(
                        ElementView {
                            name: n,
                            children: Seq::empty(),
                            attributes: map,
                            self_closing: true,
                        },
                    ),
                ),
            },
        },
        TokenView::End { name } => match decoded(name) {
            Err(e) => Err(e),
            Ok(n) => Err(XmlErrorView::UnmatchedEndTag(n)),
        },
        TokenView::Start { name, .. } => match decoded(name) {
            Err(e) => Err(e),
            Ok(n) => Err(XmlErrorView::MissingEndTag(n)),
        },
    }
}

/// The items that a sequence of tokens stands for, in the order of the
/// tokens, or the first error met on the way.
///
/// A token that is no tag gives one item, and so does an empty element tag.
/// An end tag met here closes nothing. At a start tag the name and the
/// attributes are decoded, then its end tag is searched ([`closing`]); the
/// tokens between the two give the children of the element, and the items of
/// the document go on behind the end tag.
pub open spec fn document_of(tokens: Seq<TokenView>) -> Result<Seq<ItemView>, XmlErrorView>
    decreases tokens.len(),
{
    if tokens.len() == 0 {
        Ok(Seq::empty())
    } else {
        match tokens[0] {
            TokenView::Start { name, attributes } => match decoded(name) {
                Err(e) => Err(e),
                Ok(n) => match attributes_of(attributes) {
                    Err(e) => Err(e),
                    Ok(map) => match closing(tokens, 1, seq![n]) {
                        Closing::Failed(e) => Err(e),
                        Closing::At(end) => {
                            proof {
                                lemma_closing_bounds(tokens, 1, seq![n]);
                            }
                            match document_of(tokens.subrange(1, end)) {
                                Err(e) => Err(e),
                                Ok(children) => followed(
                                    seq![
                                        ItemView::Element(
                                            ElementView {
                                                name: n,
                                                children,
                                                attributes: map,
                                                self_closing: false,
                                            },
                                        ),
                                    ],
                                    document_of(tokens.skip(end + 1)),
                                ),
                            }
                        },
                    },
                },
            },
            _ => match single_of(tokens[0]) {
                Err(e) => Err(e),
                Ok(item) => followed(seq![item], document_of(tokens.skip(1))),
            },
        }
    }
}

/// Decodes the attributes of a tag and collects them: a name that comes
/// again replaces its earlier value.
pub fn get_attributes(pairs: &Vec<(Vec<u8>, Vec<u8>)>) -> (r: Result<Attributes, XmlError>)
    ensures
        match r {
            Ok(a) => attributes_of(pairs_view(pairs@)) == Ok::<
                Map<Seq<char>, Seq<char>>,
                XmlErrorView,
            >(a@),
            Err(e) => attributes_of(pairs_view(pairs@)) == Err::<
                Map<Seq<char>, Seq<char>>,
                XmlErrorView,
            >(e@),
        },
{
    let mut attributes = Attributes::new();
    let ghost all = pairs_view(pairs@);
    let mut i: usize = 0;
    while i < pairs.len()
        invariant
            i <= pairs@.len(),
            all == pairs_view(pairs@),
            attributes_of(all.take(i as int)) == Ok::<Map<Seq<char>, Seq<char>>, XmlErrorView>(
                attributes@,
            ),
        decreases pairs@.len() - i,
    {
        proof {
            assert(all.take(i + 1).drop_last() =~= all.take(i as int));
            assert(all.take(i + 1).last() == all[i as int]);
            lemma_attributes_error(all, i + 1);
        }
        let key = match u8_to_string(pairs[i].0.as_slice()) {
            Ok(key) => key,
            Err(e) => {
                return Err(e);
            },
        };
        let value = match u8_to_string(pairs[i].1.as_slice()) {
            Ok(value) => value,
            Err(e) => {
                return Err(e);
            },
        };
        attributes.insert(key, value);
        i += 1;
    }
    proof {
        assert(all.take(i as int) =~= all);
    }
    Ok(attributes)
}

/// An error among the first attributes is the error of them all.
pub proof fn lemma_attributes_error(pairs: Seq<(Seq<u8>, Seq<u8>)>, n: int)
    requires
        0 <= n <= pairs.len(),
    ensures
        attributes_of(pairs.take(n)) matches Err(e) ==> attributes_of(pairs) == Err::<
            Map<Seq<char>, Seq<char>>,
            XmlErrorView,
        >(e),
    decreases pairs.len() - n,
{
    if n < pairs.len() {
        assert(pairs.take(n + 1).drop_last() =~= pairs.take(n));
        lemma_attributes_error(pairs, n + 1);
    } else {
        assert(pairs.take(n) =~= pairs);
    }
}

/// The views of a sequence of names.
pub open spec fn names_view(names: Seq<String>) -> Seq<Seq<char>> {
    Seq::new(names.len(), |i: int| names[i]@)
}

/// Finds the end tag of the element `name`, whose start tag stands just
/// before index `from`.
pub fn find_end(tokens: &[Token], from: usize, name: &String) -> (r: Result<usize, XmlError>)
    requires
        from <= tokens@.len(),
    ensures
        match r {
            Ok(end) => closing(tokens_view(tokens@), from as int, seq![name@]) == Closing::At(
                end as int,
            ),
            Err(e) => closing(tokens_view(tokens@), from as int, seq![name@]) == Closing::Failed(
                e@,
            ),
        },
{
    let ghost all = tokens_view(tokens@);
    let mut names: Vec<String> = Vec::new();
    names.push(name.clone());
    assert(names_view(names@) =~= seq![name@]);
    let mut k: usize = from;
    while k < tokens.len()
        invariant
            from <= k <= tokens@.len(),
            all == tokens_view(tokens@),
            names@.len() >= 1,
            closing(all, from as int, seq![name@]) == closing(all, k as int, names_view(names@)),
        decreases tokens@.len() - k,
    {
        let ghost open = names_view(names@);
        assert(all[k as int] == tokens@[k as int]@);
        match &tokens[k] {
            Token::Start { name: started, .. } => {
                let started = match u8_to_string(started.as_slice()) {
                    Ok(s) => s,
                    Err(e) => {
                        return Err(e);
                    },
                };
                names.push(started);
                assert(names_view(names@) =~= open.push(started@));
            },
            Token::End { name: ended } => {
                let found = match u8_to_string(ended.as_slice()) {
                    Ok(s) => s,
                    Err(e) => {
                        return Err(e);
                    },
                };
                let expected = names.pop().unwrap();
                assert(expected@ == open.last());
                assert(names_view(names@) =~= open.drop_last());
                if !(expected == found) {
                    return Err(XmlError::MismatchedEndTag { expected, found });
                }
                if names.len() == 0 {
                    return Ok(k);
                }
            },
            _ => {},
        }
        k += 1;
    }
    let ghost open = names_view(names@);
    let innermost = names.pop().unwrap();
    assert(innermost@ == open.last());
    Err(XmlError::MissingEndTag(innermost))
}

/// Turns a token that stands alone into its item. An end tag closes nothing
/// here and a start tag is closed by nothing: they give the error.
pub fn single(token: &Token) -> (r: Result<Item, XmlError>)
    ensures
        match r {
            Ok(item) => single_of(token@) == Ok::<ItemView, XmlErrorView>(item@),
            Err(e) => single_of(token@) == Err::<ItemView, XmlErrorView>(e@),
        },
{
    match token {
        Token::Text(b) => match u8_to_string(b.as_slice()) {
            Ok(s) => Ok(Item::Text(s)),
            Err(e) => Err(e),
        },
        Token::Comment(b) => match u8_to_string(b.as_slice()) {
            Ok(s) => Ok(Item::Comment(s)),
            Err(e) => Err(e),
        },
        Token::CData(b) => match u8_to_string(b.as_slice()) {
            Ok(s) => Ok(Item::CData(s)),
            Err(e) => Err(e),
        },
        Token::DocType(b) => match u8_to_string(b.as_slice()) {
            Ok(s) => Ok(Item::DocType(s)),
            Err(e) => Err(e),
        },
        Token::Decl(b) => match u8_to_string(b.as_slice()) {
            Ok(s) => Ok(Item::Decl(s)),
            Err(e) => Err(e),
        },
        Token::PI(b) => match u8_to_string(b.as_slice()) {
            Ok(s) => Ok(Item::PI(s)),
            Err(e) => Err(e),
        },
        Token::Empty { name, attributes } => {
            let name = match u8_to_string(name.as_slice()) {
                Ok(s) => s,
                Err(e) => {
                    return Err(e);
                },
            };
            let attributes = match get_attributes(attributes) {
                Ok(a) => a,
                Err(e) => {
                    return Err(e);
                },
            };
            let element = Element { name, attributes, self_closing: true, children: Vec::new() };
            assert(element_view(element).children =~= Seq::<ItemView>::empty());
            Ok(Item::Element(element))
        },
        Token::End { name } => match u8_to_string(name.as_slice()) {
            Ok(s) => Err(XmlError::UnmatchedEndTag(s)),
            Err(e) => Err(e),
        },
        Token::Start { name, .. } => match u8_to_string(name.as_slice()) {
            Ok(s) => Err(XmlError::MissingEndTag(s)),
            Err(e) => Err(e),
        },
    }
}

/// Builds the items of a document from its tokens.
///
/// The result is [`document_of`] of the tokens: on success the items in the
/// order of the tokens, each element with the items between its tags as its
/// children; else the first error met, and no item at all.
pub fn from_events(tokens: &[Token]) -> (r: Result<Vec<Item>, XmlError>)
    ensures
        match r {
            Ok(items) => document_of(tokens_view(tokens@)) == Ok::<Seq<ItemView>, XmlErrorView>(
                items_view(items@),
            ),
            Err(e) => document_of(tokens_view(tokens@)) == Err::<Seq<ItemView>, XmlErrorView>(e@),
        },
    decreases tokens@.len(),
{
    let ghost all = tokens_view(tokens@);
    let mut children: Vec<Item> = Vec::new();
    let mut i: usize = 0;
    assert(items_view(children@) =~= Seq::<ItemView>::empty());
    assert(all.skip(0) =~= all);
    proof {
        lemma_followed_empty(document_of(all));
    }
    while i < tokens.len()
        invariant
            i <= tokens@.len(),
            all == tokens_view(tokens@),
            document_of(all) == followed(items_view(children@), document_of(all.skip(i as int))),
        decreases tokens@.len() - i,
    {
        let ghost tail = all.skip(i as int);
        let ghost done = items_view(children@);
        assert(tail[0] == tokens@[i as int]@);
        match &tokens[i] {
            Token::Start { name, attributes } => {
                let name = match u8_to_string(name.as_slice()) {
                    Ok(s) => s,
                    Err(e) => {
                        return Err(e);
                    },
                };
                let attributes = match get_attributes(attributes) {
                    Ok(a) => a,
                    Err(e) => {
                        return Err(e);
                    },
                };
                let rest = &tokens[i..tokens.len()];
                assert(tokens_view(rest@) =~= tail);
                let end = match find_end(rest, 1, &name) {
                    Ok(end) => end,
                    Err(e) => {
                        return Err(e);
                    },
                };
                proof {
                    lemma_closing_bounds(tail, 1, seq![name@]);
                }
                let nested = &tokens[i + 1..i + end];
                assert(tokens_view(nested@) =~= tail.subrange(1, end as int));
                let inner = match from_events(nested) {
                    Ok(inner) => inner,
                    Err(e) => {
                        return Err(e);
                    },
                };
                let element = Element { name, attributes, self_closing: false, children: inner };
                assert(element_view(element).children =~= items_view(inner@));
                let item = Item::Element(element);
                proof {
                    assert(tail.skip(end + 1) =~= all.skip(i + end + 1));
                    lemma_followed_push(done, item@, document_of(all.skip(i + end + 1)));
                }
                children.push(item);
                assert(items_view(children@) =~= done.push(item@));
                i = i + end + 1;
            },
            other => {
                let item = match single(other) {
                    Ok(item) => item,
                    Err(e) => {
                        return Err(e);
                    },
                };
                proof {
                    assert(tail.skip(1) =~= all.skip(i + 1));
                    lemma_followed_push(done, item@, document_of(all.skip(i + 1)));
                }
                children.push(item);
                assert(items_view(children@) =~= done.push(item@));
                i = i + 1;
            },
        }
    }
    assert(all.skip(i as int) =~= Seq::<TokenView>::empty());
    assert(items_view(children@) + Seq::<ItemView>::empty() =~= items_view(children@));
    Ok(children)
}

/// Nothing, followed by a result, is that result.
pub proof fn lemma_followed_empty(rest: Result<Seq<ItemView>, XmlErrorView>)
    ensures
        followed(Seq::empty(), rest) == rest,
{
    if let Ok(more) = rest {
        assert(Seq::<ItemView>::empty() + more =~= more);
    }
}

/// Items followed by one item and what comes behind it are those items, the
/// one more among them, followed by what comes behind.
pub proof fn lemma_followed_push(
    done: Seq<ItemView>,
    item: ItemView,
    rest: Result<Seq<ItemView>, XmlErrorView>,
)
    ensures
        followed(done, followed(seq![item], rest)) == followed(done.push(item), rest),
{
    if let Ok(more) = rest {
        assert(done + (seq![item] + more) =~= done.push(item) + more);
    }
}

} // verus!
