use crate::error::{XmlError, XmlErrorView};
use crate::token::{pairs_view, tokens_view, Token, TokenView};
use quick_xml::errors::IllFormedError;
use quick_xml::events::Event;
use quick_xml::Reader;
use vstd::prelude::*;

verus! {

/// `quick_xml::Reader`, the tokenizer: held and handed on, never looked into.
#[verifier::external_type_specification]
#[verifier::external_body]
#[verifier::reject_recursive_types(R)]
pub struct ExReader<R>(Reader<R>);

/// `quick_xml::events::Event`, what the tokenizer reads: handed on to the
/// functions that take its bytes and its attributes out.
#[verifier::external_type_specification]
#[verifier::external_body]
pub struct ExEvent<'a>(Event<'a>);

/// Which kind of event the tokenizer has read.
pub enum Kind {
    Start,
    End,
    Empty,
    Text,
    Comment,
    CData,
    DocType,
    Decl,
    PI,
    Eof,
}

/// What an event of the tokenizer holds, as mathematical values: its kind,
/// the bytes of its name (of a tag) or of its content (of any other event),
/// and its attributes in the order of the text, with `None` in the place of
/// each one that is not well formed.
pub struct RawToken {
    pub kind: Kind,
    pub bytes: Seq<u8>,
    pub attributes: Seq<Option<(Seq<u8>, Seq<u8>)>>,
}

/// What the tokenizer reads from a text, to its end: the events before the
/// end of the text in their order, or the first error that it reports. With
/// `trim` set it trims the white space around the text between tags.
pub uninterp spec fn scanned(text: Seq<char>, trim: bool) -> Result<Seq<RawToken>, XmlErrorView>;

/// The events that a reader has before it: those that it gives, read after
/// read, until it gives the end of the text or reports an error.
pub uninterp spec fn pending(reader: Reader<&[u8]>) -> Seq<RawToken>;

/// The error that a reader reports behind the events that it has before it,
/// if it reports one there and does not come to the end of the text.
pub uninterp spec fn failure(reader: Reader<&[u8]>) -> Option<XmlErrorView>;

/// What an event holds.
pub uninterp spec fn held(event: Event) -> RawToken;

/// Calls `quick_xml::Reader::from_str` and `quick_xml::reader::Config::trim_text`:
/// a reader at the start of `text` that trims the white space around text
/// events if `trim` is set. The contract claims that what this reader has
/// before it depends on `text` and `trim` alone, and gives it its name.
#[verifier::external_body]
fn new_reader<'a>(text: &'a str, trim: bool) -> (r: Reader<&'a [u8]>)
    ensures
        scanned(text@, trim) == match failure(r) {
            None => Ok::<Seq<RawToken>, XmlErrorView>(pending(r)),
            Some(e) => Err::<Seq<RawToken>, XmlErrorView>(e),
        },
{
    let mut reader = Reader::from_str(text);
    reader.config_mut().trim_text(trim);
    reader
}

/// Calls `quick_xml::Reader::read_event` and tells the variants of the
/// `quick_xml::Error` apart that it may report: an error about an end tag or
/// about undecodable input becomes the error of this library of the same
/// name, with the same fields; any other error is carried as it is.
///
/// The contract claims that a read takes the first of the events that the
/// reader has before it and leaves the others; that the end of the text
/// comes when none is left and no error is due; and that an error comes
/// when none is left and that error is due.
#[verifier::external_body]
fn read_event<'a>(reader: &mut Reader<&'a [u8]>) -> (r: Result<Event<'a>, XmlError>)
    ensures
        match r {
            Ok(event) => if held(event).kind is Eof {
                pending(*old(reader)).len() == 0 && failure(*old(reader)) is None
            } else {
                &&& pending(*old(reader)).len() > 0
                &&& pending(*old(reader))[0] == held(event)
                &&& pending(*final(reader)) == pending(*old(reader)).skip(1)
                &&& failure(*final(reader)) == failure(*old(reader))
            },
            Err(e) => pending(*old(reader)).len() == 0 && failure(*old(reader)) == Some(e@),
        },
{
    match reader.read_event() {
        Ok(event) => Ok(event),
        Err(quick_xml::Error::IllFormed(IllFormedError::UnmatchedEndTag(name))) => {
            Err(XmlError::UnmatchedEndTag(name))
        },
        Err(quick_xml::Error::IllFormed(IllFormedError::MismatchedEndTag { expected, found })) => {
            Err(XmlError::MismatchedEndTag { expected, found })
        },
        Err(quick_xml::Error::IllFormed(IllFormedError::MissingEndTag(name))) => {
            Err(XmlError::MissingEndTag(name))
        },
        Err(quick_xml::Error::NonDecodable(diagnostic)) => Err(XmlError::NonDecodable(diagnostic)),
        Err(other) => Err(XmlError::Syntax(other)),
    }
}

/// Tells the variants of `quick_xml::events::Event` apart. The contract
/// gives the result its name: the kind that the event holds.
#[verifier::external_body]
fn event_kind(event: &Event) -> (r: Kind)
    ensures
        r == held(*event).kind,
{
    match event {
        Event::Start(_) => Kind::Start,
        Event::End(_) => Kind::End,
        Event::Empty(_) => Kind::Empty,
        Event::Text(_) => Kind::Text,
        Event::Comment(_) => Kind::Comment,
        Event::CData(_) => Kind::CData,
        Event::DocType(_) => Kind::DocType,
        Event::Decl(_) => Kind::Decl,
        Event::PI(_) => Kind::PI,
        Event::Eof => Kind::Eof,
    }
}

/// Calls `quick_xml::events::BytesStart::name` on a start or empty element
/// tag, and the `Deref` of `quick_xml::events::Event` on any other event: the
/// bytes of the name of a tag, or of the content of another event. The
/// contract gives the result its name: the bytes that the event holds.
#[verifier::external_body]
fn event_bytes(event: &Event) -> (r: Vec<u8>)
    ensures
        r@ == held(*event).bytes,
{
    match event {
        Event::Start(e) | Event::Empty(e) => e.name().as_ref().to_vec(),
        other => other.to_vec(),
    }
}

/// Calls `quick_xml::events::BytesStart::attributes` on a start or empty
/// element tag and walks the attributes: for each one that is well formed
/// its name and its value, for each other one `None`. The contract gives the
/// result its name: the attributes that the event holds.
#[verifier::external_body]
fn event_attributes(event: &Event) -> (r: Vec<Option<(Vec<u8>, Vec<u8>)>>)
    ensures
        options_view(r@) == held(*event).attributes,
{
    match event {
        Event::Start(e) | Event::Empty(e) => e
            .attributes()
            .map(|a| a.ok().map(|a| (a.key.as_ref().to_vec(), a.value.to_vec())))
            .collect(),
        _ => Vec::new(),
    }
}

/// The views of a sequence of attributes of which some may be missing.
pub open spec fn options_view(raw: Seq<Option<(Vec<u8>, Vec<u8>)>>) -> Seq<
    Option<(Seq<u8>, Seq<u8>)>,
> {
    Seq::new(
        raw.len(),
        |i: int|
            match raw[i] {
                Some(pair) => Some((pair.0@, pair.1@)),
                None => None,
            },
    )
}

/// The attributes that are there, in their order.
pub open spec fn present(raw: Seq<Option<(Seq<u8>, Seq<u8>)>>) -> Seq<(Seq<u8>, Seq<u8>)>
    decreases raw.len(),
{
    if raw.len() == 0 {
        Seq::empty()
    } else {
        match raw.last() {
            Some(pair) => present(raw.drop_last()).push(pair),
            None => present(raw.drop_last()),
        }
    }
}

/// Keeps the attributes that are well formed and drops the places of the
/// others.
pub fn present_attributes(raw: Vec<Option<(Vec<u8>, Vec<u8>)>>) -> (r: Vec<(Vec<u8>, Vec<u8>)>)
    ensures
        pairs_view(r@) == present(options_view(raw@)),
{
    let ghost all = options_view(raw@);
    let mut raw = raw;
    let mut kept: Vec<(Vec<u8>, Vec<u8>)> = Vec::new();
    assert(all.skip(all.len() as int) =~= Seq::empty());
    while raw.len() > 0
        invariant
            raw@.len() <= all.len(),
            options_view(raw@) == all.take(raw@.len() as int),
            pairs_view(kept@).reverse() == present(all.skip(raw@.len() as int)),
        decreases raw@.len(),
    {
        let ghost n = raw@.len() as int;
        let ghost before = pairs_view(kept@);
        let last = raw.pop().unwrap();
        proof {
            assert(options_view(raw@) =~= all.take(n - 1));
            lemma_present_first(all.skip(n - 1));
            assert(all.skip(n - 1).skip(1) =~= all.skip(n));
            assert(all.skip(n - 1)[0] == all.take(n)[n - 1]);
        }
        if let Some(pair) = last {
            kept.push(pair);
            proof {
                assert(pairs_view(kept@) =~= before.push((pair.0@, pair.1@)));
                assert(before.push((pair.0@, pair.1@)).reverse() =~= seq![(pair.0@, pair.1@)]
                    + before.reverse());
            }
        }
    }
    assert(all.skip(0) =~= all);
    let mut r: Vec<(Vec<u8>, Vec<u8>)> = Vec::new();
    let ghost backwards = pairs_view(kept@);
    while kept.len() > 0
        invariant
            kept@.len() <= backwards.len(),
            pairs_view(kept@) == backwards.take(kept@.len() as int),
            pairs_view(r@) == backwards.skip(kept@.len() as int).reverse(),
        decreases kept@.len(),
    {
        let ghost n = kept@.len() as int;
        let ghost before = pairs_view(r@);
        let pair = kept.pop().unwrap();
        r.push(pair);
        proof {
            assert(pairs_view(kept@) =~= backwards.take(n - 1));
            assert(pairs_view(r@) =~= before.push((pair.0@, pair.1@)));
            assert((pair.0@, pair.1@) == backwards.take(n)[n - 1]);
            assert(backwards.skip(n - 1).reverse() =~= backwards.skip(n).reverse().push(
                backwards[n - 1],
            ));
        }
    }
    assert(backwards.skip(0) =~= backwards);
    r
}

/// The attributes that are there: those of the first place, then those of
/// the places behind it.
pub proof fn lemma_present_first(raw: Seq<Option<(Seq<u8>, Seq<u8>)>>)
    requires
        raw.len() > 0,
    ensures
        present(raw) == match raw[0] {
            Some(pair) => seq![pair] + present(raw.skip(1)),
            None => present(raw.skip(1)),
        },
    decreases raw.len(),
{
    if raw.len() == 1 {
        assert(raw.drop_last() =~= Seq::empty());
        assert(raw.skip(1) =~= Seq::empty());
        assert(present(raw.skip(1)) =~= Seq::empty());
        if let Some(pair) = raw[0] {
            assert(seq![pair] + Seq::empty() =~= Seq::empty().push(pair));
        }
    } else {
        lemma_present_first(raw.drop_last());
        assert(raw.drop_last().skip(1) =~= raw.skip(1).drop_last());
        assert(raw.drop_last()[0] == raw[0]);
        assert(raw.skip(1).last() == raw.last());
        let rest = present(raw.skip(1).drop_last());
        if let Some(pair) = raw[0] {
            if let Some(l) = raw.last() {
                assert((seq![pair] + rest).push(l) =~= seq![pair] + rest.push(l));
            }
        }
    }
}

/// The token that an event of the tokenizer stands for: of a tag its name
/// and those of its attributes that are well formed, of any other event its
/// content; none for the end of the text.
pub open spec fn token_of_raw(raw: RawToken) -> Option<TokenView> {
    match raw.kind {
        Kind::Start => Some(
            TokenView::Start { name: raw.bytes, attributes: present(raw.attributes) },
        ),
        Kind::Empty => Some(
            TokenView::Empty { name: raw.bytes, attributes: present(raw.attributes) },
        ),
        Kind::End => Some(TokenView::End { name: raw.bytes }),
        Kind::Text => Some(TokenView::Text(raw.bytes)),
        Kind::Comment => Some(TokenView::Comment(raw.bytes)),
        Kind::CData => Some(TokenView::CData(raw.bytes)),
        Kind::DocType => Some(TokenView::DocType(raw.bytes)),
        Kind::Decl => Some(TokenView::Decl(raw.bytes)),
        Kind::PI => Some(TokenView::PI(raw.bytes)),
        Kind::Eof => None,
    }
}

/// The tokens that events stand for, in the order of the events.
pub open spec fn tokens_of_raw(raws: Seq<RawToken>) -> Seq<TokenView>
    decreases raws.len(),
{
    if raws.len() == 0 {
        Seq::empty()
    } else {
        match token_of_raw(raws[0]) {
            Some(token) => seq![token] + tokens_of_raw(raws.skip(1)),
            None => tokens_of_raw(raws.skip(1)),
        }
    }
}

/// The tokens of a text: those that the events stand for which the
/// tokenizer reads from it, or the first error that the tokenizer reports.
pub open spec fn tokenized(text: Seq<char>, trim: bool) -> Result<Seq<TokenView>, XmlErrorView> {
    match scanned(text, trim) {
        Ok(raws) => Ok(tokens_of_raw(raws)),
        Err(e) => Err(e),
    }
}

/// The token that an event of the tokenizer stands for; none for the end of
/// the text.
fn token_of(event: &Event) -> (r: Option<Token>)
    ensures
        match r {
            Some(token) => token_of_raw(held(*event)) == Some(token@),
            None => token_of_raw(held(*event)) is None,
        },
{
    match event_kind(event) {
        Kind::Start => Some(
            Token::Start {
                name: event_bytes(event),
                attributes: present_attributes(event_attributes(event)),
            },
        ),
        Kind::Empty => Some(
            Token::Empty {
                name: event_bytes(event),
                attributes: present_attributes(event_attributes(event)),
            },
        ),
        Kind::End => Some(Token::End { name: event_bytes(event) }),
        Kind::Text => Some(Token::Text(event_bytes(event))),
        Kind::Comment => Some(Token::Comment(event_bytes(event))),
        Kind::CData => Some(Token::CData(event_bytes(event))),
        Kind::DocType => Some(Token::DocType(event_bytes(event))),
        Kind::Decl => Some(Token::Decl(event_bytes(event))),
        Kind::PI => Some(Token::PI(event_bytes(event))),
        Kind::Eof => None,
    }
}

/// Reads `xml` to its end and gives its tokens ([`tokenized`]), or the first
/// error that the tokenizer reports.
pub(crate) fn get_all_events(xml: &str, trim: bool) -> (r: Result<Vec<Token>, XmlError>)
    ensures
        match r {
            Ok(tokens) => tokenized(xml@, trim) == Ok::<Seq<TokenView>, XmlErrorView>(
                tokens_view(tokens@),
            ),
            Err(e) => tokenized(xml@, trim) == Err::<Seq<TokenView>, XmlErrorView>(e@),
        },
{
    let mut tokens: Vec<Token> = Vec::new();
    let mut reader = new_reader(xml, trim);
    let ghost all = pending(reader);
    let ghost due = failure(reader);
    assert(tokens_view(tokens@) + tokens_of_raw(all) =~= tokens_of_raw(all));
    loop
        invariant
            failure(reader) == due,
            tokens_of_raw(all) == tokens_view(tokens@) + tokens_of_raw(pending(reader)),
            scanned(xml@, trim) == match due {
                None => Ok::<Seq<RawToken>, XmlErrorView>(all),
                Some(e) => Err::<Seq<RawToken>, XmlErrorView>(e),
            },
        decreases pending(reader).len(),
    {
        let ghost before = pending(reader);
        let ghost done = tokens_view(tokens@);
        let event = match read_event(&mut reader) {
            Ok(event) => event,
            Err(e) => {
                return Err(e);
            },
        };
        match token_of(&event) {
            Some(token) => {
                tokens.push(token);
                proof {
                    assert(tokens_view(tokens@) =~= done.push(token@));
                    assert(done + (seq![token@] + tokens_of_raw(before.skip(1))) =~= done.push(
                        token@,
                    ) + tokens_of_raw(before.skip(1)));
                }
            },
            None => {
                proof {
                    assert(done + Seq::<TokenView>::empty() =~= done);
                }
                return Ok(tokens);
            },
        }
    }
}

} // verus!
