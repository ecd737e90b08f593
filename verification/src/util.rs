use crate::error::{XmlError, XmlErrorView};
use crate::item::{items_view, Item, ItemView};
use crate::laws::{all_well_formed, lemma_document_well_formed};
use crate::reader::{get_all_events, tokenized};
use crate::render::items_text;
use crate::token::{tokens_view, Token};
use crate::tree::{document_of, from_events};
use vstd::prelude::*;
use vstd::string::*;

verus! {

/// Writes a list of items as XML text: the texts of the items, one after the
/// other.
pub fn stringify(xml: &Vec<Item>) -> (r: String)
    ensures
        r@ == items_text(xml@),
    decreases xml,
{
    let mut result = String::new();
    let mut i: usize = 0;
    while i < xml.len()
        invariant
            i <= xml@.len(),
            result@ == items_text(xml@.take(i as int)),
        decreases xml@.len() - i,
    {
        proof {
            assert(xml@.take(i + 1).drop_last() =~= xml@.take(i as int));
        }
        result.append(xml[i].to_string().as_str());
        i += 1;
    }
    proof {
        assert(xml@.take(i as int) =~= xml@);
    }
    result
}

/// What a text parses to: the document of its tokens ([`tokenized`],
/// [`document_of`]), or the first error that the tokenizer reports of it.
pub open spec fn parsed(text: Seq<char>, trim: bool) -> Result<Seq<ItemView>, XmlErrorView> {
    match tokenized(text, trim) {
        Ok(tokens) => document_of(tokens),
        Err(e) => Err(e),
    }
}

/// The result of a parse, as mathematical values.
pub open spec fn outcome(r: Result<Vec<Item>, XmlError>) -> Result<Seq<ItemView>, XmlErrorView> {
    match r {
        Ok(items) => Ok(items_view(items@)),
        Err(e) => Err(e@),
    }
}

/// The document that the tokens of a text stand for, or the error of the
/// tokenizer where it reports one.
pub fn document(tokenized: Result<Vec<Token>, XmlError>) -> (r: Result<Vec<Item>, XmlError>)
    ensures
        match tokenized {
            Ok(tokens) => outcome(r) == document_of(tokens_view(tokens@)),
            Err(e) => r matches Err(same) && same@ == e@,
        },
        r matches Ok(items) ==> all_well_formed(items_view(items@)),
{
    match tokenized {
        Ok(tokens) => {
            proof {
                lemma_document_well_formed(tokens_view(tokens@));
            }
            from_events(tokens.as_slice())
        },
        Err(e) => Err(e),
    }
}

/// Parses XML text into its items. Text between tags is kept as it stands.
///
/// The text is cut into tokens, with nothing trimmed, and the tokens are
/// built into items ([`parsed`]). An error is what the tokenizer reports of
/// the text, or what the tokens that it gave do not allow.
pub fn parse(value: &str) -> (r: Result<Vec<Item>, XmlError>)
    ensures
        outcome(r) == parsed(value@, false),
        r matches Ok(items) ==> all_well_formed(items_view(items@)),
{
    let tokenized = get_all_events(value, false);
    document(tokenized)
}

/// Parses XML text into its items. White space around the text between tags
/// is trimmed away, and text that is nothing else gives no item.
///
/// The text is cut into tokens by the tokenizer set to trim, and the tokens
/// are built into items ([`parsed`]).
pub fn parse_trimmed(value: &str) -> (r: Result<Vec<Item>, XmlError>)
    ensures
        outcome(r) == parsed(value@, true),
        r matches Ok(items) ==> all_well_formed(items_view(items@)),
{
    let tokenized = get_all_events(value, true);
    document(tokenized)
}

} // verus!
