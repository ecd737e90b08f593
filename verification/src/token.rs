use vstd::prelude::*;

verus! {

/// One lexical unit of a document, with its names and payloads as the bytes
/// of the text, not yet decoded.
#[derive(Debug, Clone, PartialEq, Eq)]
pub enum Token {
    /// Start tag `<tag attr="value">`, with its attributes in the order of
    /// the text.
    Start { name: Vec<u8>, attributes: Vec<(Vec<u8>, Vec<u8>)> },
    /// End tag `</tag>`.
    End { name: Vec<u8> },
    /// Empty element tag `<tag attr="value" />`.
    Empty { name: Vec<u8>, attributes: Vec<(Vec<u8>, Vec<u8>)> },
    /// Escaped character data between tags.
    Text(Vec<u8>),
    /// Comment `<!-- ... -->`.
    Comment(Vec<u8>),
    /// Unescaped character data stored in `<![CDATA[...]]>`.
    CData(Vec<u8>),
    /// Document type definition data stored in `<!DOCTYPE ...>`.
    DocType(Vec<u8>),
    /// XML declaration `<?xml ...?>`.
    Decl(Vec<u8>),
    /// Processing instruction `<?...?>`.
    PI(Vec<u8>),
}

/// What an [`Token`] holds, as mathematical values.
pub enum TokenView {
    Start { name: Seq<u8>, attributes: Seq<(Seq<u8>, Seq<u8>)> },
    End { name: Seq<u8> },
    Empty { name: Seq<u8>, attributes: Seq<(Seq<u8>, Seq<u8>)> },
    Text(Seq<u8>),
    Comment(Seq<u8>),
    CData(Seq<u8>),
    DocType(Seq<u8>),
    Decl(Seq<u8>),
    PI(Seq<u8>),
}

/// The views of a sequence of pairs of byte strings.
pub open spec fn pairs_view(pairs: Seq<(Vec<u8>, Vec<u8>)>) -> Seq<(Seq<u8>, Seq<u8>)> {
    Seq::new(pairs.len(), |i: int| (pairs[i].0@, pairs[i].1@))
}

impl View for Token {
    type V = TokenView;

    open spec fn view(&self) -> TokenView {
        match *self {
            Token::Start { name, attributes } => TokenView::Start {
                name: name@,
                attributes: pairs_view(attributes@),
            },
            Token::End { name } => TokenView::End { name: name@ },
            Token::Empty { name, attributes } => TokenView::Empty {
                name: name@,
                attributes: pairs_view(attributes@),
            },
            Token::Text(b) => TokenView::Text(b@),
            Token::Comment(b) => TokenView::Comment(b@),
            Token::CData(b) => TokenView::CData(b@),
            Token::DocType(b) => TokenView::DocType(b@),
            Token::Decl(b) => TokenView::Decl(b@),
            Token::PI(b) => TokenView::PI(b@),
        }
    }
}

/// The views of a sequence of tokens.
pub open spec fn tokens_view(tokens: Seq<Token>) -> Seq<TokenView> {
    Seq::new(tokens.len(), |i: int| tokens[i]@)
}

} // verus!
