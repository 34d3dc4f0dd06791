//! The XML tokens that the codec reads, the escaping of text, and the errors
//! of decoding.
use vstd::prelude::*;
use hard_xml::xmlparser::{Token, Tokenizer};
use crate::error::VastParseError;

verus! {

/// The kinds of token that the codec tells apart. `Markup` stands for
/// declarations, processing instructions, comments and DTD parts; an
/// `ElementEnd` is `>`, `/>` or `</name>`.
#[derive(Debug, Clone, Copy, PartialEq, Eq, Structural)]
pub enum TokenKind {
    ElementStart,
    Attribute,
    ElementEnd,
    Text,
    Cdata,
    Markup,
}

/// One token: its kind, the source text it spans, and, for an attribute, its
/// raw value.
#[derive(Debug)]
pub struct XmlToken {
    pub kind: TokenKind,
    pub span: String,
    pub value: String,
}

impl View for XmlToken {
    type V = (TokenKind, Seq<char>, Seq<char>);

    open spec fn view(&self) -> (TokenKind, Seq<char>, Seq<char>) {
        (self.kind, self.span@, self.value@)
    }
}

/// The tokens of a text, in order, up to the first place where the tokenizer
/// refused it; `failure` holds its message then.
pub struct Tokens {
    pub items: Vec<XmlToken>,
    pub failure: Option<String>,
}

/// The tokens that the tokenizer yields for `text`, and its message where it
/// stopped on an error.
pub uninterp spec fn xml_tokens(text: Seq<char>) -> (Seq<(TokenKind, Seq<char>, Seq<char>)>, Option<Seq<char>>);

impl Tokens {
    pub open spec fn views(&self) -> Seq<(TokenKind, Seq<char>, Seq<char>)> {
        self.items@.map_values(|t: XmlToken| t@)
    }

    /// The tokenizer's message, where it failed.
    pub open spec fn failure_view(&self) -> Option<Seq<char>> {
        match self.failure {
            Some(m) => Some(m@),
            None => None,
        }
    }

    /// Relies on `xmlparser::Tokenizer` (re-exported by hard_xml): the tokens
    /// of `text` in order, and the tokenizer's message where it stopped on an
    /// error (it yields nothing after one).
    #[verifier::external_body]
    pub(crate) fn tokenize(text: &str) -> (r: Tokens)
        ensures
            r.views() == xml_tokens(text@).0,
            r.failure matches Some(m) ==> xml_tokens(text@).1 == Some(m@),
            r.failure is None ==> xml_tokens(text@).1 is None,
    {
        let mut items = Vec::new();
        for t in Tokenizer::from(text) {
            let t = match t { Ok(t) => t, Err(e) => return Tokens { items, failure: Some(e.to_string()) } };
            let (kind, value) = match t {
                Token::Attribute { value, .. } => (TokenKind::Attribute, value.as_str()),
                Token::ElementStart { .. } => (TokenKind::ElementStart, ""),
                Token::ElementEnd { .. } => (TokenKind::ElementEnd, ""),
                Token::Text { .. } => (TokenKind::Text, ""),
                Token::Cdata { .. } => (TokenKind::Cdata, ""),
                _ => (TokenKind::Markup, ""),
            };
            items.push(XmlToken { kind, span: t.span().as_str().to_string(), value: value.to_string() });
        }
        Tokens { items, failure: None }
    }
}

/// Why a document could not be decoded.
#[derive(Debug)]
pub enum DecodeError {
    /// The text is not well-formed XML; the tokenizer's message.
    Parser(String),
    /// The text ended inside an element.
    UnexpectedEof,
    /// A token stood where the element's structure allows none of its kind.
    UnexpectedToken { token: String },
    /// A closing tag did not match the element that was open.
    TagMismatch { expected: String, found: String },
    /// A required attribute or child element is missing.
    MissingField { name: String, field: String },
    /// An attribute or child element that the element does not have.
    UnknownField { name: String, field: String },
    /// An attribute given twice.
    DuplicateAttribute { name: String },
    /// A child element given twice where one at most is allowed.
    DuplicateElement { name: String },
    /// An entity reference in text that could not be resolved.
    Entity { message: String },
    /// A value that its scalar codec could not read.
    FromStr(VastParseError),
}

/// `s` with the five characters that XML reserves written as entities.
pub open spec fn escape_spec(s: Seq<char>) -> Seq<char>
    decreases s.len(),
{
    if s.len() == 0 {
        s
    } else {
        escape_spec(s.drop_last()) + escape_char(s.last())
    }
}

pub open spec fn escape_char(c: char) -> Seq<char> {
    if c == '<' {
        seq!['&', 'l', 't', ';']
    } else if c == '>' {
        seq!['&', 'g', 't', ';']
    } else if c == '&' {
        seq!['&', 'a', 'm', 'p', ';']
    } else if c == '\'' {
        seq!['&', 'a', 'p', 'o', 's', ';']
    } else if c == '"' {
        seq!['&', 'q', 'u', 'o', 't', ';']
    } else {
        seq![c]
    }
}

/// Relies on `hard_xml::utils::xml_escape`: each of `<`, `>`, `&`, `'`, `"`
/// becomes its entity, every other character stays.
#[verifier::external_body]
pub(crate) fn escape(s: &str) -> (r: String)
    ensures
        r@ == escape_spec(s@),
{
    hard_xml::utils::xml_escape(s).into_owned()
}

/// What `hard_xml::utils::xml_unescape` makes of `s`: the text with its entity
/// references resolved, or `None` where one cannot be.
pub uninterp spec fn unescaped(s: Seq<char>) -> Option<Seq<char>>;

/// Relies on `hard_xml::utils::xml_unescape`: the text with its entity
/// references resolved, or the error it reports on one it cannot resolve.
#[verifier::external_body]
pub(crate) fn unescape(s: &str) -> (r: Result<String, DecodeError>)
    ensures
        r is Ok <==> unescaped(s@) is Some,
        r matches Ok(v) ==> unescaped(s@) == Some(v@),
{
    match hard_xml::utils::xml_unescape(s) {
        Ok(v) => Ok(v.into_owned()),
        Err(e) => Err(DecodeError::Entity { message: e.to_string() }),
    }
}

} // verus!
