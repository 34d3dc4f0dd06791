//! Reading elements from a token sequence: finding an element's start, its
//! attributes, its children and its text, and skipping an element whole.
use vstd::prelude::*;
use crate::text::str_eq;
use crate::xml::{DecodeError, TokenKind, Tokens, XmlToken, unescape, unescaped};

verus! {

/// The name in an element's start token `<name`.
pub open spec fn start_name(span: Seq<char>) -> Seq<char> {
    if span.len() >= 1 {
        span.subrange(1, span.len() as int)
    } else {
        Seq::<char>::empty()
    }
}

/// The name in a closing tag `</name>`.
pub open spec fn close_name(span: Seq<char>) -> Seq<char> {
    if span.len() >= 3 {
        span.subrange(2, span.len() - 1)
    } else {
        Seq::<char>::empty()
    }
}

/// The inner text of a CDATA section `<![CDATA[text]]>`.
pub open spec fn cdata_text(span: Seq<char>) -> Seq<char> {
    if span.len() >= 12 {
        span.subrange(9, span.len() - 3)
    } else {
        Seq::<char>::empty()
    }
}

/// The name of an attribute token `key="value"`: its span without the quoted
/// raw value and the `=`.
pub open spec fn attr_key(span: Seq<char>, value: Seq<char>) -> Seq<char> {
    if span.len() >= value.len() + 3 {
        span.subrange(0, span.len() - value.len() - 3)
    } else {
        Seq::<char>::empty()
    }
}

/// An element end that closes the start tag and opens the content: `>`.
pub open spec fn is_open_end(span: Seq<char>) -> bool {
    span == seq!['>']
}

/// An element end that closes an empty element: `/>`.
pub open spec fn is_empty_end(span: Seq<char>) -> bool {
    span == seq!['/', '>']
}

/// An element end that is a closing tag.
pub open spec fn is_close_end(span: Seq<char>) -> bool {
    !is_open_end(span) && !is_empty_end(span)
}

impl Tokens {
    pub open spec fn len(&self) -> int {
        self.items@.len() as int
    }

    pub open spec fn kind(&self, i: int) -> TokenKind {
        self.items@[i].kind
    }

    pub open spec fn span(&self, i: int) -> Seq<char> {
        self.items@[i].span@
    }

    /// The error for running out of tokens: the tokenizer's, where it
    /// stopped on one, else the end of the input.
    pub open spec fn is_end_error(&self, e: DecodeError) -> bool {
        match self.failure {
            Some(m) => e matches DecodeError::Parser(x) && x@ == m@,
            None => e is UnexpectedEof,
        }
    }

    /// The name of attribute token `i`.
    pub open spec fn key(&self, i: int) -> Seq<char> {
        attr_key(self.span(i), self.items@[i].value@)
    }

    /// The raw value of the last attribute named `key` among tokens after `s`
    /// and before `e`.
    pub open spec fn attr_raw(&self, s: int, e: int, key: Seq<char>) -> Option<Seq<char>>
        decreases e - s,
    {
        if e - 1 <= s {
            None
        } else if self.kind(e - 1) == TokenKind::Attribute && self.key(e - 1) == key {
            Some(self.items@[e - 1].value@)
        } else {
            self.attr_raw(s, e - 1, key)
        }
    }

    /// The value, its entity references resolved, of the attribute named
    /// `key` among tokens after `s` and before `e`.
    pub open spec fn attr_text(&self, s: int, e: int, key: Seq<char>) -> Option<Seq<char>> {
        match self.attr_raw(s, e, key) {
            Some(raw) => unescaped(raw),
            None => None,
        }
    }

    /// The text that token `i` adds to an element's text content: a text
    /// token with its entity references resolved, or the inside of a CDATA
    /// section; nothing for any other token.
    pub open spec fn text_piece(&self, i: int) -> Seq<char> {
        if self.kind(i) == TokenKind::Text {
            match unescaped(self.span(i)) {
                Some(v) => v,
                None => Seq::<char>::empty(),
            }
        } else if self.kind(i) == TokenKind::Cdata {
            cdata_text(self.span(i))
        } else {
            Seq::<char>::empty()
        }
    }

    /// The text content of tokens `a` up to `b`.
    pub open spec fn text_of(&self, a: int, b: int) -> Seq<char>
        decreases b - a,
    {
        if b <= a {
            Seq::<char>::empty()
        } else {
            self.text_of(a, b - 1) + self.text_piece(b - 1)
        }
    }

    /// Tokens `s` to `e` are a start tag of an element named `tag`: its
    /// start, attributes, then `>` or `/>`.
    pub open spec fn start_tag(&self, s: int, e: int, tag: Seq<char>) -> bool {
        &&& self.starts(s, tag)
        &&& s < e < self.len()
        &&& self.kind(e) == TokenKind::ElementEnd
        &&& !is_close_end(self.span(e))
        &&& forall|i: int| s < i < e ==> #[trigger] self.kind(i) == TokenKind::Attribute
    }

    /// Attribute token `i` can be read: its span holds its quoted value, and
    /// the value's entity references resolve.
    pub open spec fn attr_readable(&self, i: int) -> bool {
        self.span(i).len() >= self.items@[i].value@.len() + 3 && unescaped(self.items@[i].value@) is Some
    }

    /// The first token from `i` on that is not an attribute, or the end.
    pub open spec fn attrs_end(&self, i: int) -> int
        decreases self.len() - i,
    {
        if i < 0 || i >= self.len() {
            self.len()
        } else if self.kind(i) == TokenKind::Attribute {
            self.attrs_end(i + 1)
        } else {
            i
        }
    }

    /// Skipping the content of an element named `tag` from token `i`, `depth`
    /// elements of that name deep, `in_start` inside the start tag of a nested
    /// one: the position after the closing tag that ends it, or `None`.
    pub open spec fn skip_depth(&self, i: int, depth: int, in_start: bool, tag: Seq<char>) -> Option<int>
        decreases self.len() - i,
    {
        if i < 0 || i >= self.len() {
            None
        } else if in_start {
            if self.kind(i) == TokenKind::Attribute {
                self.skip_depth(i + 1, depth, true, tag)
            } else if self.kind(i) == TokenKind::ElementEnd && is_empty_end(self.span(i)) {
                self.skip_depth(i + 1, depth, false, tag)
            } else if self.kind(i) == TokenKind::ElementEnd && is_open_end(self.span(i)) {
                self.skip_depth(i + 1, depth + 1, false, tag)
            } else {
                None
            }
        } else if self.starts(i, tag) {
            self.skip_depth(i + 1, depth, true, tag)
        } else if self.kind(i) == TokenKind::ElementEnd && is_close_end(self.span(i)) && close_name(
            self.span(i),
        ) == tag {
            if depth <= 1 {
                Some(i + 1)
            } else {
                self.skip_depth(i + 1, depth - 1, false, tag)
            }
        } else {
            self.skip_depth(i + 1, depth, false, tag)
        }
    }

    /// Skipping the rest of an element named `tag` whose start token is
    /// before `i`: its attributes, then `/>`, or `>` and its content.
    pub open spec fn to_end(&self, i: int, tag: Seq<char>) -> Option<int>
        decreases self.len() - i,
    {
        if i < 0 || i >= self.len() {
            None
        } else if self.kind(i) == TokenKind::Attribute {
            self.to_end(i + 1, tag)
        } else if self.kind(i) == TokenKind::ElementEnd && is_empty_end(self.span(i)) {
            Some(i + 1)
        } else if self.kind(i) == TokenKind::ElementEnd && is_open_end(self.span(i)) {
            self.skip_depth(i + 1, 1, false, tag)
        } else {
            None
        }
    }

    /// Finding the start of the next element named `tag` from token `i`,
    /// passing over markup and whole elements of other names: the position
    /// after its start token, the end where the tokens run out, or `None`
    /// where something else stands in the way or the tokenizer failed.
    pub open spec fn till_start(&self, i: int, tag: Seq<char>) -> Option<int>
        decreases self.len() - i,
    {
        if i < 0 || i >= self.len() {
            if self.failure is Some {
                None
            } else {
                Some(self.len())
            }
        } else if self.kind(i) == TokenKind::ElementStart {
            if start_name(self.span(i)) == tag {
                Some(i + 1)
            } else {
                match self.to_end(i + 1, start_name(self.span(i))) {
                    Some(j) => if i < j <= self.len() {
                        self.till_start(j, tag)
                    } else {
                        None
                    },
                    None => None,
                }
            }
        } else if self.kind(i) == TokenKind::Markup {
            self.till_start(i + 1, tag)
        } else {
            None
        }
    }

    /// Reading an element named `tag` from token `pos` fails at its start
    /// tag: `till_start` finds none, or fails; or the start tag does not end
    /// with `>` or `/>`; or one of its attributes cannot be read.
    pub open spec fn start_malformed(&self, pos: int, tag: Seq<char>) -> bool {
        match self.till_start(pos, tag) {
            None => true,
            Some(a) => {
                let e = self.attrs_end(a);
                ||| e >= self.len()
                ||| self.kind(e) != TokenKind::ElementEnd
                ||| is_close_end(self.span(e))
                ||| exists|i: int| a <= i < e && !#[trigger] self.attr_readable(i)
            },
        }
    }

    /// Token `i` is passed over between child elements: text, CDATA or
    /// markup.
    pub open spec fn skippable(&self, i: int) -> bool {
        self.kind(i) == TokenKind::Text || self.kind(i) == TokenKind::Cdata || self.kind(i)
            == TokenKind::Markup
    }

    /// Whether token `i` is the start of an element named `tag`.
    pub open spec fn starts(&self, i: int, tag: Seq<char>) -> bool {
        0 <= i < self.len() && self.kind(i) == TokenKind::ElementStart && start_name(self.span(i))
            == tag
    }
}

fn sub_name(span: &str, skip: usize, trailing: usize) -> (r: String)
    ensures
        r@ == if span@.len() >= skip + trailing {
            span@.subrange(skip as int, span@.len() - trailing)
        } else {
            Seq::<char>::empty()
        },
{
    let n = span.unicode_len();
    if n >= skip && n - skip >= trailing {
        String::from_str(span.substring_char(skip, n - trailing))
    } else {
        String::new()
    }
}

/// `attrs_end` lies between its start and the end of the tokens.
pub proof fn lemma_attrs_end_bounds(t: &Tokens, i: int)
    requires
        0 <= i <= t.len(),
    ensures
        i <= t.attrs_end(i) <= t.len(),
        i < t.len() && t.kind(i) == TokenKind::Attribute ==> t.attrs_end(i) == t.attrs_end(i + 1),
        i < t.len() && t.kind(i) != TokenKind::Attribute ==> t.attrs_end(i) == i,
    decreases t.len() - i,
{
    if i < t.len() && t.kind(i) == TokenKind::Attribute {
        lemma_attrs_end_bounds(t, i + 1);
    }
}

/// The name of an element start token.
pub fn start_name_of(tok: &XmlToken) -> (r: String)
    ensures
        r@ == start_name(tok.span@),
{
    sub_name(tok.span.as_str(), 1, 0)
}

/// The name of a closing tag.
pub fn close_name_of(tok: &XmlToken) -> (r: String)
    ensures
        r@ == close_name(tok.span@),
{
    sub_name(tok.span.as_str(), 2, 1)
}

/// The inner text of a CDATA token.
pub fn cdata_text_of(tok: &XmlToken) -> (r: String)
    ensures
        r@ == cdata_text(tok.span@),
{
    sub_name(tok.span.as_str(), 9, 3)
}

pub fn is_open_end_of(tok: &XmlToken) -> (r: bool)
    ensures
        r == is_open_end(tok.span@),
{
    proof {
        reveal_strlit(">");
    }
    let r = str_eq(tok.span.as_str(), ">");
    assert(">"@ =~= seq!['>']);
    r
}

pub fn is_empty_end_of(tok: &XmlToken) -> (r: bool)
    ensures
        r == is_empty_end(tok.span@),
{
    proof {
        reveal_strlit("/>");
    }
    let r = str_eq(tok.span.as_str(), "/>");
    assert("/>"@ =~= seq!['/', '>']);
    r
}

/// The error for running out of tokens.
pub fn end_error(t: &Tokens) -> (e: DecodeError)
    ensures
        t.is_end_error(e),
{
    match &t.failure {
        Some(m) => DecodeError::Parser(m.clone()),
        None => DecodeError::UnexpectedEof,
    }
}

/// The error for a token that the structure does not allow where it stands.
pub fn unexpected(tok: &XmlToken) -> (e: DecodeError)
    ensures
        e matches DecodeError::UnexpectedToken { token } && token@ == tok.span@,
{
    DecodeError::UnexpectedToken { token: tok.span.clone() }
}

/// Skips the rest of an element named `tag` whose start token has been read:
/// its attributes, then either `/>` or all content up to the matching closing
/// tag, counting nested elements of the same name.
pub fn read_to_end(t: &Tokens, pos: usize, tag: &str) -> (r: Result<usize, DecodeError>)
    requires
        pos <= t.len(),
    ensures
        r matches Ok(q) ==> pos < q <= t.len(),
        r is Ok <==> t.to_end(pos as int, tag@) is Some,
        r matches Ok(q) ==> t.to_end(pos as int, tag@) == Some(q as int),
{
    let n = t.items.len();
    let mut i = pos;
    loop
        invariant_except_break
            t.to_end(pos as int, tag@) == t.to_end(i as int, tag@),
        invariant
            n == t.len(),
            pos <= i <= n,
        ensures
            pos < i <= n,
            t.to_end(pos as int, tag@) == t.skip_depth(i as int, 1, false, tag@),
        decreases n - i,
    {
        if i >= n {
            return Err(end_error(t));
        }
        let tok = &t.items[i];
        match tok.kind {
            TokenKind::ElementEnd => {
                if is_empty_end_of(tok) {
                    return Ok(i + 1);
                } else if is_open_end_of(tok) {
                    i = i + 1;
                    break;
                } else {
                    return Err(unexpected(tok));
                }
            },
            TokenKind::Attribute => {
                i = i + 1;
            },
            _ => {
                return Err(unexpected(tok));
            },
        }
    }
    let mut depth: usize = 1;
    while i < n
        invariant
            n == t.len(),
            pos < i <= n,
            1 <= depth <= i,
            t.to_end(pos as int, tag@) == t.skip_depth(i as int, depth as int, false, tag@),
        decreases n - i,
    {
        let tok = &t.items[i];
        i = i + 1;
        if tok.kind == TokenKind::ElementStart && str_eq(start_name_of(tok).as_str(), tag) {
            let ghost i0 = i;
            while i < n
                invariant_except_break
                    t.to_end(pos as int, tag@) == t.skip_depth(i as int, depth as int, true, tag@),
                invariant
                    n == t.len(),
                    pos < i0 <= i <= n,
                    1 <= depth < i,
                ensures
                    pos < i0 <= i <= n,
                    1 <= depth <= i,
                    t.to_end(pos as int, tag@) == t.skip_depth(i as int, depth as int, false, tag@),
                decreases n - i,
            {
                let inner = &t.items[i];
                i = i + 1;
                match inner.kind {
                    TokenKind::ElementEnd => {
                        if is_empty_end_of(inner) {
                            break;
                        } else if is_open_end_of(inner) {
                            depth = depth + 1;
                            break;
                        } else {
                            return Err(unexpected(inner));
                        }
                    },
                    TokenKind::Attribute => {},
                    _ => {
                        return Err(unexpected(inner));
                    },
                }
            }
        } else if tok.kind == TokenKind::ElementEnd && !is_open_end_of(tok) && !is_empty_end_of(tok)
            && str_eq(close_name_of(tok).as_str(), tag) {
            depth = depth - 1;
            if depth == 0 {
                return Ok(i);
            }
        }
    }
    Err(end_error(t))
}

/// Reads up to and including the start token of the next element named
/// `tag`, skipping markup and whole elements of other names. Where the tokens
/// run out first, the position is their end.
pub fn read_till_element_start(t: &Tokens, pos: usize, tag: &str) -> (r: Result<usize, DecodeError>)
    requires
        pos <= t.len(),
    ensures
        r is Ok <==> t.till_start(pos as int, tag@) is Some,
        r matches Ok(q) ==> t.till_start(pos as int, tag@) == Some(q as int),
        r matches Ok(q) ==> pos <= q <= t.len() && (q == t.len() || (pos < q && t.starts(
            q - 1,
            tag@,
        ))),
{
    let n = t.items.len();
    let mut i = pos;
    while i < n
        invariant
            n == t.len(),
            pos <= i <= n,
            t.till_start(pos as int, tag@) == t.till_start(i as int, tag@),
        decreases n - i,
    {
        let tok = &t.items[i];
        match tok.kind {
            TokenKind::ElementStart => {
                let name = start_name_of(tok);
                if str_eq(name.as_str(), tag) {
                    return Ok(i + 1);
                }
                i = read_to_end(t, i + 1, name.as_str())?;
            },
            TokenKind::Markup => {
                i = i + 1;
            },
            _ => {
                return Err(unexpected(tok));
            },
        }
    }
    match &t.failure {
        Some(m) => Err(DecodeError::Parser(m.clone())),
        None => Ok(n),
    }
}

/// Looks at the next token of a start tag: an attribute is read, with its
/// value's entity references resolved; `>` or `/>` ends the attributes and is
/// left in place.
pub fn find_attribute(t: &Tokens, pos: usize) -> (r: Result<(Option<(String, String)>, usize), DecodeError>)
    requires
        pos <= t.len(),
    ensures
        r matches Ok((None, q)) ==> q == pos && pos < t.len() && t.kind(pos as int)
            == TokenKind::ElementEnd && !is_close_end(t.span(pos as int)),
        r matches Ok((Some((key, value)), q)) ==> q == pos + 1 && pos < t.len() && t.kind(pos as int)
            == TokenKind::Attribute && key@ == t.key(pos as int) && unescaped(
            t.items@[pos as int].value@,
        ) == Some(value@),
        pos == t.len() ==> (r matches Err(e) && t.is_end_error(e)),
        r is Ok <==> pos < t.len() && ((t.kind(pos as int) == TokenKind::Attribute && t.attr_readable(
            pos as int,
        )) || (t.kind(pos as int) == TokenKind::ElementEnd && !is_close_end(t.span(pos as int)))),
{
    if pos >= t.items.len() {
        return Err(end_error(t));
    }
    let tok = &t.items[pos];
    match tok.kind {
        TokenKind::Attribute => {
            let sn = tok.span.as_str().unicode_len();
            let vn = tok.value.as_str().unicode_len();
            if sn < 3 || sn - 3 < vn {
                return Err(unexpected(tok));
            }
            let key = String::from_str(tok.span.as_str().substring_char(0, sn - 3 - vn));
            let value = unescape(tok.value.as_str())?;
            Ok((Some((key, value)), pos + 1))
        },
        TokenKind::ElementEnd => {
            if is_open_end_of(tok) || is_empty_end_of(tok) {
                Ok((None, pos))
            } else {
                Err(unexpected(tok))
            }
        },
        _ => Err(unexpected(tok)),
    }
}

/// Looks for the next child element inside an element named `end_tag`,
/// skipping text, CDATA and markup: the name of a child's start token, which
/// is left in place, or `None` after the element's own closing tag.
pub fn find_element_start(t: &Tokens, pos: usize, end_tag: &str) -> (r: Result<(Option<String>, usize), DecodeError>)
    requires
        pos <= t.len(),
    ensures
        r matches Ok((Some(name), q)) ==> pos <= q < t.len() && t.starts(q as int, name@),
        r matches Ok((None, q)) ==> pos < q <= t.len(),
        r matches Ok((Some(_), q)) ==> forall|i: int| pos <= i < q ==> #[trigger] t.skippable(i),
        r matches Ok((None, q)) ==> (forall|i: int| pos <= i < q - 1 ==> #[trigger] t.skippable(i))
            && t.kind(q - 1) == TokenKind::ElementEnd && is_close_end(t.span(q - 1)),
{
    let n = t.items.len();
    let mut i = pos;
    while i < n
        invariant
            n == t.len(),
            pos <= i <= n,
            forall|k: int| pos <= k < i ==> #[trigger] t.skippable(k),
        decreases n - i,
    {
        let tok = &t.items[i];
        match tok.kind {
            TokenKind::ElementStart => {
                return Ok((Some(start_name_of(tok)), i));
            },
            TokenKind::ElementEnd => {
                if is_open_end_of(tok) || is_empty_end_of(tok) {
                    return Err(unexpected(tok));
                }
                let name = close_name_of(tok);
                if str_eq(name.as_str(), end_tag) {
                    return Ok((None, i + 1));
                }
                return Err(DecodeError::TagMismatch { expected: String::from_str(end_tag), found: name });
            },
            TokenKind::Attribute => {
                return Err(unexpected(tok));
            },
            _ => {
                i = i + 1;
            },
        }
    }
    Err(end_error(t))
}

/// Reads the text content of an element named `end_tag` up to its closing
/// tag (or `/>`): text with its entity references resolved and the insides of
/// CDATA sections, joined; the rest of the start tag is passed over.
pub fn read_text(t: &Tokens, pos: usize, end_tag: &str) -> (r: Result<(String, usize), DecodeError>)
    requires
        pos <= t.len(),
    ensures
        r matches Ok((_, q)) ==> pos <= q <= t.len() && (pos < t.len() ==> pos < q),
        r matches Ok((x, q)) ==> x@ == t.text_of(pos as int, q as int),
{
    let n = t.items.len();
    let mut i = pos;
    let mut res = String::new();
    while i < n
        invariant
            n == t.len(),
            pos <= i <= n,
            res@ == t.text_of(pos as int, i as int),
        decreases n - i,
    {
        let tok = &t.items[i];
        let ghost before = res@;
        i = i + 1;
        match tok.kind {
            TokenKind::Attribute => {},
            TokenKind::Text => {
                let text = unescape(tok.span.as_str())?;
                res.append(text.as_str());
            },
            TokenKind::Cdata => {
                let text = cdata_text_of(tok);
                res.append(text.as_str());
            },
            TokenKind::ElementEnd => {
                assert(res@ =~= t.text_of(pos as int, i as int));
                if is_empty_end_of(tok) {
                    return Ok((res, i));
                } else if !is_open_end_of(tok) {
                    let name = close_name_of(tok);
                    if str_eq(name.as_str(), end_tag) {
                        return Ok((res, i));
                    }
                    return Err(DecodeError::TagMismatch { expected: String::from_str(end_tag), found: name });
                }
            },
            _ => {
                return Err(unexpected(tok));
            },
        }
        assert(res@ =~= before + t.text_piece(i - 1));
    }
    match &t.failure {
        Some(m) => Err(DecodeError::Parser(m.clone())),
        None => Ok((res, n)),
    }
}

} // verus!
