//! Verbatim capture: the content of an element kept as the source text it
//! was written in, whatever its structure.
use vstd::prelude::*;
use crate::text::str_eq;
use crate::xml::{DecodeError, TokenKind, Tokens};
use crate::reader::{
    lemma_attrs_end_bounds, close_name, is_open_end, is_close_end, close_name_of, is_open_end_of,
    is_empty_end_of, unexpected, find_attribute, read_till_element_start,
};
use crate::writer::{
    start_tag, attribute, end_tag, write_start, write_attribute, write_open_end, write_end,
};

verus! {

/// The source text that token `i` adds to a capture: its span, after a space
/// for an attribute (whose span leaves out the space before it).
pub open spec fn piece(t: &Tokens, i: int) -> Seq<char> {
    if t.kind(i) == TokenKind::Attribute {
        seq![' '] + t.span(i)
    } else {
        t.span(i)
    }
}

/// How token `i` changes the nesting depth: `>` opens an element, a closing
/// tag closes one.
pub open spec fn depth_step(t: &Tokens, i: int) -> int {
    if t.kind(i) == TokenKind::ElementEnd && is_open_end(t.span(i)) {
        1
    } else if t.kind(i) == TokenKind::ElementEnd && is_close_end(t.span(i)) {
        -1
    } else {
        0
    }
}

/// Whether token `i` ends a capture of an element named `tag` at depth `d`:
/// a closing tag of that name at depth zero.
pub open spec fn ends_capture(t: &Tokens, i: int, d: int, tag: Seq<char>) -> bool {
    t.kind(i) == TokenKind::ElementEnd && is_close_end(t.span(i)) && d == 0 && close_name(
        t.span(i),
    ) == tag
}

/// The position of the token that ends a capture begun at `i` with depth `d`,
/// or the end of the tokens.
pub open spec fn capture_end(t: &Tokens, i: int, d: int, tag: Seq<char>) -> int
    decreases t.len() - i,
{
    if i < 0 || i >= t.len() {
        t.len()
    } else if ends_capture(t, i, d, tag) {
        i
    } else {
        capture_end(t, i + 1, d + depth_step(t, i), tag)
    }
}

proof fn lemma_capture_end_bounds(t: &Tokens, i: int, d: int, tag: Seq<char>)
    requires
        0 <= i <= t.len(),
    ensures
        i <= capture_end(t, i, d, tag) <= t.len(),
    decreases t.len() - i,
{
    if i < t.len() && !ends_capture(t, i, d, tag) {
        lemma_capture_end_bounds(t, i + 1, d + depth_step(t, i), tag);
    }
}

/// The source text of tokens `from` up to `to`.
pub open spec fn captured(t: &Tokens, from: int, to: int) -> Seq<char>
    decreases to - from,
{
    if to <= from {
        Seq::<char>::empty()
    } else {
        captured(t, from, to - 1) + piece(t, to - 1)
    }
}

/// Captures the source text from token `from` up to the closing tag of the
/// element `tag` at depth zero, which is consumed. Where the tokens run out
/// first, the capture ends there, unless the tokenizer stopped on an error.
pub fn capture(t: &Tokens, from: usize, tag: &str) -> (r: Result<(String, usize), DecodeError>)
    requires
        from <= t.len(),
    ensures
        r matches Ok((x, q)) ==> from <= q <= t.len(),
        r matches Ok((x, q)) ==> x@ == captured(t, from as int, capture_end(t, from as int, 0, tag@))
            && q == if capture_end(t, from as int, 0, tag@) < t.len() {
            capture_end(t, from as int, 0, tag@) + 1
        } else {
            t.len()
        },
        r is Err <==> capture_end(t, from as int, 0, tag@) == t.len() && t.failure is Some,
        r matches Err(e) ==> t.is_end_error(e),
{
    let n = t.items.len();
    let mut i = from;
    let mut opened: usize = 0;
    let mut closed: usize = 0;
    let mut xml = String::new();
    proof {
        lemma_capture_end_bounds(t, from as int, 0, tag@);
    }
    while i < n
        invariant
            n == t.len(),
            from <= i <= n,
            opened <= i,
            closed <= i,
            capture_end(t, from as int, 0, tag@) == capture_end(t, i as int, opened - closed, tag@),
            i <= capture_end(t, i as int, opened - closed, tag@) <= n,
            xml@ == captured(t, from as int, i as int),
        decreases n - i,
    {
        let tok = &t.items[i];
        if tok.kind == TokenKind::ElementEnd {
            if is_open_end_of(tok) {
                opened = opened + 1;
            } else if !is_empty_end_of(tok) {
                if opened == closed && str_eq(close_name_of(tok).as_str(), tag) {
                    return Ok((xml, i + 1));
                }
                closed = closed + 1;
            }
        }
        if tok.kind == TokenKind::Attribute {
            xml.append(" ");
            proof {
                reveal_strlit(" ");
            }
        }
        xml.append(tok.span.as_str());
        assert(xml@ =~= captured(t, from as int, i + 1));
        i = i + 1;
        proof {
            lemma_capture_end_bounds(t, i as int, opened - closed, tag@);
        }
    }
    match &t.failure {
        Some(m) => Err(DecodeError::Parser(m.clone())),
        None => Ok((xml, n)),
    }
}

/// The text of a string that may be absent.
pub open spec fn opt_text_view(o: Option<String>) -> Option<Seq<char>> {
    match o {
        Some(v) => Some(v@),
        None => None,
    }
}

/// Tokens `s` to `e` open an element named `tag` whose content is kept
/// verbatim: its start, `type` attributes only, then `>`.
pub open spec fn verbatim_start(t: &Tokens, s: int, e: int, tag: Seq<char>) -> bool {
    &&& t.starts(s, tag)
    &&& s < e < t.len()
    &&& t.kind(e) == TokenKind::ElementEnd
    &&& is_open_end(t.span(e))
    &&& forall|i: int|
        s < i < e ==> #[trigger] t.kind(i) == TokenKind::Attribute && t.key(i) == "type"@
}

/// Reading an element named `tag` whose content is kept verbatim, from token
/// `pos`, succeeds: `till_start` finds its start tag, whose attributes are all
/// readable `type` attributes and which ends with `>`, and the tokenizer did
/// not fail before the capture ended.
pub open spec fn verbatim_ok(t: &Tokens, pos: int, tag: Seq<char>) -> bool {
    match t.till_start(pos, tag) {
        Some(a) => {
            let e = t.attrs_end(a);
            &&& e < t.len()
            &&& t.kind(e) == TokenKind::ElementEnd
            &&& is_open_end(t.span(e))
            &&& forall|i: int| a <= i < e ==> #[trigger] t.attr_readable(i) && t.key(i) == "type"@
            &&& !(capture_end(t, e + 1, 0, tag) == t.len() && t.failure is Some)
        },
        None => false,
    }
}

/// Reads an element named `tag` whose content is kept verbatim: its `type`
/// attribute (any other is an error), then the content up to its closing
/// tag.
pub fn read_verbatim(t: &Tokens, pos: usize, tag: &str) -> (r: Result<(Option<String>, String, usize), DecodeError>)
    requires
        pos <= t.len(),
    ensures
        r is Ok <==> verbatim_ok(t, pos as int, tag@),
        r matches Ok((m, x, q)) ==> pos < q <= t.len() && exists|s: int, e: int|
            pos <= s && e < q && #[trigger] verbatim_start(t, s, e, tag@) && t.till_start(pos as int, tag@)
                == Some(s + 1) && e == t.attrs_end(s + 1) && q == (if capture_end(t, e + 1, 0, tag@) < t.len() {
                capture_end(t, e + 1, 0, tag@) + 1
            } else {
                t.len() as int
            }) && captured(
                t,
                e + 1,
                capture_end(t, e + 1, 0, tag@),
            ) == x@ && opt_text_view(m) == t.attr_text(s, e, "type"@),
{
    let n = t.items.len();
    let start = read_till_element_start(t, pos, tag)?;
    let mut p = start;
    let mut mime_type: Option<String> = None;
    proof {
        reveal_strlit("type");
    }
    loop
        invariant
            n == t.len(),
            start <= p <= n,
            start == n || (pos < start && t.starts(start - 1, tag@)),
            t.till_start(pos as int, tag@) == Some(start as int),
            t.attrs_end(start as int) == t.attrs_end(p as int),
            forall|i: int| start <= i < p ==> #[trigger] t.attr_readable(i),
            forall|i: int|
                start <= i < p ==> #[trigger] t.kind(i) == TokenKind::Attribute && t.key(i) == "type"@,
            opt_text_view(mime_type) == t.attr_text(start - 1, p as int, "type"@),
        ensures
            start <= p < n,
            pos < start && t.starts(start - 1, tag@),
            t.till_start(pos as int, tag@) == Some(start as int),
            t.attrs_end(start as int) == p,
            forall|i: int| start <= i < p ==> #[trigger] t.attr_readable(i),
            forall|i: int|
                start <= i < p ==> #[trigger] t.kind(i) == TokenKind::Attribute && t.key(i) == "type"@,
            t.kind(p as int) == TokenKind::ElementEnd,
            opt_text_view(mime_type) == t.attr_text(start - 1, p as int, "type"@),
        decreases n - p,
    {
        proof {
            lemma_attrs_end_bounds(t, p as int);
        }
        let (found, q) = find_attribute(t, p)?;
        match found {
            None => {
                break;
            },
            Some((key, value)) => {
                p = q;
                if str_eq(key.as_str(), "type") {
                    mime_type = Some(value);
                } else {
                    return Err(DecodeError::UnknownField { name: String::from_str(tag), field: key });
                }
            },
        }
    }
    let tok = &t.items[p];
    if !is_open_end_of(tok) {
        return Err(unexpected(tok));
    }
    assert forall|i: int| start <= i < p implies #[trigger] t.attr_readable(i) && t.key(i) == "type"@ by {
        assert(t.kind(i) == TokenKind::Attribute);
    }
    let from = p + 1;
    let (xml, q) = capture(t, from, tag)?;
    assert(verbatim_start(t, start - 1, p as int, tag@));
    Ok((mime_type, xml, q))
}

/// The text of an element whose content is written verbatim.
pub open spec fn verbatim_spec(tag: Seq<char>, mime_type: Option<Seq<char>>, xml: Seq<char>) -> Seq<char> {
    start_tag(tag) + (match mime_type {
        Some(m) => attribute("type"@, m),
        None => Seq::<char>::empty(),
    }) + seq!['>'] + xml + end_tag(tag)
}

/// Writes an element whose content is the text `xml`, as it is.
pub fn write_verbatim(out: &mut String, tag: &str, mime_type: &Option<String>, xml: &str)
    ensures
        final(out)@ == old(out)@ + verbatim_spec(
            tag@,
            match mime_type {
                Some(m) => Some(m@),
                None => None,
            },
            xml@,
        ),
{
    write_start(out, tag);
    match mime_type {
        Some(m) => write_attribute(out, "type", m.as_str()),
        None => {},
    }
    write_open_end(out);
    out.append(xml);
    write_end(out, tag);
    assert(final(out)@ =~= old(out)@ + verbatim_spec(
        tag@,
        match mime_type {
            Some(m) => Some(m@),
            None => None,
        },
        xml@,
    ));
}

} // verus!
