//! Writing XML: start and end tags, attributes, text and CDATA.
use vstd::prelude::*;
use crate::xml::{escape, escape_spec};

verus! {

/// `<tag`
pub open spec fn start_tag(tag: Seq<char>) -> Seq<char> {
    seq!['<'] + tag
}

/// ` key="value"`, with the value escaped.
pub open spec fn attribute(key: Seq<char>, value: Seq<char>) -> Seq<char> {
    seq![' '] + key + seq!['=', '"'] + escape_spec(value) + seq!['"']
}

/// `</tag>`
pub open spec fn end_tag(tag: Seq<char>) -> Seq<char> {
    seq!['<', '/'] + tag + seq!['>']
}

/// `<![CDATA[text]]>`
pub open spec fn cdata(text: Seq<char>) -> Seq<char> {
    seq!['<', '!', '[', 'C', 'D', 'A', 'T', 'A', '['] + text + seq![']', ']', '>']
}

/// An element that holds only text: `<tag>text</tag>`, the text escaped or in
/// a CDATA section.
pub open spec fn text_element(tag: Seq<char>, text: Seq<char>, in_cdata: bool) -> Seq<char> {
    start_tag(tag) + seq!['>'] + (if in_cdata { cdata(text) } else { escape_spec(text) }) + end_tag(tag)
}

pub fn write_start(out: &mut String, tag: &str)
    ensures
        final(out)@ == old(out)@ + start_tag(tag@),
{
    out.append("<");
    out.append(tag);
    proof {
        reveal_strlit("<");
    }
    assert(final(out)@ =~= old(out)@ + start_tag(tag@));
}

pub fn write_attribute(out: &mut String, key: &str, value: &str)
    ensures
        final(out)@ == old(out)@ + attribute(key@, value@),
{
    out.append(" ");
    out.append(key);
    out.append("=\"");
    let v = escape(value);
    out.append(v.as_str());
    out.append("\"");
    proof {
        reveal_strlit(" ");
        reveal_strlit("=\"");
        reveal_strlit("\"");
    }
    assert(final(out)@ =~= old(out)@ + attribute(key@, value@));
}

/// `>`
pub fn write_open_end(out: &mut String)
    ensures
        final(out)@ == old(out)@ + seq!['>'],
{
    out.append(">");
    proof {
        reveal_strlit(">");
    }
    assert(final(out)@ =~= old(out)@ + seq!['>']);
}

/// `/>`
pub fn write_empty_end(out: &mut String)
    ensures
        final(out)@ == old(out)@ + seq!['/', '>'],
{
    out.append("/>");
    proof {
        reveal_strlit("/>");
    }
    assert(final(out)@ =~= old(out)@ + seq!['/', '>']);
}

pub fn write_end(out: &mut String, tag: &str)
    ensures
        final(out)@ == old(out)@ + end_tag(tag@),
{
    out.append("</");
    out.append(tag);
    out.append(">");
    proof {
        reveal_strlit("</");
        reveal_strlit(">");
    }
    assert(final(out)@ =~= old(out)@ + end_tag(tag@));
}

/// Text, escaped or in a CDATA section.
pub fn write_text(out: &mut String, text: &str, in_cdata: bool)
    ensures
        final(out)@ == old(out)@ + if in_cdata { cdata(text@) } else { escape_spec(text@) },
{
    if in_cdata {
        out.append("<![CDATA[");
        out.append(text);
        out.append("]]>");
        proof {
            reveal_strlit("<![CDATA[");
            reveal_strlit("]]>");
        }
    } else {
        let v = escape(text);
        out.append(v.as_str());
    }
    assert(final(out)@ =~= old(out)@ + if in_cdata { cdata(text@) } else { escape_spec(text@) });
}

pub fn write_text_element(out: &mut String, tag: &str, text: &str, in_cdata: bool)
    ensures
        final(out)@ == old(out)@ + text_element(tag@, text@, in_cdata),
{
    write_start(out, tag);
    write_open_end(out);
    write_text(out, text, in_cdata);
    write_end(out, tag);
    assert(final(out)@ =~= old(out)@ + text_element(tag@, text@, in_cdata));
}

} // verus!
