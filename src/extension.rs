//! `<Extensions>`: custom data of an ad server, kept verbatim.
use vstd::prelude::*;
use crate::codec::{
    XmlElement, decoded_from, children_cover, count_of, content_end, prev_end, lemma_cover_push,
    lemma_cover_extend, lemma_cover_empty, lemma_ends_empty, read_within, read_in_order,
    lemma_read_within_widen, lemma_ends_push, ends_fit, part_start, lemma_append, seq_xml,
    opt_view, unknown_field, write_all, from_str, to_string,
};
use crate::reader::{
    is_close_end, lemma_attrs_end_bounds, read_till_element_start, find_attribute,
    find_element_start, is_empty_end_of,
};
use crate::writer::{
    start_tag, attribute, end_tag, write_start, write_open_end, write_empty_end, write_end,
};
use crate::xml::{DecodeError, TokenKind, Tokens, xml_tokens};
use crate::text::{str_eq};
use crate::capture::{
    verbatim_ok, read_verbatim, write_verbatim, verbatim_spec, verbatim_start, captured,
    capture_end,
};

verus! {


/// A custom extension: an optional `type` and content of any shape, kept as
/// the text it was written in. Any attribute but `type` is refused.
#[derive(Debug, Clone, PartialEq, Default)]
pub struct Extension {
    /// The MIME type of any code in the extension.
    pub mime_type: Option<String>,
    /// The content, as it was written.
    pub xml: String,
}

impl Extension {
    /// An extension that holds the text of `value`.
    pub fn from_struct<T: XmlElement>(mime_type: &str, value: &T) -> (r: Result<Self, DecodeError>)
        ensures
            r matches Ok(e) && e.mime_type matches Some(m) && m@ == mime_type@ && e.xml@
                == value.xml_spec(),
    {
        match to_string(value) {
            Ok(xml) => Ok(Extension { mime_type: Some(String::from_str(mime_type)), xml }),
            Err(e) => Err(e),
        }
    }

    /// Decodes the content as an element of type `T`.
    pub fn as_struct<T: XmlElement>(&self) -> (r: Result<T, DecodeError>)
        ensures
            exists|t: Tokens|
                #![trigger t.views()]
                t.views() == xml_tokens(self.xml@).0 && t.failure_view() == xml_tokens(self.xml@).1
                    && decoded_from(t, r),
    {
        from_str(self.xml.as_str())
    }
}

impl XmlElement for Extension {
    open spec fn tag() -> Seq<char> {
        "Extension"@
    }

    open spec fn knows(key: Seq<char>) -> bool {
        key == "type"@
    }

    open spec fn attrs_read(&self, t: &Tokens, s: int, e: int) -> bool {
        opt_view(self.mime_type) == t.attr_text(s, e, "type"@)
    }

    open spec fn content_read(&self, t: &Tokens, e: int, q: int) -> bool {
        self.xml@ == captured(t, e + 1, capture_end(t, e + 1, 0, "Extension"@))
    }

    open spec fn read_ok(t: &Tokens, pos: int) -> bool {
        verbatim_ok(t, pos, "Extension"@)
    }

    open spec fn read_refused(t: &Tokens, pos: int) -> bool {
        !verbatim_ok(t, pos, "Extension"@)
    }

    open spec fn xml_spec(&self) -> Seq<char> {
        verbatim_spec("Extension"@, opt_view(self.mime_type), self.xml@)
    }

    fn read(t: &Tokens, pos: usize) -> (r: Result<(Self, usize), DecodeError>) {
        let (mime_type, xml, q) = read_verbatim(t, pos, "Extension")?;
        let v = Extension { mime_type, xml };
        proof {
            let (s, e) = choose|s: int, e: int|
                pos <= s && e < q && #[trigger] verbatim_start(t, s, e, "Extension"@) && t.till_start(
                    pos as int,
                    "Extension"@,
                ) == Some(s + 1) && e == t.attrs_end(s + 1) && q == (if capture_end(t, e + 1, 0, "Extension"@)
                    < t.len() {
                    capture_end(t, e + 1, 0, "Extension"@) + 1
                } else {
                    t.len() as int
                }) && captured(t, e + 1, capture_end(t, e + 1, 0, "Extension"@)) == v.xml@ && opt_view(
                    v.mime_type,
                ) == t.attr_text(s, e, "type"@);
            assert(t.start_tag(s, e, "Extension"@));
            assert forall|i: int| s < i < e implies Self::knows(#[trigger] t.key(i)) by {
                assert(t.kind(i) == TokenKind::Attribute);
            }
            assert(v.attrs_read(t, s, e));
            assert(v.content_read(t, e, q as int));
        }
        Ok((v, q))
    }

    fn write(&self, out: &mut String) {
        write_verbatim(out, "Extension", &self.mime_type, self.xml.as_str());
        assert(opt_view(self.mime_type) == match self.mime_type {
            Some(m) => Some(m@),
            None => None,
        });
    }
}

/// Custom extensions of an ad.
#[derive(Debug, Clone, PartialEq, Default)]
pub struct Extensions {
    /// Zero or more extensions.
    pub extensions: Vec<Extension>,
}

impl XmlElement for Extensions {
    open spec fn tag() -> Seq<char> {
        "Extensions"@
    }

    open spec fn knows(key: Seq<char>) -> bool {
        false
    }

    open spec fn attrs_read(&self, t: &Tokens, s: int, e: int) -> bool {
        true
    }

    open spec fn content_read(&self, t: &Tokens, e: int, q: int) -> bool {
        (forall|k: int| 0 <= k < self.extensions@.len() ==> read_within(*t, #[trigger] self.extensions@[k], e, q))
            && read_in_order(*t, self.extensions@, e)
            && exists|ws: Seq<(int, int, int)>|
                #[trigger] children_cover(*t, ws, e + 1, content_end(e, q), 1)
                && count_of(ws, 0) == self.extensions@.len()
                && count_of(ws, -1) == 0
    }

    open spec fn read_ok(t: &Tokens, pos: int) -> bool {
        false
    }

    open spec fn read_refused(t: &Tokens, pos: int) -> bool {
        t.start_malformed(pos, "Extensions"@) || match t.till_start(pos, "Extensions"@) {
            Some(a) => exists|i: int| a <= i < t.attrs_end(a) && !Self::knows(#[trigger] t.key(i)),
            None => false,
        }
    }

    open spec fn xml_spec(&self) -> Seq<char> {
        start_tag("Extensions"@)
            + (if self.extensions@.len() == 0 {
            seq!['/', '>']
        } else {
            seq!['>'] + seq_xml(self.extensions@) + end_tag("Extensions"@)
        })
    }

    fn read(t: &Tokens, pos: usize) -> (r: Result<(Self, usize), DecodeError>) {
        let n = t.items.len();
        let start = read_till_element_start(t, pos, "Extensions")?;
        let mut p = start;
        let mut extensions: Vec<Extension> = Vec::new();
        loop
            invariant
                n == t.len(),
                start <= p <= n,
                start == n || (pos < start && t.starts(start - 1, "Extensions"@)),
                forall|i: int| start <= i < p ==> #[trigger] t.kind(i) == TokenKind::Attribute && Self::knows(t.key(i)),
                t.till_start(pos as int, "Extensions"@) == Some(start as int),
                t.attrs_end(start as int) == t.attrs_end(p as int),
                forall|i: int| start <= i < p ==> #[trigger] t.attr_readable(i),
            ensures
                start <= p < n,
                pos < start && t.starts(start - 1, "Extensions"@),
                forall|i: int| start <= i < p ==> #[trigger] t.kind(i) == TokenKind::Attribute && Self::knows(t.key(i)),
                t.kind(p as int) == TokenKind::ElementEnd && !is_close_end(t.span(p as int)),
                t.till_start(pos as int, "Extensions"@) == Some(start as int),
                t.attrs_end(start as int) == p,
                forall|i: int| start <= i < p ==> #[trigger] t.attr_readable(i),
            decreases n - p,
        {
            proof {
                lemma_attrs_end_bounds(t, p as int);
            }
            let (found, q) = find_attribute(t, p)?;
            match found {
                None => {
                    break;
                },
                Some((key, value)) => {
                    p = q;
                    return Err(unknown_field("Extensions", key));
                },
            }
        }
        let ghost e = p as int;
        let ghost mut ends_extensions: Seq<int> = Seq::empty();
        proof {
            lemma_ends_empty(*t, extensions@, e);
        }
        let empty = is_empty_end_of(&t.items[p]);
        p = p + 1;
        let ghost mut ws: Seq<(int, int, int)> = Seq::empty();
        proof {
            lemma_cover_empty(*t, e + 1, 1);
        }
        if !empty {
            loop
                invariant_except_break
                    children_cover(*t, ws, e + 1, p as int, 1),
                    prev_end(ws, e + 1, ws.len() as int) == p,
                invariant
                    n == t.len(),
                    pos < p <= n,
                    e < p,
                    (forall|k: int| 0 <= k < extensions@.len() ==> read_within(*t, #[trigger] extensions@[k], e, p as int)),
                    ends_fit(*t, extensions@, e, ends_extensions),
                    part_start(ends_extensions, e, extensions@.len() as int) <= p,
                    count_of(ws, 0) == extensions@.len(),
                    count_of(ws, -1) == 0,
                ensures
                    pos < p <= n,
                    e < p,
                    children_cover(*t, ws, e + 1, content_end(e, p as int), 1),
                    (forall|k: int| 0 <= k < extensions@.len() ==> read_within(*t, #[trigger] extensions@[k], e, p as int)),
                    ends_fit(*t, extensions@, e, ends_extensions),
                    part_start(ends_extensions, e, extensions@.len() as int) <= p,
                    count_of(ws, 0) == extensions@.len(),
                    count_of(ws, -1) == 0,

                decreases n - p,
            {
                let (found, q) = find_element_start(t, p, "Extensions")?;
                match found {
                    None => {
                        proof {
                            lemma_cover_extend(*t, ws, e + 1, p as int, q as int - 1, 1);
                        }
                        p = q;
                        break;
                    },
                    Some(tag) => {
                        if str_eq(tag.as_str(), "Extension") {
                            let (v, q2) = Extension::read(t, q)?;
                            proof {
                                assert(read_within(*t, v, q as int, q2 as int));
                                lemma_read_within_widen(*t, v, q as int, q2 as int, part_start(ends_extensions, e, extensions@.len() as int), q2 as int);
                                lemma_ends_push(*t, extensions@, v, e, ends_extensions, q2 as int);
                                ends_extensions = ends_extensions.push(q2 as int);
                            }
                            extensions.push(v);
                            proof {
                                lemma_cover_push(*t, ws, e + 1, p as int, (q as int, q2 as int, 0), 1);
                                ws = ws.push((q as int, q2 as int, 0));
                            }
                            p = q2;
                        } else {
                            return Err(unknown_field("Extensions", tag));
                        }
                    },
                }
            }
        }
        assert(children_cover(*t, ws, e + 1, content_end(e, p as int), 1));
        assert(t.start_tag(start - 1, e, "Extensions"@));
        assert(t.till_start(pos as int, "Extensions"@) == Some(start as int));
        assert forall|i: int| start - 1 < i < e implies Self::knows(#[trigger] t.key(i)) by {
            assert(t.kind(i) == TokenKind::Attribute);
        }
        assert forall|i: int| start <= i < e implies #[trigger] t.attr_readable(i) && Self::knows(t.key(i)) by {
            assert(t.kind(i) == TokenKind::Attribute);
        }
        let v = Extensions { extensions };
        assert(v.content_read(t, e, p as int));
        Ok((v, p))
    }

    fn write(&self, out: &mut String) {
        write_start(out, "Extensions");
        let ghost mut head = start_tag("Extensions"@);
        if self.extensions.len() == 0 {
            write_empty_end(out);
        } else {
            let ghost mid = out@;
            let ghost mut body = seq!['>'];
            write_open_end(out);
            write_all(out, &self.extensions);
            proof {
                let piece = seq_xml(self.extensions@);
                lemma_append(mid, body, piece);
                body = body + piece;
            }
            write_end(out, "Extensions");
            proof {
                lemma_append(mid, body, end_tag("Extensions"@));
                lemma_append(old(out)@, head, body + end_tag("Extensions"@));
            }
        }
    }
}

} // verus!
