//! `<StaticResource>`: a static creative file.
use vstd::prelude::*;
use crate::codec::{
    XmlElement, lemma_append, opt_view, missing_field, unknown_field, duplicate_attribute,
};
use crate::reader::{
    is_close_end, lemma_attrs_end_bounds, read_till_element_start, find_attribute, read_text,
};
use crate::writer::{
    start_tag, attribute, end_tag, cdata, write_start, write_attribute, write_open_end, write_end,
    write_text,
};
use crate::xml::{DecodeError, TokenKind, Tokens};
use crate::text::{str_eq};

verus! {


/// A static creative file.
#[derive(Debug, Clone, PartialEq, Default)]
pub struct StaticResource {
    /// The MIME type of the file.
    pub creative_type: String,
    /// The URI of the file.
    pub uri: String,
}

impl XmlElement for StaticResource {
    open spec fn tag() -> Seq<char> {
        "StaticResource"@
    }

    open spec fn knows(key: Seq<char>) -> bool {
        key == "creativeType"@
    }

    open spec fn attrs_read(&self, t: &Tokens, s: int, e: int) -> bool {
        (t.attr_text(s, e, "creativeType"@) == Some(self.creative_type@))
    }

    open spec fn content_read(&self, t: &Tokens, e: int, q: int) -> bool {
        self.uri@ == t.text_of(e, q)
    }

    open spec fn read_ok(t: &Tokens, pos: int) -> bool {
        false
    }

    open spec fn read_refused(t: &Tokens, pos: int) -> bool {
        t.start_malformed(pos, "StaticResource"@) || match t.till_start(pos, "StaticResource"@) {
            Some(a) => exists|i: int| a <= i < t.attrs_end(a) && !Self::knows(#[trigger] t.key(i)),
            None => false,
        }
    }

    open spec fn xml_spec(&self) -> Seq<char> {
        start_tag("StaticResource"@)
            + attribute("creativeType"@, self.creative_type@)
            + (seq!['>'] + cdata(self.uri@) + end_tag("StaticResource"@))
    }

    fn read(t: &Tokens, pos: usize) -> (r: Result<(Self, usize), DecodeError>) {
        let n = t.items.len();
        let start = read_till_element_start(t, pos, "StaticResource")?;
        let mut p = start;
        let mut creative_type: Option<String> = None;
        loop
            invariant
                n == t.len(),
                start <= p <= n,
                start == n || (pos < start && t.starts(start - 1, "StaticResource"@)),
                forall|i: int| start <= i < p ==> #[trigger] t.kind(i) == TokenKind::Attribute && Self::knows(t.key(i)),
                t.till_start(pos as int, "StaticResource"@) == Some(start as int),
                t.attrs_end(start as int) == t.attrs_end(p as int),
                forall|i: int| start <= i < p ==> #[trigger] t.attr_readable(i),
                opt_view(creative_type) == t.attr_text(start - 1, p as int, "creativeType"@),
            ensures
                start <= p < n,
                pos < start && t.starts(start - 1, "StaticResource"@),
                forall|i: int| start <= i < p ==> #[trigger] t.kind(i) == TokenKind::Attribute && Self::knows(t.key(i)),
                t.kind(p as int) == TokenKind::ElementEnd && !is_close_end(t.span(p as int)),
                t.till_start(pos as int, "StaticResource"@) == Some(start as int),
                t.attrs_end(start as int) == p,
                forall|i: int| start <= i < p ==> #[trigger] t.attr_readable(i),
                opt_view(creative_type) == t.attr_text(start - 1, p as int, "creativeType"@),
            decreases n - p,
        {
            proof {
                lemma_attrs_end_bounds(t, p as int);
            }
            let (found, q) = find_attribute(t, p)?;
            match found {
                None => {
                    break;
                },
                Some((key, value)) => {
                    p = q;
                    proof {
                        reveal_strlit("creativeType");
                        assert("creativeType"@.len() == 12);
                    }
                    if str_eq(key.as_str(), "creativeType") {
                        if creative_type.is_some() {
                            return Err(duplicate_attribute("creativeType"));
                        }
                        creative_type = Some(value);
                    } else {
                        return Err(unknown_field("StaticResource", key));
                    }
                },
            }
        }
        let ghost e = p as int;
        let (text, q) = read_text(t, p, "StaticResource")?;
        p = q;
        let creative_type = match creative_type {
            Some(v) => v,
            None => return Err(missing_field("StaticResource", "creative_type")),
        };
        assert(t.start_tag(start - 1, e, "StaticResource"@));
        assert(t.till_start(pos as int, "StaticResource"@) == Some(start as int));
        assert forall|i: int| start - 1 < i < e implies Self::knows(#[trigger] t.key(i)) by {
            assert(t.kind(i) == TokenKind::Attribute);
        }
        assert forall|i: int| start <= i < e implies #[trigger] t.attr_readable(i) && Self::knows(t.key(i)) by {
            assert(t.kind(i) == TokenKind::Attribute);
        }
        let v = StaticResource { creative_type, uri: text };
        assert(v.attrs_read(t, start - 1, e));
        Ok((v, p))
    }

    fn write(&self, out: &mut String) {
        write_start(out, "StaticResource");
        let ghost mut head = start_tag("StaticResource"@);
        write_attribute(out, "creativeType", self.creative_type.as_str());
        proof {
            let piece = attribute("creativeType"@, self.creative_type@);
            lemma_append(old(out)@, head, piece);
            head = head + piece;
        }
        let ghost mid = out@;
        let ghost mut body = seq!['>'];
        write_open_end(out);
        write_text(out, self.uri.as_str(), true);
        proof {
            let piece = cdata(self.uri@);
            lemma_append(mid, body, piece);
            body = body + piece;
        }
        write_end(out, "StaticResource");
        proof {
            lemma_append(mid, body, end_tag("StaticResource"@));
            lemma_append(old(out)@, head, body + end_tag("StaticResource"@));
        }
    }
}

} // verus!
