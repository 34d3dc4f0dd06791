//! `<VAST>`, the root of a document.
use vstd::prelude::*;
use crate::codec::{
    XmlElement, children_cover, count_of, content_end, prev_end, lemma_cover_push,
    lemma_cover_extend, lemma_cover_empty, lemma_ends_empty, lemma_text_ends_empty, read_within,
    read_in_order, texts_in_order, lemma_read_within_widen, lemma_ends_push, lemma_text_ends_push,
    ends_fit, text_ends_fit, part_start, text_within, lemma_append, seq_xml, seq_text, opt_view,
    missing_field, unknown_field, duplicate_attribute, read_text_child, write_all,
    write_text_elements,
};
use crate::reader::{
    is_close_end, lemma_attrs_end_bounds, read_till_element_start, find_attribute,
    find_element_start, read_to_end, is_empty_end_of,
};
use crate::writer::{
    start_tag, attribute, end_tag, write_start, write_attribute, write_open_end, write_empty_end,
    write_end,
};
use crate::xml::{DecodeError, TokenKind, Tokens};
use crate::text::{str_eq};
use crate::ad::{Ad};

verus! {


/// The root of a VAST document: its version, and the ads or the error URIs it
/// holds. Unknown child elements are passed over; unknown attributes are not.
#[derive(Debug, Clone, PartialEq, Default)]
pub struct Vast {
    /// The VAST version the document follows.
    pub version: String,
    /// The ads of the response or of an ad pod.
    pub ads: Vec<Ad>,
    /// URIs to request when there is no ad.
    pub errors: Vec<String>,
}

impl XmlElement for Vast {
    open spec fn tag() -> Seq<char> {
        "VAST"@
    }

    open spec fn knows(key: Seq<char>) -> bool {
        key == "version"@
    }

    open spec fn attrs_read(&self, t: &Tokens, s: int, e: int) -> bool {
        (t.attr_text(s, e, "version"@) == Some(self.version@))
    }

    open spec fn content_read(&self, t: &Tokens, e: int, q: int) -> bool {
        (forall|k: int| 0 <= k < self.ads@.len() ==> read_within(*t, #[trigger] self.ads@[k], e, q))
            && read_in_order(*t, self.ads@, e)
            && (forall|k: int| 0 <= k < self.errors@.len() ==> text_within(*t, "Error"@, #[trigger] self.errors@[k]@, e, q))
            && texts_in_order(*t, "Error"@, self.errors@, e)
            && exists|ws: Seq<(int, int, int)>|
                #[trigger] children_cover(*t, ws, e + 1, content_end(e, q), 2)
                && count_of(ws, 0) == self.ads@.len()
                && count_of(ws, 1) == self.errors@.len()
    }

    open spec fn read_ok(t: &Tokens, pos: int) -> bool {
        false
    }

    open spec fn read_refused(t: &Tokens, pos: int) -> bool {
        t.start_malformed(pos, "VAST"@) || match t.till_start(pos, "VAST"@) {
            Some(a) => exists|i: int| a <= i < t.attrs_end(a) && !Self::knows(#[trigger] t.key(i)),
            None => false,
        }
    }

    open spec fn xml_spec(&self) -> Seq<char> {
        start_tag("VAST"@)
            + attribute("version"@, self.version@)
            + (if self.ads@.len() == 0 && self.errors@.len() == 0 {
            seq!['/', '>']
        } else {
            seq!['>'] + seq_xml(self.ads@) + seq_text("Error"@, self.errors@, true) + end_tag("VAST"@)
        })
    }

    fn read(t: &Tokens, pos: usize) -> (r: Result<(Self, usize), DecodeError>) {
        let n = t.items.len();
        let start = read_till_element_start(t, pos, "VAST")?;
        let mut p = start;
        let mut version: Option<String> = None;
        let mut ads: Vec<Ad> = Vec::new();
        let mut errors: Vec<String> = Vec::new();
        loop
            invariant
                n == t.len(),
                start <= p <= n,
                start == n || (pos < start && t.starts(start - 1, "VAST"@)),
                forall|i: int| start <= i < p ==> #[trigger] t.kind(i) == TokenKind::Attribute && Self::knows(t.key(i)),
                t.till_start(pos as int, "VAST"@) == Some(start as int),
                t.attrs_end(start as int) == t.attrs_end(p as int),
                forall|i: int| start <= i < p ==> #[trigger] t.attr_readable(i),
                opt_view(version) == t.attr_text(start - 1, p as int, "version"@),
            ensures
                start <= p < n,
                pos < start && t.starts(start - 1, "VAST"@),
                forall|i: int| start <= i < p ==> #[trigger] t.kind(i) == TokenKind::Attribute && Self::knows(t.key(i)),
                t.kind(p as int) == TokenKind::ElementEnd && !is_close_end(t.span(p as int)),
                t.till_start(pos as int, "VAST"@) == Some(start as int),
                t.attrs_end(start as int) == p,
                forall|i: int| start <= i < p ==> #[trigger] t.attr_readable(i),
                opt_view(version) == t.attr_text(start - 1, p as int, "version"@),
            decreases n - p,
        {
            proof {
                lemma_attrs_end_bounds(t, p as int);
            }
            let (found, q) = find_attribute(t, p)?;
            match found {
                None => {
                    break;
                },
                Some((key, value)) => {
                    p = q;
                    proof {
                        reveal_strlit("version");
                        assert("version"@.len() == 7);
                    }
                    if str_eq(key.as_str(), "version") {
                        if version.is_some() {
                            return Err(duplicate_attribute("version"));
                        }
                        version = Some(value);
                    } else {
                        return Err(unknown_field("Vast", key));
                    }
                },
            }
        }
        let ghost e = p as int;
        let ghost mut ends_ads: Seq<int> = Seq::empty();
        proof {
            lemma_ends_empty(*t, ads@, e);
        }
        let ghost mut ends_errors: Seq<int> = Seq::empty();
        proof {
            lemma_text_ends_empty(*t, "Error"@, errors@, e);
        }
        let empty = is_empty_end_of(&t.items[p]);
        p = p + 1;
        let ghost mut ws: Seq<(int, int, int)> = Seq::empty();
        proof {
            lemma_cover_empty(*t, e + 1, 2);
        }
        if !empty {
            loop
                invariant_except_break
                    children_cover(*t, ws, e + 1, p as int, 2),
                    prev_end(ws, e + 1, ws.len() as int) == p,
                invariant
                    n == t.len(),
                    pos < p <= n,
                    e < p,
                    (forall|k: int| 0 <= k < ads@.len() ==> read_within(*t, #[trigger] ads@[k], e, p as int)),
                    (forall|k: int| 0 <= k < errors@.len() ==> text_within(*t, "Error"@, #[trigger] errors@[k]@, e, p as int)),
                    ends_fit(*t, ads@, e, ends_ads),
                    part_start(ends_ads, e, ads@.len() as int) <= p,
                    text_ends_fit(*t, "Error"@, errors@, e, ends_errors),
                    part_start(ends_errors, e, errors@.len() as int) <= p,
                    count_of(ws, 0) == ads@.len(),
                    count_of(ws, 1) == errors@.len(),
                ensures
                    pos < p <= n,
                    e < p,
                    children_cover(*t, ws, e + 1, content_end(e, p as int), 2),
                    (forall|k: int| 0 <= k < ads@.len() ==> read_within(*t, #[trigger] ads@[k], e, p as int)),
                    (forall|k: int| 0 <= k < errors@.len() ==> text_within(*t, "Error"@, #[trigger] errors@[k]@, e, p as int)),
                    ends_fit(*t, ads@, e, ends_ads),
                    part_start(ends_ads, e, ads@.len() as int) <= p,
                    text_ends_fit(*t, "Error"@, errors@, e, ends_errors),
                    part_start(ends_errors, e, errors@.len() as int) <= p,
                    count_of(ws, 0) == ads@.len(),
                    count_of(ws, 1) == errors@.len(),

                decreases n - p,
            {
                let (found, q) = find_element_start(t, p, "VAST")?;
                match found {
                    None => {
                        proof {
                            lemma_cover_extend(*t, ws, e + 1, p as int, q as int - 1, 2);
                        }
                        p = q;
                        break;
                    },
                    Some(tag) => {
                        if str_eq(tag.as_str(), "Ad") {
                            let (v, q2) = Ad::read(t, q)?;
                            proof {
                                assert(read_within(*t, v, q as int, q2 as int));
                                lemma_read_within_widen(*t, v, q as int, q2 as int, part_start(ends_ads, e, ads@.len() as int), q2 as int);
                                lemma_ends_push(*t, ads@, v, e, ends_ads, q2 as int);
                                ends_ads = ends_ads.push(q2 as int);
                            }
                            ads.push(v);
                            proof {
                                lemma_cover_push(*t, ws, e + 1, p as int, (q as int, q2 as int, 0), 2);
                                ws = ws.push((q as int, q2 as int, 0));
                            }
                            p = q2;
                        } else if str_eq(tag.as_str(), "Error") {
                            let (s, q2) = read_text_child(t, q, "Error")?;
                            let v = s;
                            proof {
                                assert(text_within(*t, "Error"@, v@, q as int, q2 as int));
                                assert(text_within(*t, "Error"@, v@, part_start(ends_errors, e, errors@.len() as int), q2 as int));
                                lemma_text_ends_push(*t, "Error"@, errors@, v, e, ends_errors, q2 as int);
                                ends_errors = ends_errors.push(q2 as int);
                            }
                            errors.push(v);
                            proof {
                                lemma_cover_push(*t, ws, e + 1, p as int, (q as int, q2 as int, 1), 2);
                                ws = ws.push((q as int, q2 as int, 1));
                            }
                            p = q2;
                        } else {
                            let q2 = read_to_end(t, q + 1, tag.as_str())?;
                            proof {
                                lemma_cover_push(*t, ws, e + 1, p as int, (q as int, q2 as int, -1), 2);
                                ws = ws.push((q as int, q2 as int, -1));
                            }
                            p = q2;
                        }
                    },
                }
            }
        }
        assert(children_cover(*t, ws, e + 1, content_end(e, p as int), 2));
        let version = match version {
            Some(v) => v,
            None => return Err(missing_field("Vast", "version")),
        };
        assert(t.start_tag(start - 1, e, "VAST"@));
        assert(t.till_start(pos as int, "VAST"@) == Some(start as int));
        assert forall|i: int| start - 1 < i < e implies Self::knows(#[trigger] t.key(i)) by {
            assert(t.kind(i) == TokenKind::Attribute);
        }
        assert forall|i: int| start <= i < e implies #[trigger] t.attr_readable(i) && Self::knows(t.key(i)) by {
            assert(t.kind(i) == TokenKind::Attribute);
        }
        let v = Vast { version, ads, errors };
        assert(v.attrs_read(t, start - 1, e));
        assert(v.content_read(t, e, p as int));
        Ok((v, p))
    }

    fn write(&self, out: &mut String) {
        write_start(out, "VAST");
        let ghost mut head = start_tag("VAST"@);
        write_attribute(out, "version", self.version.as_str());
        proof {
            let piece = attribute("version"@, self.version@);
            lemma_append(old(out)@, head, piece);
            head = head + piece;
        }
        if self.ads.len() == 0 && self.errors.len() == 0 {
            write_empty_end(out);
        } else {
            let ghost mid = out@;
            let ghost mut body = seq!['>'];
            write_open_end(out);
            write_all(out, &self.ads);
            proof {
                let piece = seq_xml(self.ads@);
                lemma_append(mid, body, piece);
                body = body + piece;
            }
            write_text_elements(out, "Error", &self.errors, true);
            proof {
                let piece = seq_text("Error"@, self.errors@, true);
                lemma_append(mid, body, piece);
                body = body + piece;
            }
            write_end(out, "VAST");
            proof {
                lemma_append(mid, body, end_tag("VAST"@));
                lemma_append(old(out)@, head, body + end_tag("VAST"@));
            }
        }
    }
}

} // verus!
