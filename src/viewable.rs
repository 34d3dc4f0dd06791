//! `<ViewableImpression>`: viewability tracking.
use vstd::prelude::*;
use crate::codec::{
    XmlElement, children_cover, count_of, content_end, prev_end, lemma_cover_push,
    lemma_cover_extend, lemma_cover_empty, lemma_text_ends_empty, texts_in_order,
    lemma_text_ends_push, text_ends_fit, part_start, text_within, lemma_append, seq_text,
    opt_attribute, opt_view, unknown_field, duplicate_attribute, read_text_child,
    write_text_elements, write_opt_attribute,
};
use crate::reader::{
    is_close_end, lemma_attrs_end_bounds, read_till_element_start, find_attribute,
    find_element_start, is_empty_end_of,
};
use crate::writer::{start_tag, end_tag, write_start, write_open_end, write_empty_end, write_end};
use crate::xml::{DecodeError, TokenKind, Tokens};
use crate::text::{str_eq};

verus! {


/// URIs to request on viewability outcomes.
#[derive(Debug, Clone, PartialEq, Default)]
pub struct ViewableImpression {
    /// An ad server id for the impression.
    pub id: Option<String>,
    /// URIs for a viewable impression.
    pub viewables: Vec<String>,
    /// URIs for an impression that was never viewable.
    pub not_viewables: Vec<String>,
    /// URIs for when viewability cannot be told.
    pub view_undetermineds: Vec<String>,
}

impl XmlElement for ViewableImpression {
    open spec fn tag() -> Seq<char> {
        "ViewableImpression"@
    }

    open spec fn knows(key: Seq<char>) -> bool {
        key == "id"@
    }

    open spec fn attrs_read(&self, t: &Tokens, s: int, e: int) -> bool {
        (opt_view(self.id) == t.attr_text(s, e, "id"@))
    }

    open spec fn content_read(&self, t: &Tokens, e: int, q: int) -> bool {
        (forall|k: int| 0 <= k < self.viewables@.len() ==> text_within(*t, "Viewable"@, #[trigger] self.viewables@[k]@, e, q))
            && texts_in_order(*t, "Viewable"@, self.viewables@, e)
            && (forall|k: int| 0 <= k < self.not_viewables@.len() ==> text_within(*t, "NotViewable"@, #[trigger] self.not_viewables@[k]@, e, q))
            && texts_in_order(*t, "NotViewable"@, self.not_viewables@, e)
            && (forall|k: int| 0 <= k < self.view_undetermineds@.len() ==> text_within(*t, "ViewUndetermined"@, #[trigger] self.view_undetermineds@[k]@, e, q))
            && texts_in_order(*t, "ViewUndetermined"@, self.view_undetermineds@, e)
            && exists|ws: Seq<(int, int, int)>|
                #[trigger] children_cover(*t, ws, e + 1, content_end(e, q), 3)
                && count_of(ws, 0) == self.viewables@.len()
                && count_of(ws, 1) == self.not_viewables@.len()
                && count_of(ws, 2) == self.view_undetermineds@.len()
                && count_of(ws, -1) == 0
    }

    open spec fn read_ok(t: &Tokens, pos: int) -> bool {
        false
    }

    open spec fn read_refused(t: &Tokens, pos: int) -> bool {
        t.start_malformed(pos, "ViewableImpression"@) || match t.till_start(pos, "ViewableImpression"@) {
            Some(a) => exists|i: int| a <= i < t.attrs_end(a) && !Self::knows(#[trigger] t.key(i)),
            None => false,
        }
    }

    open spec fn xml_spec(&self) -> Seq<char> {
        start_tag("ViewableImpression"@)
            + opt_attribute("id"@, opt_view(self.id))
            + (if self.viewables@.len() == 0 && self.not_viewables@.len() == 0 && self.view_undetermineds@.len() == 0 {
            seq!['/', '>']
        } else {
            seq!['>'] + seq_text("Viewable"@, self.viewables@, true) + seq_text("NotViewable"@, self.not_viewables@, true) + seq_text("ViewUndetermined"@, self.view_undetermineds@, true) + end_tag("ViewableImpression"@)
        })
    }

    fn read(t: &Tokens, pos: usize) -> (r: Result<(Self, usize), DecodeError>) {
        let n = t.items.len();
        let start = read_till_element_start(t, pos, "ViewableImpression")?;
        let mut p = start;
        let mut id: Option<String> = None;
        let mut viewables: Vec<String> = Vec::new();
        let mut not_viewables: Vec<String> = Vec::new();
        let mut view_undetermineds: Vec<String> = Vec::new();
        loop
            invariant
                n == t.len(),
                start <= p <= n,
                start == n || (pos < start && t.starts(start - 1, "ViewableImpression"@)),
                forall|i: int| start <= i < p ==> #[trigger] t.kind(i) == TokenKind::Attribute && Self::knows(t.key(i)),
                t.till_start(pos as int, "ViewableImpression"@) == Some(start as int),
                t.attrs_end(start as int) == t.attrs_end(p as int),
                forall|i: int| start <= i < p ==> #[trigger] t.attr_readable(i),
                opt_view(id) == t.attr_text(start - 1, p as int, "id"@),
            ensures
                start <= p < n,
                pos < start && t.starts(start - 1, "ViewableImpression"@),
                forall|i: int| start <= i < p ==> #[trigger] t.kind(i) == TokenKind::Attribute && Self::knows(t.key(i)),
                t.kind(p as int) == TokenKind::ElementEnd && !is_close_end(t.span(p as int)),
                t.till_start(pos as int, "ViewableImpression"@) == Some(start as int),
                t.attrs_end(start as int) == p,
                forall|i: int| start <= i < p ==> #[trigger] t.attr_readable(i),
                opt_view(id) == t.attr_text(start - 1, p as int, "id"@),
            decreases n - p,
        {
            proof {
                lemma_attrs_end_bounds(t, p as int);
            }
            let (found, q) = find_attribute(t, p)?;
            match found {
                None => {
                    break;
                },
                Some((key, value)) => {
                    p = q;
                    proof {
                        reveal_strlit("id");
                        assert("id"@.len() == 2);
                    }
                    if str_eq(key.as_str(), "id") {
                        if id.is_some() {
                            return Err(duplicate_attribute("id"));
                        }
                        id = Some(value);
                    } else {
                        return Err(unknown_field("ViewableImpression", key));
                    }
                },
            }
        }
        let ghost e = p as int;
        let ghost mut ends_viewables: Seq<int> = Seq::empty();
        proof {
            lemma_text_ends_empty(*t, "Viewable"@, viewables@, e);
        }
        let ghost mut ends_not_viewables: Seq<int> = Seq::empty();
        proof {
            lemma_text_ends_empty(*t, "NotViewable"@, not_viewables@, e);
        }
        let ghost mut ends_view_undetermineds: Seq<int> = Seq::empty();
        proof {
            lemma_text_ends_empty(*t, "ViewUndetermined"@, view_undetermineds@, e);
        }
        let empty = is_empty_end_of(&t.items[p]);
        p = p + 1;
        let ghost mut ws: Seq<(int, int, int)> = Seq::empty();
        proof {
            lemma_cover_empty(*t, e + 1, 3);
        }
        if !empty {
            loop
                invariant_except_break
                    children_cover(*t, ws, e + 1, p as int, 3),
                    prev_end(ws, e + 1, ws.len() as int) == p,
                invariant
                    n == t.len(),
                    pos < p <= n,
                    e < p,
                    (forall|k: int| 0 <= k < viewables@.len() ==> text_within(*t, "Viewable"@, #[trigger] viewables@[k]@, e, p as int)),
                    (forall|k: int| 0 <= k < not_viewables@.len() ==> text_within(*t, "NotViewable"@, #[trigger] not_viewables@[k]@, e, p as int)),
                    (forall|k: int| 0 <= k < view_undetermineds@.len() ==> text_within(*t, "ViewUndetermined"@, #[trigger] view_undetermineds@[k]@, e, p as int)),
                    text_ends_fit(*t, "Viewable"@, viewables@, e, ends_viewables),
                    part_start(ends_viewables, e, viewables@.len() as int) <= p,
                    text_ends_fit(*t, "NotViewable"@, not_viewables@, e, ends_not_viewables),
                    part_start(ends_not_viewables, e, not_viewables@.len() as int) <= p,
                    text_ends_fit(*t, "ViewUndetermined"@, view_undetermineds@, e, ends_view_undetermineds),
                    part_start(ends_view_undetermineds, e, view_undetermineds@.len() as int) <= p,
                    count_of(ws, 0) == viewables@.len(),
                    count_of(ws, 1) == not_viewables@.len(),
                    count_of(ws, 2) == view_undetermineds@.len(),
                    count_of(ws, -1) == 0,
                ensures
                    pos < p <= n,
                    e < p,
                    children_cover(*t, ws, e + 1, content_end(e, p as int), 3),
                    (forall|k: int| 0 <= k < viewables@.len() ==> text_within(*t, "Viewable"@, #[trigger] viewables@[k]@, e, p as int)),
                    (forall|k: int| 0 <= k < not_viewables@.len() ==> text_within(*t, "NotViewable"@, #[trigger] not_viewables@[k]@, e, p as int)),
                    (forall|k: int| 0 <= k < view_undetermineds@.len() ==> text_within(*t, "ViewUndetermined"@, #[trigger] view_undetermineds@[k]@, e, p as int)),
                    text_ends_fit(*t, "Viewable"@, viewables@, e, ends_viewables),
                    part_start(ends_viewables, e, viewables@.len() as int) <= p,
                    text_ends_fit(*t, "NotViewable"@, not_viewables@, e, ends_not_viewables),
                    part_start(ends_not_viewables, e, not_viewables@.len() as int) <= p,
                    text_ends_fit(*t, "ViewUndetermined"@, view_undetermineds@, e, ends_view_undetermineds),
                    part_start(ends_view_undetermineds, e, view_undetermineds@.len() as int) <= p,
                    count_of(ws, 0) == viewables@.len(),
                    count_of(ws, 1) == not_viewables@.len(),
                    count_of(ws, 2) == view_undetermineds@.len(),
                    count_of(ws, -1) == 0,

                decreases n - p,
            {
                let (found, q) = find_element_start(t, p, "ViewableImpression")?;
                match found {
                    None => {
                        proof {
                            lemma_cover_extend(*t, ws, e + 1, p as int, q as int - 1, 3);
                        }
                        p = q;
                        break;
                    },
                    Some(tag) => {
                        if str_eq(tag.as_str(), "Viewable") {
                            let (s, q2) = read_text_child(t, q, "Viewable")?;
                            let v = s;
                            proof {
                                assert(text_within(*t, "Viewable"@, v@, q as int, q2 as int));
                                assert(text_within(*t, "Viewable"@, v@, part_start(ends_viewables, e, viewables@.len() as int), q2 as int));
                                lemma_text_ends_push(*t, "Viewable"@, viewables@, v, e, ends_viewables, q2 as int);
                                ends_viewables = ends_viewables.push(q2 as int);
                            }
                            viewables.push(v);
                            proof {
                                lemma_cover_push(*t, ws, e + 1, p as int, (q as int, q2 as int, 0), 3);
                                ws = ws.push((q as int, q2 as int, 0));
                            }
                            p = q2;
                        } else if str_eq(tag.as_str(), "NotViewable") {
                            let (s, q2) = read_text_child(t, q, "NotViewable")?;
                            let v = s;
                            proof {
                                assert(text_within(*t, "NotViewable"@, v@, q as int, q2 as int));
                                assert(text_within(*t, "NotViewable"@, v@, part_start(ends_not_viewables, e, not_viewables@.len() as int), q2 as int));
                                lemma_text_ends_push(*t, "NotViewable"@, not_viewables@, v, e, ends_not_viewables, q2 as int);
                                ends_not_viewables = ends_not_viewables.push(q2 as int);
                            }
                            not_viewables.push(v);
                            proof {
                                lemma_cover_push(*t, ws, e + 1, p as int, (q as int, q2 as int, 1), 3);
                                ws = ws.push((q as int, q2 as int, 1));
                            }
                            p = q2;
                        } else if str_eq(tag.as_str(), "ViewUndetermined") {
                            let (s, q2) = read_text_child(t, q, "ViewUndetermined")?;
                            let v = s;
                            proof {
                                assert(text_within(*t, "ViewUndetermined"@, v@, q as int, q2 as int));
                                assert(text_within(*t, "ViewUndetermined"@, v@, part_start(ends_view_undetermineds, e, view_undetermineds@.len() as int), q2 as int));
                                lemma_text_ends_push(*t, "ViewUndetermined"@, view_undetermineds@, v, e, ends_view_undetermineds, q2 as int);
                                ends_view_undetermineds = ends_view_undetermineds.push(q2 as int);
                            }
                            view_undetermineds.push(v);
                            proof {
                                lemma_cover_push(*t, ws, e + 1, p as int, (q as int, q2 as int, 2), 3);
                                ws = ws.push((q as int, q2 as int, 2));
                            }
                            p = q2;
                        } else {
                            return Err(unknown_field("ViewableImpression", tag));
                        }
                    },
                }
            }
        }
        assert(children_cover(*t, ws, e + 1, content_end(e, p as int), 3));
        assert(t.start_tag(start - 1, e, "ViewableImpression"@));
        assert(t.till_start(pos as int, "ViewableImpression"@) == Some(start as int));
        assert forall|i: int| start - 1 < i < e implies Self::knows(#[trigger] t.key(i)) by {
            assert(t.kind(i) == TokenKind::Attribute);
        }
        assert forall|i: int| start <= i < e implies #[trigger] t.attr_readable(i) && Self::knows(t.key(i)) by {
            assert(t.kind(i) == TokenKind::Attribute);
        }
        let v = ViewableImpression { id, viewables, not_viewables, view_undetermineds };
        assert(v.attrs_read(t, start - 1, e));
        assert(v.content_read(t, e, p as int));
        Ok((v, p))
    }

    fn write(&self, out: &mut String) {
        write_start(out, "ViewableImpression");
        let ghost mut head = start_tag("ViewableImpression"@);
        write_opt_attribute(out, "id", &self.id);
        proof {
            let piece = opt_attribute("id"@, opt_view(self.id));
            lemma_append(old(out)@, head, piece);
            head = head + piece;
        }
        if self.viewables.len() == 0 && self.not_viewables.len() == 0 && self.view_undetermineds.len() == 0 {
            write_empty_end(out);
        } else {
            let ghost mid = out@;
            let ghost mut body = seq!['>'];
            write_open_end(out);
            write_text_elements(out, "Viewable", &self.viewables, true);
            proof {
                let piece = seq_text("Viewable"@, self.viewables@, true);
                lemma_append(mid, body, piece);
                body = body + piece;
            }
            write_text_elements(out, "NotViewable", &self.not_viewables, true);
            proof {
                let piece = seq_text("NotViewable"@, self.not_viewables@, true);
                lemma_append(mid, body, piece);
                body = body + piece;
            }
            write_text_elements(out, "ViewUndetermined", &self.view_undetermineds, true);
            proof {
                let piece = seq_text("ViewUndetermined"@, self.view_undetermineds@, true);
                lemma_append(mid, body, piece);
                body = body + piece;
            }
            write_end(out, "ViewableImpression");
            proof {
                lemma_append(mid, body, end_tag("ViewableImpression"@));
                lemma_append(old(out)@, head, body + end_tag("ViewableImpression"@));
            }
        }
    }
}

} // verus!
