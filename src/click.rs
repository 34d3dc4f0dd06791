//! `<VideoClicks>`: what clicks on a linear creative do.
use vstd::prelude::*;
use crate::codec::{
    XmlElement, children_cover, count_of, content_end, prev_end, lemma_cover_push,
    lemma_cover_extend, lemma_cover_empty, lemma_ends_empty, read_within, read_in_order,
    lemma_read_within_widen, lemma_ends_push, ends_fit, part_start, lemma_append, seq_xml, opt_xml,
    opt_attribute, opt_view, missing_field, unknown_field, duplicate_attribute, duplicate_element,
    write_all, write_opt, write_opt_attribute,
};
use crate::reader::{
    is_close_end, lemma_attrs_end_bounds, read_till_element_start, find_attribute,
    find_element_start, read_text, is_empty_end_of,
};
use crate::writer::{
    start_tag, end_tag, cdata, write_start, write_open_end, write_empty_end, write_end, write_text,
};
use crate::xml::{DecodeError, TokenKind, Tokens};
use crate::text::{str_eq};

verus! {


/// What happens when the viewer clicks a linear creative.
#[derive(Debug, Clone, PartialEq, Default)]
pub struct VideoClicks {
    /// URIs to request on a click.
    pub click_trackings: Vec<ClickTracking>,
    /// The page to open on a click.
    pub click_through: Option<ClickThrough>,
    /// Other clicks.
    pub custom_clicks: Vec<CustomClick>,
}

impl XmlElement for VideoClicks {
    open spec fn tag() -> Seq<char> {
        "VideoClicks"@
    }

    open spec fn knows(key: Seq<char>) -> bool {
        false
    }

    open spec fn attrs_read(&self, t: &Tokens, s: int, e: int) -> bool {
        true
    }

    open spec fn content_read(&self, t: &Tokens, e: int, q: int) -> bool {
        (forall|k: int| 0 <= k < self.click_trackings@.len() ==> read_within(*t, #[trigger] self.click_trackings@[k], e, q))
            && read_in_order(*t, self.click_trackings@, e)
            && (self.click_through matches Some(c) ==> read_within(*t, c, e, q))
            && (forall|k: int| 0 <= k < self.custom_clicks@.len() ==> read_within(*t, #[trigger] self.custom_clicks@[k], e, q))
            && read_in_order(*t, self.custom_clicks@, e)
            && exists|ws: Seq<(int, int, int)>|
                #[trigger] children_cover(*t, ws, e + 1, content_end(e, q), 3)
                && count_of(ws, 0) == self.click_trackings@.len()
                && count_of(ws, 1) == (if self.click_through is Some { 1nat } else { 0nat })
                && count_of(ws, 2) == self.custom_clicks@.len()
                && count_of(ws, -1) == 0
    }

    open spec fn read_ok(t: &Tokens, pos: int) -> bool {
        false
    }

    open spec fn read_refused(t: &Tokens, pos: int) -> bool {
        t.start_malformed(pos, "VideoClicks"@) || match t.till_start(pos, "VideoClicks"@) {
            Some(a) => exists|i: int| a <= i < t.attrs_end(a) && !Self::knows(#[trigger] t.key(i)),
            None => false,
        }
    }

    open spec fn xml_spec(&self) -> Seq<char> {
        start_tag("VideoClicks"@)
            + (if self.click_trackings@.len() == 0 && self.click_through is None && self.custom_clicks@.len() == 0 {
            seq!['/', '>']
        } else {
            seq!['>'] + seq_xml(self.click_trackings@) + opt_xml(self.click_through) + seq_xml(self.custom_clicks@) + end_tag("VideoClicks"@)
        })
    }

    fn read(t: &Tokens, pos: usize) -> (r: Result<(Self, usize), DecodeError>) {
        let n = t.items.len();
        let start = read_till_element_start(t, pos, "VideoClicks")?;
        let mut p = start;
        let mut click_trackings: Vec<ClickTracking> = Vec::new();
        let mut click_through: Option<ClickThrough> = None;
        let mut custom_clicks: Vec<CustomClick> = Vec::new();
        loop
            invariant
                n == t.len(),
                start <= p <= n,
                start == n || (pos < start && t.starts(start - 1, "VideoClicks"@)),
                forall|i: int| start <= i < p ==> #[trigger] t.kind(i) == TokenKind::Attribute && Self::knows(t.key(i)),
                t.till_start(pos as int, "VideoClicks"@) == Some(start as int),
                t.attrs_end(start as int) == t.attrs_end(p as int),
                forall|i: int| start <= i < p ==> #[trigger] t.attr_readable(i),
            ensures
                start <= p < n,
                pos < start && t.starts(start - 1, "VideoClicks"@),
                forall|i: int| start <= i < p ==> #[trigger] t.kind(i) == TokenKind::Attribute && Self::knows(t.key(i)),
                t.kind(p as int) == TokenKind::ElementEnd && !is_close_end(t.span(p as int)),
                t.till_start(pos as int, "VideoClicks"@) == Some(start as int),
                t.attrs_end(start as int) == p,
                forall|i: int| start <= i < p ==> #[trigger] t.attr_readable(i),
            decreases n - p,
        {
            proof {
                lemma_attrs_end_bounds(t, p as int);
            }
            let (found, q) = find_attribute(t, p)?;
            match found {
                None => {
                    break;
                },
                Some((key, value)) => {
                    p = q;
                    return Err(unknown_field("VideoClicks", key));
                },
            }
        }
        let ghost e = p as int;
        let ghost mut ends_click_trackings: Seq<int> = Seq::empty();
        proof {
            lemma_ends_empty(*t, click_trackings@, e);
        }
        let ghost mut ends_custom_clicks: Seq<int> = Seq::empty();
        proof {
            lemma_ends_empty(*t, custom_clicks@, e);
        }
        let empty = is_empty_end_of(&t.items[p]);
        p = p + 1;
        let ghost mut ws: Seq<(int, int, int)> = Seq::empty();
        proof {
            lemma_cover_empty(*t, e + 1, 3);
        }
        if !empty {
            loop
                invariant_except_break
                    children_cover(*t, ws, e + 1, p as int, 3),
                    prev_end(ws, e + 1, ws.len() as int) == p,
                invariant
                    n == t.len(),
                    pos < p <= n,
                    e < p,
                    (forall|k: int| 0 <= k < click_trackings@.len() ==> read_within(*t, #[trigger] click_trackings@[k], e, p as int)),
                    (click_through matches Some(c) ==> read_within(*t, c, e, p as int)),
                    (forall|k: int| 0 <= k < custom_clicks@.len() ==> read_within(*t, #[trigger] custom_clicks@[k], e, p as int)),
                    ends_fit(*t, click_trackings@, e, ends_click_trackings),
                    part_start(ends_click_trackings, e, click_trackings@.len() as int) <= p,
                    ends_fit(*t, custom_clicks@, e, ends_custom_clicks),
                    part_start(ends_custom_clicks, e, custom_clicks@.len() as int) <= p,
                    count_of(ws, 0) == click_trackings@.len(),
                    count_of(ws, 1) == (if click_through is Some { 1nat } else { 0nat }),
                    count_of(ws, 2) == custom_clicks@.len(),
                    count_of(ws, -1) == 0,
                ensures
                    pos < p <= n,
                    e < p,
                    children_cover(*t, ws, e + 1, content_end(e, p as int), 3),
                    (forall|k: int| 0 <= k < click_trackings@.len() ==> read_within(*t, #[trigger] click_trackings@[k], e, p as int)),
                    (click_through matches Some(c) ==> read_within(*t, c, e, p as int)),
                    (forall|k: int| 0 <= k < custom_clicks@.len() ==> read_within(*t, #[trigger] custom_clicks@[k], e, p as int)),
                    ends_fit(*t, click_trackings@, e, ends_click_trackings),
                    part_start(ends_click_trackings, e, click_trackings@.len() as int) <= p,
                    ends_fit(*t, custom_clicks@, e, ends_custom_clicks),
                    part_start(ends_custom_clicks, e, custom_clicks@.len() as int) <= p,
                    count_of(ws, 0) == click_trackings@.len(),
                    count_of(ws, 1) == (if click_through is Some { 1nat } else { 0nat }),
                    count_of(ws, 2) == custom_clicks@.len(),
                    count_of(ws, -1) == 0,

                decreases n - p,
            {
                let (found, q) = find_element_start(t, p, "VideoClicks")?;
                match found {
                    None => {
                        proof {
                            lemma_cover_extend(*t, ws, e + 1, p as int, q as int - 1, 3);
                        }
                        p = q;
                        break;
                    },
                    Some(tag) => {
                        if str_eq(tag.as_str(), "ClickTracking") {
                            let (v, q2) = ClickTracking::read(t, q)?;
                            proof {
                                assert(read_within(*t, v, q as int, q2 as int));
                                lemma_read_within_widen(*t, v, q as int, q2 as int, part_start(ends_click_trackings, e, click_trackings@.len() as int), q2 as int);
                                lemma_ends_push(*t, click_trackings@, v, e, ends_click_trackings, q2 as int);
                                ends_click_trackings = ends_click_trackings.push(q2 as int);
                            }
                            click_trackings.push(v);
                            proof {
                                lemma_cover_push(*t, ws, e + 1, p as int, (q as int, q2 as int, 0), 3);
                                ws = ws.push((q as int, q2 as int, 0));
                            }
                            p = q2;
                        } else if str_eq(tag.as_str(), "ClickThrough") {
                            if click_through.is_some() {
                                return Err(duplicate_element("ClickThrough"));
                            }
                            let (v, q2) = ClickThrough::read(t, q)?;
                            click_through = Some(v);
                            proof {
                                lemma_cover_push(*t, ws, e + 1, p as int, (q as int, q2 as int, 1), 3);
                                ws = ws.push((q as int, q2 as int, 1));
                            }
                            p = q2;
                        } else if str_eq(tag.as_str(), "CustomClick") {
                            let (v, q2) = CustomClick::read(t, q)?;
                            proof {
                                assert(read_within(*t, v, q as int, q2 as int));
                                lemma_read_within_widen(*t, v, q as int, q2 as int, part_start(ends_custom_clicks, e, custom_clicks@.len() as int), q2 as int);
                                lemma_ends_push(*t, custom_clicks@, v, e, ends_custom_clicks, q2 as int);
                                ends_custom_clicks = ends_custom_clicks.push(q2 as int);
                            }
                            custom_clicks.push(v);
                            proof {
                                lemma_cover_push(*t, ws, e + 1, p as int, (q as int, q2 as int, 2), 3);
                                ws = ws.push((q as int, q2 as int, 2));
                            }
                            p = q2;
                        } else {
                            return Err(unknown_field("VideoClicks", tag));
                        }
                    },
                }
            }
        }
        assert(children_cover(*t, ws, e + 1, content_end(e, p as int), 3));
        if click_trackings.len() == 0 {
            return Err(missing_field("VideoClicks", "click_trackings"));
        }
        assert(t.start_tag(start - 1, e, "VideoClicks"@));
        assert(t.till_start(pos as int, "VideoClicks"@) == Some(start as int));
        assert forall|i: int| start - 1 < i < e implies Self::knows(#[trigger] t.key(i)) by {
            assert(t.kind(i) == TokenKind::Attribute);
        }
        assert forall|i: int| start <= i < e implies #[trigger] t.attr_readable(i) && Self::knows(t.key(i)) by {
            assert(t.kind(i) == TokenKind::Attribute);
        }
        let v = VideoClicks { click_trackings, click_through, custom_clicks };
        assert(v.content_read(t, e, p as int));
        Ok((v, p))
    }

    fn write(&self, out: &mut String) {
        write_start(out, "VideoClicks");
        let ghost mut head = start_tag("VideoClicks"@);
        if self.click_trackings.len() == 0 && self.click_through.is_none() && self.custom_clicks.len() == 0 {
            write_empty_end(out);
        } else {
            let ghost mid = out@;
            let ghost mut body = seq!['>'];
            write_open_end(out);
            write_all(out, &self.click_trackings);
            proof {
                let piece = seq_xml(self.click_trackings@);
                lemma_append(mid, body, piece);
                body = body + piece;
            }
            write_opt(out, &self.click_through);
            proof {
                let piece = opt_xml(self.click_through);
                lemma_append(mid, body, piece);
                body = body + piece;
            }
            write_all(out, &self.custom_clicks);
            proof {
                let piece = seq_xml(self.custom_clicks@);
                lemma_append(mid, body, piece);
                body = body + piece;
            }
            write_end(out, "VideoClicks");
            proof {
                lemma_append(mid, body, end_tag("VideoClicks"@));
                lemma_append(old(out)@, head, body + end_tag("VideoClicks"@));
            }
        }
    }
}

/// The page to open on a click.
#[derive(Debug, Clone, PartialEq, Default)]
pub struct ClickThrough {
    /// An identifier.
    pub id: Option<String>,
    /// The URI.
    pub uri: String,
}

impl XmlElement for ClickThrough {
    open spec fn tag() -> Seq<char> {
        "ClickThrough"@
    }

    open spec fn knows(key: Seq<char>) -> bool {
        key == "id"@
    }

    open spec fn attrs_read(&self, t: &Tokens, s: int, e: int) -> bool {
        (opt_view(self.id) == t.attr_text(s, e, "id"@))
    }

    open spec fn content_read(&self, t: &Tokens, e: int, q: int) -> bool {
        self.uri@ == t.text_of(e, q)
    }

    open spec fn read_ok(t: &Tokens, pos: int) -> bool {
        false
    }

    open spec fn read_refused(t: &Tokens, pos: int) -> bool {
        t.start_malformed(pos, "ClickThrough"@) || match t.till_start(pos, "ClickThrough"@) {
            Some(a) => exists|i: int| a <= i < t.attrs_end(a) && !Self::knows(#[trigger] t.key(i)),
            None => false,
        }
    }

    open spec fn xml_spec(&self) -> Seq<char> {
        start_tag("ClickThrough"@)
            + opt_attribute("id"@, opt_view(self.id))
            + (seq!['>'] + cdata(self.uri@) + end_tag("ClickThrough"@))
    }

    fn read(t: &Tokens, pos: usize) -> (r: Result<(Self, usize), DecodeError>) {
        let n = t.items.len();
        let start = read_till_element_start(t, pos, "ClickThrough")?;
        let mut p = start;
        let mut id: Option<String> = None;
        loop
            invariant
                n == t.len(),
                start <= p <= n,
                start == n || (pos < start && t.starts(start - 1, "ClickThrough"@)),
                forall|i: int| start <= i < p ==> #[trigger] t.kind(i) == TokenKind::Attribute && Self::knows(t.key(i)),
                t.till_start(pos as int, "ClickThrough"@) == Some(start as int),
                t.attrs_end(start as int) == t.attrs_end(p as int),
                forall|i: int| start <= i < p ==> #[trigger] t.attr_readable(i),
                opt_view(id) == t.attr_text(start - 1, p as int, "id"@),
            ensures
                start <= p < n,
                pos < start && t.starts(start - 1, "ClickThrough"@),
                forall|i: int| start <= i < p ==> #[trigger] t.kind(i) == TokenKind::Attribute && Self::knows(t.key(i)),
                t.kind(p as int) == TokenKind::ElementEnd && !is_close_end(t.span(p as int)),
                t.till_start(pos as int, "ClickThrough"@) == Some(start as int),
                t.attrs_end(start as int) == p,
                forall|i: int| start <= i < p ==> #[trigger] t.attr_readable(i),
                opt_view(id) == t.attr_text(start - 1, p as int, "id"@),
            decreases n - p,
        {
            proof {
                lemma_attrs_end_bounds(t, p as int);
            }
            let (found, q) = find_attribute(t, p)?;
            match found {
                None => {
                    break;
                },
                Some((key, value)) => {
                    p = q;
                    proof {
                        reveal_strlit("id");
                        assert("id"@.len() == 2);
                    }
                    if str_eq(key.as_str(), "id") {
                        if id.is_some() {
                            return Err(duplicate_attribute("id"));
                        }
                        id = Some(value);
                    } else {
                        return Err(unknown_field("ClickThrough", key));
                    }
                },
            }
        }
        let ghost e = p as int;
        let (text, q) = read_text(t, p, "ClickThrough")?;
        p = q;
        assert(t.start_tag(start - 1, e, "ClickThrough"@));
        assert(t.till_start(pos as int, "ClickThrough"@) == Some(start as int));
        assert forall|i: int| start - 1 < i < e implies Self::knows(#[trigger] t.key(i)) by {
            assert(t.kind(i) == TokenKind::Attribute);
        }
        assert forall|i: int| start <= i < e implies #[trigger] t.attr_readable(i) && Self::knows(t.key(i)) by {
            assert(t.kind(i) == TokenKind::Attribute);
        }
        let v = ClickThrough { id, uri: text };
        assert(v.attrs_read(t, start - 1, e));
        Ok((v, p))
    }

    fn write(&self, out: &mut String) {
        write_start(out, "ClickThrough");
        let ghost mut head = start_tag("ClickThrough"@);
        write_opt_attribute(out, "id", &self.id);
        proof {
            let piece = opt_attribute("id"@, opt_view(self.id));
            lemma_append(old(out)@, head, piece);
            head = head + piece;
        }
        let ghost mid = out@;
        let ghost mut body = seq!['>'];
        write_open_end(out);
        write_text(out, self.uri.as_str(), true);
        proof {
            let piece = cdata(self.uri@);
            lemma_append(mid, body, piece);
            body = body + piece;
        }
        write_end(out, "ClickThrough");
        proof {
            lemma_append(mid, body, end_tag("ClickThrough"@));
            lemma_append(old(out)@, head, body + end_tag("ClickThrough"@));
        }
    }
}

/// A URI to request on a click.
#[derive(Debug, Clone, PartialEq, Default)]
pub struct ClickTracking {
    /// An identifier.
    pub id: Option<String>,
    /// The URI.
    pub uri: String,
}

impl XmlElement for ClickTracking {
    open spec fn tag() -> Seq<char> {
        "ClickTracking"@
    }

    open spec fn knows(key: Seq<char>) -> bool {
        key == "id"@
    }

    open spec fn attrs_read(&self, t: &Tokens, s: int, e: int) -> bool {
        (opt_view(self.id) == t.attr_text(s, e, "id"@))
    }

    open spec fn content_read(&self, t: &Tokens, e: int, q: int) -> bool {
        self.uri@ == t.text_of(e, q)
    }

    open spec fn read_ok(t: &Tokens, pos: int) -> bool {
        false
    }

    open spec fn read_refused(t: &Tokens, pos: int) -> bool {
        t.start_malformed(pos, "ClickTracking"@) || match t.till_start(pos, "ClickTracking"@) {
            Some(a) => exists|i: int| a <= i < t.attrs_end(a) && !Self::knows(#[trigger] t.key(i)),
            None => false,
        }
    }

    open spec fn xml_spec(&self) -> Seq<char> {
        start_tag("ClickTracking"@)
            + opt_attribute("id"@, opt_view(self.id))
            + (seq!['>'] + cdata(self.uri@) + end_tag("ClickTracking"@))
    }

    fn read(t: &Tokens, pos: usize) -> (r: Result<(Self, usize), DecodeError>) {
        let n = t.items.len();
        let start = read_till_element_start(t, pos, "ClickTracking")?;
        let mut p = start;
        let mut id: Option<String> = None;
        loop
            invariant
                n == t.len(),
                start <= p <= n,
                start == n || (pos < start && t.starts(start - 1, "ClickTracking"@)),
                forall|i: int| start <= i < p ==> #[trigger] t.kind(i) == TokenKind::Attribute && Self::knows(t.key(i)),
                t.till_start(pos as int, "ClickTracking"@) == Some(start as int),
                t.attrs_end(start as int) == t.attrs_end(p as int),
                forall|i: int| start <= i < p ==> #[trigger] t.attr_readable(i),
                opt_view(id) == t.attr_text(start - 1, p as int, "id"@),
            ensures
                start <= p < n,
                pos < start && t.starts(start - 1, "ClickTracking"@),
                forall|i: int| start <= i < p ==> #[trigger] t.kind(i) == TokenKind::Attribute && Self::knows(t.key(i)),
                t.kind(p as int) == TokenKind::ElementEnd && !is_close_end(t.span(p as int)),
                t.till_start(pos as int, "ClickTracking"@) == Some(start as int),
                t.attrs_end(start as int) == p,
                forall|i: int| start <= i < p ==> #[trigger] t.attr_readable(i),
                opt_view(id) == t.attr_text(start - 1, p as int, "id"@),
            decreases n - p,
        {
            proof {
                lemma_attrs_end_bounds(t, p as int);
            }
            let (found, q) = find_attribute(t, p)?;
            match found {
                None => {
                    break;
                },
                Some((key, value)) => {
                    p = q;
                    proof {
                        reveal_strlit("id");
                        assert("id"@.len() == 2);
                    }
                    if str_eq(key.as_str(), "id") {
                        if id.is_some() {
                            return Err(duplicate_attribute("id"));
                        }
                        id = Some(value);
                    } else {
                        return Err(unknown_field("ClickTracking", key));
                    }
                },
            }
        }
        let ghost e = p as int;
        let (text, q) = read_text(t, p, "ClickTracking")?;
        p = q;
        assert(t.start_tag(start - 1, e, "ClickTracking"@));
        assert(t.till_start(pos as int, "ClickTracking"@) == Some(start as int));
        assert forall|i: int| start - 1 < i < e implies Self::knows(#[trigger] t.key(i)) by {
            assert(t.kind(i) == TokenKind::Attribute);
        }
        assert forall|i: int| start <= i < e implies #[trigger] t.attr_readable(i) && Self::knows(t.key(i)) by {
            assert(t.kind(i) == TokenKind::Attribute);
        }
        let v = ClickTracking { id, uri: text };
        assert(v.attrs_read(t, start - 1, e));
        Ok((v, p))
    }

    fn write(&self, out: &mut String) {
        write_start(out, "ClickTracking");
        let ghost mut head = start_tag("ClickTracking"@);
        write_opt_attribute(out, "id", &self.id);
        proof {
            let piece = opt_attribute("id"@, opt_view(self.id));
            lemma_append(old(out)@, head, piece);
            head = head + piece;
        }
        let ghost mid = out@;
        let ghost mut body = seq!['>'];
        write_open_end(out);
        write_text(out, self.uri.as_str(), true);
        proof {
            let piece = cdata(self.uri@);
            lemma_append(mid, body, piece);
            body = body + piece;
        }
        write_end(out, "ClickTracking");
        proof {
            lemma_append(mid, body, end_tag("ClickTracking"@));
            lemma_append(old(out)@, head, body + end_tag("ClickTracking"@));
        }
    }
}

/// A URI for a click other than the click-through.
#[derive(Debug, Clone, PartialEq, Default)]
pub struct CustomClick {
    /// An identifier.
    pub id: Option<String>,
    /// The URI.
    pub uri: String,
}

impl XmlElement for CustomClick {
    open spec fn tag() -> Seq<char> {
        "CustomClick"@
    }

    open spec fn knows(key: Seq<char>) -> bool {
        key == "id"@
    }

    open spec fn attrs_read(&self, t: &Tokens, s: int, e: int) -> bool {
        (opt_view(self.id) == t.attr_text(s, e, "id"@))
    }

    open spec fn content_read(&self, t: &Tokens, e: int, q: int) -> bool {
        self.uri@ == t.text_of(e, q)
    }

    open spec fn read_ok(t: &Tokens, pos: int) -> bool {
        false
    }

    open spec fn read_refused(t: &Tokens, pos: int) -> bool {
        t.start_malformed(pos, "CustomClick"@) || match t.till_start(pos, "CustomClick"@) {
            Some(a) => exists|i: int| a <= i < t.attrs_end(a) && !Self::knows(#[trigger] t.key(i)),
            None => false,
        }
    }

    open spec fn xml_spec(&self) -> Seq<char> {
        start_tag("CustomClick"@)
            + opt_attribute("id"@, opt_view(self.id))
            + (seq!['>'] + cdata(self.uri@) + end_tag("CustomClick"@))
    }

    fn read(t: &Tokens, pos: usize) -> (r: Result<(Self, usize), DecodeError>) {
        let n = t.items.len();
        let start = read_till_element_start(t, pos, "CustomClick")?;
        let mut p = start;
        let mut id: Option<String> = None;
        loop
            invariant
                n == t.len(),
                start <= p <= n,
                start == n || (pos < start && t.starts(start - 1, "CustomClick"@)),
                forall|i: int| start <= i < p ==> #[trigger] t.kind(i) == TokenKind::Attribute && Self::knows(t.key(i)),
                t.till_start(pos as int, "CustomClick"@) == Some(start as int),
                t.attrs_end(start as int) == t.attrs_end(p as int),
                forall|i: int| start <= i < p ==> #[trigger] t.attr_readable(i),
                opt_view(id) == t.attr_text(start - 1, p as int, "id"@),
            ensures
                start <= p < n,
                pos < start && t.starts(start - 1, "CustomClick"@),
                forall|i: int| start <= i < p ==> #[trigger] t.kind(i) == TokenKind::Attribute && Self::knows(t.key(i)),
                t.kind(p as int) == TokenKind::ElementEnd && !is_close_end(t.span(p as int)),
                t.till_start(pos as int, "CustomClick"@) == Some(start as int),
                t.attrs_end(start as int) == p,
                forall|i: int| start <= i < p ==> #[trigger] t.attr_readable(i),
                opt_view(id) == t.attr_text(start - 1, p as int, "id"@),
            decreases n - p,
        {
            proof {
                lemma_attrs_end_bounds(t, p as int);
            }
            let (found, q) = find_attribute(t, p)?;
            match found {
                None => {
                    break;
                },
                Some((key, value)) => {
                    p = q;
                    proof {
                        reveal_strlit("id");
                        assert("id"@.len() == 2);
                    }
                    if str_eq(key.as_str(), "id") {
                        if id.is_some() {
                            return Err(duplicate_attribute("id"));
                        }
                        id = Some(value);
                    } else {
                        return Err(unknown_field("CustomClick", key));
                    }
                },
            }
        }
        let ghost e = p as int;
        let (text, q) = read_text(t, p, "CustomClick")?;
        p = q;
        assert(t.start_tag(start - 1, e, "CustomClick"@));
        assert(t.till_start(pos as int, "CustomClick"@) == Some(start as int));
        assert forall|i: int| start - 1 < i < e implies Self::knows(#[trigger] t.key(i)) by {
            assert(t.kind(i) == TokenKind::Attribute);
        }
        assert forall|i: int| start <= i < e implies #[trigger] t.attr_readable(i) && Self::knows(t.key(i)) by {
            assert(t.kind(i) == TokenKind::Attribute);
        }
        let v = CustomClick { id, uri: text };
        assert(v.attrs_read(t, start - 1, e));
        Ok((v, p))
    }

    fn write(&self, out: &mut String) {
        write_start(out, "CustomClick");
        let ghost mut head = start_tag("CustomClick"@);
        write_opt_attribute(out, "id", &self.id);
        proof {
            let piece = opt_attribute("id"@, opt_view(self.id));
            lemma_append(old(out)@, head, piece);
            head = head + piece;
        }
        let ghost mid = out@;
        let ghost mut body = seq!['>'];
        write_open_end(out);
        write_text(out, self.uri.as_str(), true);
        proof {
            let piece = cdata(self.uri@);
            lemma_append(mid, body, piece);
            body = body + piece;
        }
        write_end(out, "CustomClick");
        proof {
            lemma_append(mid, body, end_tag("CustomClick"@));
            lemma_append(old(out)@, head, body + end_tag("CustomClick"@));
        }
    }
}

} // verus!
