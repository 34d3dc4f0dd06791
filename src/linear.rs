//! `<Linear>`: the linear creative.
use vstd::prelude::*;
use crate::codec::{
    XmlElement, children_cover, count_of, content_end, prev_end, lemma_cover_push,
    lemma_cover_extend, lemma_cover_empty, read_within, duration_within, lemma_append,
    parse_bool_spec, opt_xml, opt_attribute, opt_bool_text, duration_child, parse_bool,
    scalar_error, unknown_field, duplicate_attribute, duplicate_element, read_duration_child,
    write_opt, write_opt_bool_attribute, write_duration_child, from_str, to_string,
};
use crate::reader::{
    is_close_end, lemma_attrs_end_bounds, read_till_element_start, find_attribute,
    find_element_start, read_text, is_empty_end_of,
};
use crate::writer::{
    start_tag, end_tag, write_start, write_attribute, write_open_end, write_empty_end, write_end,
    write_text,
};
use crate::xml::{DecodeError, TokenKind, Tokens, escape_spec};
use crate::text::{str_eq};
use crate::duration::{parse_duration};
use crate::media_file::{MediaFiles};
use crate::click::{VideoClicks};
use crate::icon::{Icons};
use crate::tracking::{TrackingEvents, Tracking};
use crate::duration::{Duration};

verus! {


/// A linear creative: played before, between or after the content.
#[derive(Debug, Clone, PartialEq, Default)]
pub struct Linear {
    /// When the creative may be skipped.
    pub skipoffset: Option<Duration>,
    /// Icons shown over the creative.
    pub icons: Option<Icons>,
    /// Tracking events.
    pub tracking_events: Option<TrackingEvents>,
    /// Data for the creative.
    pub ad_parameters: Option<AdParameters>,
    /// The length of the creative; a zero length is not written.
    pub duration: Option<Duration>,
    /// The media files.
    pub media_files: Option<MediaFiles>,
    /// Click handling.
    pub video_clicks: Option<VideoClicks>,
}

impl XmlElement for Linear {
    open spec fn tag() -> Seq<char> {
        "Linear"@
    }

    open spec fn knows(key: Seq<char>) -> bool {
        key == "skipoffset"@
    }

    open spec fn attrs_read(&self, t: &Tokens, s: int, e: int) -> bool {
        (self.skipoffset == match t.attr_text(s, e, "skipoffset"@) {
            Some(v) => parse_duration(v),
            None => None,
        })
    }

    open spec fn content_read(&self, t: &Tokens, e: int, q: int) -> bool {
        (self.icons matches Some(c) ==> read_within(*t, c, e, q))
            && (self.tracking_events matches Some(c) ==> read_within(*t, c, e, q))
            && (self.ad_parameters matches Some(c) ==> read_within(*t, c, e, q))
            && (self.duration matches Some(d) ==> duration_within(*t, d, e, q))
            && (self.media_files matches Some(c) ==> read_within(*t, c, e, q))
            && (self.video_clicks matches Some(c) ==> read_within(*t, c, e, q))
            && exists|ws: Seq<(int, int, int)>|
                #[trigger] children_cover(*t, ws, e + 1, content_end(e, q), 6)
                && count_of(ws, 0) == (if self.icons is Some { 1nat } else { 0nat })
                && count_of(ws, 1) == (if self.tracking_events is Some { 1nat } else { 0nat })
                && count_of(ws, 2) == (if self.ad_parameters is Some { 1nat } else { 0nat })
                && count_of(ws, 3) == (if self.duration is Some { 1nat } else { 0nat })
                && count_of(ws, 4) == (if self.media_files is Some { 1nat } else { 0nat })
                && count_of(ws, 5) == (if self.video_clicks is Some { 1nat } else { 0nat })
                && count_of(ws, -1) == 0
    }

    open spec fn read_ok(t: &Tokens, pos: int) -> bool {
        false
    }

    open spec fn read_refused(t: &Tokens, pos: int) -> bool {
        t.start_malformed(pos, "Linear"@) || match t.till_start(pos, "Linear"@) {
            Some(a) => exists|i: int| a <= i < t.attrs_end(a) && !Self::knows(#[trigger] t.key(i)),
            None => false,
        }
    }

    open spec fn xml_spec(&self) -> Seq<char> {
        start_tag("Linear"@)
            + opt_attribute(
            "skipoffset"@,
            match self.skipoffset {
                Some(v) => Some(v.format_spec()),
                None => None,
            },
        )
            + (if self.icons is None && self.tracking_events is None && self.ad_parameters is None && self.duration is None && self.media_files is None && self.video_clicks is None {
            seq!['/', '>']
        } else {
            seq!['>'] + opt_xml(self.icons) + opt_xml(self.tracking_events) + opt_xml(self.ad_parameters) + duration_child(self.duration) + opt_xml(self.media_files) + opt_xml(self.video_clicks) + end_tag("Linear"@)
        })
    }

    fn read(t: &Tokens, pos: usize) -> (r: Result<(Self, usize), DecodeError>) {
        let n = t.items.len();
        let start = read_till_element_start(t, pos, "Linear")?;
        let mut p = start;
        let mut skipoffset: Option<Duration> = None;
        let mut icons: Option<Icons> = None;
        let mut tracking_events: Option<TrackingEvents> = None;
        let mut ad_parameters: Option<AdParameters> = None;
        let mut duration: Option<Duration> = None;
        let mut media_files: Option<MediaFiles> = None;
        let mut video_clicks: Option<VideoClicks> = None;
        loop
            invariant
                n == t.len(),
                start <= p <= n,
                start == n || (pos < start && t.starts(start - 1, "Linear"@)),
                forall|i: int| start <= i < p ==> #[trigger] t.kind(i) == TokenKind::Attribute && Self::knows(t.key(i)),
                t.till_start(pos as int, "Linear"@) == Some(start as int),
                t.attrs_end(start as int) == t.attrs_end(p as int),
                forall|i: int| start <= i < p ==> #[trigger] t.attr_readable(i),
                skipoffset == match t.attr_text(start - 1, p as int, "skipoffset"@) {
                    Some(v) => parse_duration(v),
                    None => None,
                },
            ensures
                start <= p < n,
                pos < start && t.starts(start - 1, "Linear"@),
                forall|i: int| start <= i < p ==> #[trigger] t.kind(i) == TokenKind::Attribute && Self::knows(t.key(i)),
                t.kind(p as int) == TokenKind::ElementEnd && !is_close_end(t.span(p as int)),
                t.till_start(pos as int, "Linear"@) == Some(start as int),
                t.attrs_end(start as int) == p,
                forall|i: int| start <= i < p ==> #[trigger] t.attr_readable(i),
                skipoffset == match t.attr_text(start - 1, p as int, "skipoffset"@) {
                    Some(v) => parse_duration(v),
                    None => None,
                },
            decreases n - p,
        {
            proof {
                lemma_attrs_end_bounds(t, p as int);
            }
            let (found, q) = find_attribute(t, p)?;
            match found {
                None => {
                    break;
                },
                Some((key, value)) => {
                    p = q;
                    proof {
                        reveal_strlit("skipoffset");
                        assert("skipoffset"@.len() == 10);
                    }
                    if str_eq(key.as_str(), "skipoffset") {
                        if skipoffset.is_some() {
                            return Err(duplicate_attribute("skipoffset"));
                        }
                        skipoffset = Some(match Duration::from_str(value.as_str()) {
                            Ok(v) => v,
                            Err(e) => return Err(scalar_error(e)),
                        });
                    } else {
                        return Err(unknown_field("Linear", key));
                    }
                },
            }
        }
        let ghost e = p as int;
        let empty = is_empty_end_of(&t.items[p]);
        p = p + 1;
        let ghost mut ws: Seq<(int, int, int)> = Seq::empty();
        proof {
            lemma_cover_empty(*t, e + 1, 6);
        }
        if !empty {
            loop
                invariant_except_break
                    children_cover(*t, ws, e + 1, p as int, 6),
                    prev_end(ws, e + 1, ws.len() as int) == p,
                invariant
                    n == t.len(),
                    pos < p <= n,
                    e < p,
                    (icons matches Some(c) ==> read_within(*t, c, e, p as int)),
                    (tracking_events matches Some(c) ==> read_within(*t, c, e, p as int)),
                    (ad_parameters matches Some(c) ==> read_within(*t, c, e, p as int)),
                    (duration matches Some(d) ==> duration_within(*t, d, e, p as int)),
                    (media_files matches Some(c) ==> read_within(*t, c, e, p as int)),
                    (video_clicks matches Some(c) ==> read_within(*t, c, e, p as int)),
                    count_of(ws, 0) == (if icons is Some { 1nat } else { 0nat }),
                    count_of(ws, 1) == (if tracking_events is Some { 1nat } else { 0nat }),
                    count_of(ws, 2) == (if ad_parameters is Some { 1nat } else { 0nat }),
                    count_of(ws, 3) == (if duration is Some { 1nat } else { 0nat }),
                    count_of(ws, 4) == (if media_files is Some { 1nat } else { 0nat }),
                    count_of(ws, 5) == (if video_clicks is Some { 1nat } else { 0nat }),
                    count_of(ws, -1) == 0,
                ensures
                    pos < p <= n,
                    e < p,
                    children_cover(*t, ws, e + 1, content_end(e, p as int), 6),
                    (icons matches Some(c) ==> read_within(*t, c, e, p as int)),
                    (tracking_events matches Some(c) ==> read_within(*t, c, e, p as int)),
                    (ad_parameters matches Some(c) ==> read_within(*t, c, e, p as int)),
                    (duration matches Some(d) ==> duration_within(*t, d, e, p as int)),
                    (media_files matches Some(c) ==> read_within(*t, c, e, p as int)),
                    (video_clicks matches Some(c) ==> read_within(*t, c, e, p as int)),
                    count_of(ws, 0) == (if icons is Some { 1nat } else { 0nat }),
                    count_of(ws, 1) == (if tracking_events is Some { 1nat } else { 0nat }),
                    count_of(ws, 2) == (if ad_parameters is Some { 1nat } else { 0nat }),
                    count_of(ws, 3) == (if duration is Some { 1nat } else { 0nat }),
                    count_of(ws, 4) == (if media_files is Some { 1nat } else { 0nat }),
                    count_of(ws, 5) == (if video_clicks is Some { 1nat } else { 0nat }),
                    count_of(ws, -1) == 0,

                decreases n - p,
            {
                let (found, q) = find_element_start(t, p, "Linear")?;
                match found {
                    None => {
                        proof {
                            lemma_cover_extend(*t, ws, e + 1, p as int, q as int - 1, 6);
                        }
                        p = q;
                        break;
                    },
                    Some(tag) => {
                        if str_eq(tag.as_str(), "Icons") {
                            if icons.is_some() {
                                return Err(duplicate_element("Icons"));
                            }
                            let (v, q2) = Icons::read(t, q)?;
                            icons = Some(v);
                            proof {
                                lemma_cover_push(*t, ws, e + 1, p as int, (q as int, q2 as int, 0), 6);
                                ws = ws.push((q as int, q2 as int, 0));
                            }
                            p = q2;
                        } else if str_eq(tag.as_str(), "TrackingEvents") {
                            if tracking_events.is_some() {
                                return Err(duplicate_element("TrackingEvents"));
                            }
                            let (v, q2) = TrackingEvents::read(t, q)?;
                            tracking_events = Some(v);
                            proof {
                                lemma_cover_push(*t, ws, e + 1, p as int, (q as int, q2 as int, 1), 6);
                                ws = ws.push((q as int, q2 as int, 1));
                            }
                            p = q2;
                        } else if str_eq(tag.as_str(), "AdParameters") {
                            if ad_parameters.is_some() {
                                return Err(duplicate_element("AdParameters"));
                            }
                            let (v, q2) = AdParameters::read(t, q)?;
                            ad_parameters = Some(v);
                            proof {
                                lemma_cover_push(*t, ws, e + 1, p as int, (q as int, q2 as int, 2), 6);
                                ws = ws.push((q as int, q2 as int, 2));
                            }
                            p = q2;
                        } else if str_eq(tag.as_str(), "Duration") {
                            if duration.is_some() {
                                return Err(duplicate_element("Duration"));
                            }
                            let (v, q2) = read_duration_child(t, q)?;
                            duration = Some(v);
                            proof {
                                lemma_cover_push(*t, ws, e + 1, p as int, (q as int, q2 as int, 3), 6);
                                ws = ws.push((q as int, q2 as int, 3));
                            }
                            p = q2;
                        } else if str_eq(tag.as_str(), "MediaFiles") {
                            if media_files.is_some() {
                                return Err(duplicate_element("MediaFiles"));
                            }
                            let (v, q2) = MediaFiles::read(t, q)?;
                            media_files = Some(v);
                            proof {
                                lemma_cover_push(*t, ws, e + 1, p as int, (q as int, q2 as int, 4), 6);
                                ws = ws.push((q as int, q2 as int, 4));
                            }
                            p = q2;
                        } else if str_eq(tag.as_str(), "VideoClicks") {
                            if video_clicks.is_some() {
                                return Err(duplicate_element("VideoClicks"));
                            }
                            let (v, q2) = VideoClicks::read(t, q)?;
                            video_clicks = Some(v);
                            proof {
                                lemma_cover_push(*t, ws, e + 1, p as int, (q as int, q2 as int, 5), 6);
                                ws = ws.push((q as int, q2 as int, 5));
                            }
                            p = q2;
                        } else {
                            return Err(unknown_field("Linear", tag));
                        }
                    },
                }
            }
        }
        assert(children_cover(*t, ws, e + 1, content_end(e, p as int), 6));
        assert(t.start_tag(start - 1, e, "Linear"@));
        assert(t.till_start(pos as int, "Linear"@) == Some(start as int));
        assert forall|i: int| start - 1 < i < e implies Self::knows(#[trigger] t.key(i)) by {
            assert(t.kind(i) == TokenKind::Attribute);
        }
        assert forall|i: int| start <= i < e implies #[trigger] t.attr_readable(i) && Self::knows(t.key(i)) by {
            assert(t.kind(i) == TokenKind::Attribute);
        }
        let v = Linear { skipoffset, icons, tracking_events, ad_parameters, duration, media_files, video_clicks };
        assert(v.attrs_read(t, start - 1, e));
        assert(v.content_read(t, e, p as int));
        Ok((v, p))
    }

    fn write(&self, out: &mut String) {
        write_start(out, "Linear");
        let ghost mut head = start_tag("Linear"@);
        match &self.skipoffset {
            Some(v) => write_attribute(out, "skipoffset", v.to_string().as_str()),
            None => {},
        }
        proof {
            let piece = opt_attribute(
            "skipoffset"@,
            match self.skipoffset {
                Some(v) => Some(v.format_spec()),
                None => None,
            },
        );
            lemma_append(old(out)@, head, piece);
            head = head + piece;
        }
        if self.icons.is_none() && self.tracking_events.is_none() && self.ad_parameters.is_none() && self.duration.is_none() && self.media_files.is_none() && self.video_clicks.is_none() {
            write_empty_end(out);
        } else {
            let ghost mid = out@;
            let ghost mut body = seq!['>'];
            write_open_end(out);
            write_opt(out, &self.icons);
            proof {
                let piece = opt_xml(self.icons);
                lemma_append(mid, body, piece);
                body = body + piece;
            }
            write_opt(out, &self.tracking_events);
            proof {
                let piece = opt_xml(self.tracking_events);
                lemma_append(mid, body, piece);
                body = body + piece;
            }
            write_opt(out, &self.ad_parameters);
            proof {
                let piece = opt_xml(self.ad_parameters);
                lemma_append(mid, body, piece);
                body = body + piece;
            }
            write_duration_child(out, &self.duration);
            proof {
                let piece = duration_child(self.duration);
                lemma_append(mid, body, piece);
                body = body + piece;
            }
            write_opt(out, &self.media_files);
            proof {
                let piece = opt_xml(self.media_files);
                lemma_append(mid, body, piece);
                body = body + piece;
            }
            write_opt(out, &self.video_clicks);
            proof {
                let piece = opt_xml(self.video_clicks);
                lemma_append(mid, body, piece);
                body = body + piece;
            }
            write_end(out, "Linear");
            proof {
                lemma_append(mid, body, end_tag("Linear"@));
                lemma_append(old(out)@, head, body + end_tag("Linear"@));
            }
        }
    }
}

/// Data passed to the creative.
#[derive(Debug, Clone, PartialEq, Default)]
pub struct AdParameters {
    /// Whether the data is XML-encoded.
    pub xml_encoded: Option<bool>,
    /// The data.
    pub metadata: String,
}

impl XmlElement for AdParameters {
    open spec fn tag() -> Seq<char> {
        "AdParameters"@
    }

    open spec fn knows(key: Seq<char>) -> bool {
        key == "xmlEncoded"@
    }

    open spec fn attrs_read(&self, t: &Tokens, s: int, e: int) -> bool {
        (self.xml_encoded == match t.attr_text(s, e, "xmlEncoded"@) {
            Some(v) => parse_bool_spec(v),
            None => None,
        })
    }

    open spec fn content_read(&self, t: &Tokens, e: int, q: int) -> bool {
        self.metadata@ == t.text_of(e, q)
    }

    open spec fn read_ok(t: &Tokens, pos: int) -> bool {
        false
    }

    open spec fn read_refused(t: &Tokens, pos: int) -> bool {
        t.start_malformed(pos, "AdParameters"@) || match t.till_start(pos, "AdParameters"@) {
            Some(a) => exists|i: int| a <= i < t.attrs_end(a) && !Self::knows(#[trigger] t.key(i)),
            None => false,
        }
    }

    open spec fn xml_spec(&self) -> Seq<char> {
        start_tag("AdParameters"@)
            + opt_attribute("xmlEncoded"@, opt_bool_text(self.xml_encoded))
            + (seq!['>'] + escape_spec(self.metadata@) + end_tag("AdParameters"@))
    }

    fn read(t: &Tokens, pos: usize) -> (r: Result<(Self, usize), DecodeError>) {
        let n = t.items.len();
        let start = read_till_element_start(t, pos, "AdParameters")?;
        let mut p = start;
        let mut xml_encoded: Option<bool> = None;
        loop
            invariant
                n == t.len(),
                start <= p <= n,
                start == n || (pos < start && t.starts(start - 1, "AdParameters"@)),
                forall|i: int| start <= i < p ==> #[trigger] t.kind(i) == TokenKind::Attribute && Self::knows(t.key(i)),
                t.till_start(pos as int, "AdParameters"@) == Some(start as int),
                t.attrs_end(start as int) == t.attrs_end(p as int),
                forall|i: int| start <= i < p ==> #[trigger] t.attr_readable(i),
                xml_encoded == match t.attr_text(start - 1, p as int, "xmlEncoded"@) {
                    Some(v) => parse_bool_spec(v),
                    None => None,
                },
            ensures
                start <= p < n,
                pos < start && t.starts(start - 1, "AdParameters"@),
                forall|i: int| start <= i < p ==> #[trigger] t.kind(i) == TokenKind::Attribute && Self::knows(t.key(i)),
                t.kind(p as int) == TokenKind::ElementEnd && !is_close_end(t.span(p as int)),
                t.till_start(pos as int, "AdParameters"@) == Some(start as int),
                t.attrs_end(start as int) == p,
                forall|i: int| start <= i < p ==> #[trigger] t.attr_readable(i),
                xml_encoded == match t.attr_text(start - 1, p as int, "xmlEncoded"@) {
                    Some(v) => parse_bool_spec(v),
                    None => None,
                },
            decreases n - p,
        {
            proof {
                lemma_attrs_end_bounds(t, p as int);
            }
            let (found, q) = find_attribute(t, p)?;
            match found {
                None => {
                    break;
                },
                Some((key, value)) => {
                    p = q;
                    proof {
                        reveal_strlit("xmlEncoded");
                        assert("xmlEncoded"@.len() == 10);
                    }
                    if str_eq(key.as_str(), "xmlEncoded") {
                        if xml_encoded.is_some() {
                            return Err(duplicate_attribute("xmlEncoded"));
                        }
                        xml_encoded = Some(parse_bool(value.as_str())?);
                    } else {
                        return Err(unknown_field("AdParameters", key));
                    }
                },
            }
        }
        let ghost e = p as int;
        let (text, q) = read_text(t, p, "AdParameters")?;
        p = q;
        assert(t.start_tag(start - 1, e, "AdParameters"@));
        assert(t.till_start(pos as int, "AdParameters"@) == Some(start as int));
        assert forall|i: int| start - 1 < i < e implies Self::knows(#[trigger] t.key(i)) by {
            assert(t.kind(i) == TokenKind::Attribute);
        }
        assert forall|i: int| start <= i < e implies #[trigger] t.attr_readable(i) && Self::knows(t.key(i)) by {
            assert(t.kind(i) == TokenKind::Attribute);
        }
        let v = AdParameters { xml_encoded, metadata: text };
        assert(v.attrs_read(t, start - 1, e));
        Ok((v, p))
    }

    fn write(&self, out: &mut String) {
        write_start(out, "AdParameters");
        let ghost mut head = start_tag("AdParameters"@);
        write_opt_bool_attribute(out, "xmlEncoded", self.xml_encoded);
        proof {
            let piece = opt_attribute("xmlEncoded"@, opt_bool_text(self.xml_encoded));
            lemma_append(old(out)@, head, piece);
            head = head + piece;
        }
        let ghost mid = out@;
        let ghost mut body = seq!['>'];
        write_open_end(out);
        write_text(out, self.metadata.as_str(), false);
        proof {
            let piece = escape_spec(self.metadata@);
            lemma_append(mid, body, piece);
            body = body + piece;
        }
        write_end(out, "AdParameters");
        proof {
            lemma_append(mid, body, end_tag("AdParameters"@));
            lemma_append(old(out)@, head, body + end_tag("AdParameters"@));
        }
    }
}

} // verus!
