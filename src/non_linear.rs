//! `<NonLinearAds>`: creatives shown over the content.
use vstd::prelude::*;
use crate::codec::{
    XmlElement, children_cover, count_of, content_end, prev_end, lemma_cover_push,
    lemma_cover_extend, lemma_cover_empty, lemma_ends_empty, lemma_text_ends_empty, read_within,
    read_in_order, texts_in_order, lemma_read_within_widen, lemma_ends_push, lemma_text_ends_push,
    ends_fit, text_ends_fit, part_start, text_within, lemma_append, parse_bool_spec, seq_xml,
    opt_xml, seq_text, opt_text, opt_attribute, opt_view, opt_i32_text, opt_bool_text, parse_bool,
    parse_int, scalar_error, unknown_field, duplicate_attribute, duplicate_element,
    read_text_child, write_all, write_opt, write_text_elements, write_opt_text,
    write_opt_attribute, write_opt_int_attribute, write_opt_bool_attribute, from_str, to_string,
};
use crate::reader::{
    is_close_end, lemma_attrs_end_bounds, read_till_element_start, find_attribute,
    find_element_start, read_text, is_empty_end_of,
};
use crate::writer::{
    start_tag, end_tag, cdata, write_start, write_attribute, write_open_end, write_empty_end,
    write_end, write_text,
};
use crate::xml::{DecodeError, TokenKind, Tokens};
use crate::text::{str_eq, parse_i32_spec};
use crate::duration::{parse_duration};
use crate::linear::{AdParameters};
use crate::tracking::{TrackingEvents, Tracking};
use crate::creative_resource::{StaticResource};
use crate::duration::{Duration};

verus! {


/// The non-linear creatives of a creative.
#[derive(Debug, Clone, PartialEq, Default)]
pub struct NonLinearAds {
    /// Tracking events.
    pub tracking_events: Option<TrackingEvents>,
    /// The non-linear creatives.
    pub non_linears: Vec<NonLinear>,
}

impl XmlElement for NonLinearAds {
    open spec fn tag() -> Seq<char> {
        "NonLinearAds"@
    }

    open spec fn knows(key: Seq<char>) -> bool {
        false
    }

    open spec fn attrs_read(&self, t: &Tokens, s: int, e: int) -> bool {
        true
    }

    open spec fn content_read(&self, t: &Tokens, e: int, q: int) -> bool {
        (self.tracking_events matches Some(c) ==> read_within(*t, c, e, q))
            && (forall|k: int| 0 <= k < self.non_linears@.len() ==> read_within(*t, #[trigger] self.non_linears@[k], e, q))
            && read_in_order(*t, self.non_linears@, e)
            && exists|ws: Seq<(int, int, int)>|
                #[trigger] children_cover(*t, ws, e + 1, content_end(e, q), 2)
                && count_of(ws, 0) == (if self.tracking_events is Some { 1nat } else { 0nat })
                && count_of(ws, 1) == self.non_linears@.len()
                && count_of(ws, -1) == 0
    }

    open spec fn read_ok(t: &Tokens, pos: int) -> bool {
        false
    }

    open spec fn read_refused(t: &Tokens, pos: int) -> bool {
        t.start_malformed(pos, "NonLinearAds"@) || match t.till_start(pos, "NonLinearAds"@) {
            Some(a) => exists|i: int| a <= i < t.attrs_end(a) && !Self::knows(#[trigger] t.key(i)),
            None => false,
        }
    }

    open spec fn xml_spec(&self) -> Seq<char> {
        start_tag("NonLinearAds"@)
            + (if self.tracking_events is None && self.non_linears@.len() == 0 {
            seq!['/', '>']
        } else {
            seq!['>'] + opt_xml(self.tracking_events) + seq_xml(self.non_linears@) + end_tag("NonLinearAds"@)
        })
    }

    fn read(t: &Tokens, pos: usize) -> (r: Result<(Self, usize), DecodeError>) {
        let n = t.items.len();
        let start = read_till_element_start(t, pos, "NonLinearAds")?;
        let mut p = start;
        let mut tracking_events: Option<TrackingEvents> = None;
        let mut non_linears: Vec<NonLinear> = Vec::new();
        loop
            invariant
                n == t.len(),
                start <= p <= n,
                start == n || (pos < start && t.starts(start - 1, "NonLinearAds"@)),
                forall|i: int| start <= i < p ==> #[trigger] t.kind(i) == TokenKind::Attribute && Self::knows(t.key(i)),
                t.till_start(pos as int, "NonLinearAds"@) == Some(start as int),
                t.attrs_end(start as int) == t.attrs_end(p as int),
                forall|i: int| start <= i < p ==> #[trigger] t.attr_readable(i),
            ensures
                start <= p < n,
                pos < start && t.starts(start - 1, "NonLinearAds"@),
                forall|i: int| start <= i < p ==> #[trigger] t.kind(i) == TokenKind::Attribute && Self::knows(t.key(i)),
                t.kind(p as int) == TokenKind::ElementEnd && !is_close_end(t.span(p as int)),
                t.till_start(pos as int, "NonLinearAds"@) == Some(start as int),
                t.attrs_end(start as int) == p,
                forall|i: int| start <= i < p ==> #[trigger] t.attr_readable(i),
            decreases n - p,
        {
            proof {
                lemma_attrs_end_bounds(t, p as int);
            }
            let (found, q) = find_attribute(t, p)?;
            match found {
                None => {
                    break;
                },
                Some((key, value)) => {
                    p = q;
                    return Err(unknown_field("NonLinearAds", key));
                },
            }
        }
        let ghost e = p as int;
        let ghost mut ends_non_linears: Seq<int> = Seq::empty();
        proof {
            lemma_ends_empty(*t, non_linears@, e);
        }
        let empty = is_empty_end_of(&t.items[p]);
        p = p + 1;
        let ghost mut ws: Seq<(int, int, int)> = Seq::empty();
        proof {
            lemma_cover_empty(*t, e + 1, 2);
        }
        if !empty {
            loop
                invariant_except_break
                    children_cover(*t, ws, e + 1, p as int, 2),
                    prev_end(ws, e + 1, ws.len() as int) == p,
                invariant
                    n == t.len(),
                    pos < p <= n,
                    e < p,
                    (tracking_events matches Some(c) ==> read_within(*t, c, e, p as int)),
                    (forall|k: int| 0 <= k < non_linears@.len() ==> read_within(*t, #[trigger] non_linears@[k], e, p as int)),
                    ends_fit(*t, non_linears@, e, ends_non_linears),
                    part_start(ends_non_linears, e, non_linears@.len() as int) <= p,
                    count_of(ws, 0) == (if tracking_events is Some { 1nat } else { 0nat }),
                    count_of(ws, 1) == non_linears@.len(),
                    count_of(ws, -1) == 0,
                ensures
                    pos < p <= n,
                    e < p,
                    children_cover(*t, ws, e + 1, content_end(e, p as int), 2),
                    (tracking_events matches Some(c) ==> read_within(*t, c, e, p as int)),
                    (forall|k: int| 0 <= k < non_linears@.len() ==> read_within(*t, #[trigger] non_linears@[k], e, p as int)),
                    ends_fit(*t, non_linears@, e, ends_non_linears),
                    part_start(ends_non_linears, e, non_linears@.len() as int) <= p,
                    count_of(ws, 0) == (if tracking_events is Some { 1nat } else { 0nat }),
                    count_of(ws, 1) == non_linears@.len(),
                    count_of(ws, -1) == 0,

                decreases n - p,
            {
                let (found, q) = find_element_start(t, p, "NonLinearAds")?;
                match found {
                    None => {
                        proof {
                            lemma_cover_extend(*t, ws, e + 1, p as int, q as int - 1, 2);
                        }
                        p = q;
                        break;
                    },
                    Some(tag) => {
                        if str_eq(tag.as_str(), "TrackingEvents") {
                            if tracking_events.is_some() {
                                return Err(duplicate_element("TrackingEvents"));
                            }
                            let (v, q2) = TrackingEvents::read(t, q)?;
                            tracking_events = Some(v);
                            proof {
                                lemma_cover_push(*t, ws, e + 1, p as int, (q as int, q2 as int, 0), 2);
                                ws = ws.push((q as int, q2 as int, 0));
                            }
                            p = q2;
                        } else if str_eq(tag.as_str(), "NonLinear") {
                            let (v, q2) = NonLinear::read(t, q)?;
                            proof {
                                assert(read_within(*t, v, q as int, q2 as int));
                                lemma_read_within_widen(*t, v, q as int, q2 as int, part_start(ends_non_linears, e, non_linears@.len() as int), q2 as int);
                                lemma_ends_push(*t, non_linears@, v, e, ends_non_linears, q2 as int);
                                ends_non_linears = ends_non_linears.push(q2 as int);
                            }
                            non_linears.push(v);
                            proof {
                                lemma_cover_push(*t, ws, e + 1, p as int, (q as int, q2 as int, 1), 2);
                                ws = ws.push((q as int, q2 as int, 1));
                            }
                            p = q2;
                        } else {
                            return Err(unknown_field("NonLinearAds", tag));
                        }
                    },
                }
            }
        }
        assert(children_cover(*t, ws, e + 1, content_end(e, p as int), 2));
        assert(t.start_tag(start - 1, e, "NonLinearAds"@));
        assert(t.till_start(pos as int, "NonLinearAds"@) == Some(start as int));
        assert forall|i: int| start - 1 < i < e implies Self::knows(#[trigger] t.key(i)) by {
            assert(t.kind(i) == TokenKind::Attribute);
        }
        assert forall|i: int| start <= i < e implies #[trigger] t.attr_readable(i) && Self::knows(t.key(i)) by {
            assert(t.kind(i) == TokenKind::Attribute);
        }
        let v = NonLinearAds { tracking_events, non_linears };
        assert(v.content_read(t, e, p as int));
        Ok((v, p))
    }

    fn write(&self, out: &mut String) {
        write_start(out, "NonLinearAds");
        let ghost mut head = start_tag("NonLinearAds"@);
        if self.tracking_events.is_none() && self.non_linears.len() == 0 {
            write_empty_end(out);
        } else {
            let ghost mid = out@;
            let ghost mut body = seq!['>'];
            write_open_end(out);
            write_opt(out, &self.tracking_events);
            proof {
                let piece = opt_xml(self.tracking_events);
                lemma_append(mid, body, piece);
                body = body + piece;
            }
            write_all(out, &self.non_linears);
            proof {
                let piece = seq_xml(self.non_linears@);
                lemma_append(mid, body, piece);
                body = body + piece;
            }
            write_end(out, "NonLinearAds");
            proof {
                lemma_append(mid, body, end_tag("NonLinearAds"@));
                lemma_append(old(out)@, head, body + end_tag("NonLinearAds"@));
            }
        }
    }
}

/// A creative shown over the content.
#[derive(Debug, Clone, PartialEq, Default)]
pub struct NonLinear {
    /// An identifier.
    pub id: Option<String>,
    /// Width in pixels.
    pub width: Option<i32>,
    /// Height in pixels.
    pub height: Option<i32>,
    /// Expanded width in pixels.
    pub expanded_width: Option<i32>,
    /// Expanded height in pixels.
    pub expanded_height: Option<i32>,
    /// Whether it may be scaled.
    pub scalable: Option<bool>,
    /// Whether the aspect ratio must be kept.
    pub maintain_aspect_ratio: Option<bool>,
    /// How long it should be shown at least.
    pub min_suggested_duration: Option<Duration>,
    /// The API of the creative.
    pub api_framework: Option<String>,
    /// HTML resources.
    pub html_resources: Vec<String>,
    /// Iframe resources.
    pub iframe_resources: Vec<String>,
    /// Static resources.
    pub static_resources: Vec<StaticResource>,
    /// Data for the creative.
    pub ad_parameters: Option<AdParameters>,
    /// The page to open on a click.
    pub non_linear_click_through: Option<String>,
    /// URIs to request on a click.
    pub non_linear_click_trackings: Vec<NonLinearClickTracking>,
}

impl XmlElement for NonLinear {
    open spec fn tag() -> Seq<char> {
        "NonLinear"@
    }

    open spec fn knows(key: Seq<char>) -> bool {
        key == "id"@ || key == "width"@ || key == "height"@ || key == "expandedWidth"@ || key == "expandedHeight"@ || key == "scalable"@ || key == "maintainAspectRatio"@ || key == "minSuggestedDuration"@ || key == "apiFramework"@
    }

    open spec fn attrs_read(&self, t: &Tokens, s: int, e: int) -> bool {
        (opt_view(self.id) == t.attr_text(s, e, "id"@))
            && (self.width == match t.attr_text(s, e, "width"@) {
            Some(v) => parse_i32_spec(v),
            None => None,
        })
            && (self.height == match t.attr_text(s, e, "height"@) {
            Some(v) => parse_i32_spec(v),
            None => None,
        })
            && (self.expanded_width == match t.attr_text(s, e, "expandedWidth"@) {
            Some(v) => parse_i32_spec(v),
            None => None,
        })
            && (self.expanded_height == match t.attr_text(s, e, "expandedHeight"@) {
            Some(v) => parse_i32_spec(v),
            None => None,
        })
            && (self.scalable == match t.attr_text(s, e, "scalable"@) {
            Some(v) => parse_bool_spec(v),
            None => None,
        })
            && (self.maintain_aspect_ratio == match t.attr_text(s, e, "maintainAspectRatio"@) {
            Some(v) => parse_bool_spec(v),
            None => None,
        })
            && (self.min_suggested_duration == match t.attr_text(s, e, "minSuggestedDuration"@) {
            Some(v) => parse_duration(v),
            None => None,
        })
            && (opt_view(self.api_framework) == t.attr_text(s, e, "apiFramework"@))
    }

    open spec fn content_read(&self, t: &Tokens, e: int, q: int) -> bool {
        (forall|k: int| 0 <= k < self.static_resources@.len() ==> read_within(*t, #[trigger] self.static_resources@[k], e, q))
            && read_in_order(*t, self.static_resources@, e)
            && (self.ad_parameters matches Some(c) ==> read_within(*t, c, e, q))
            && (forall|k: int| 0 <= k < self.non_linear_click_trackings@.len() ==> read_within(*t, #[trigger] self.non_linear_click_trackings@[k], e, q))
            && read_in_order(*t, self.non_linear_click_trackings@, e)
            && (forall|k: int| 0 <= k < self.html_resources@.len() ==> text_within(*t, "HTMLResource"@, #[trigger] self.html_resources@[k]@, e, q))
            && texts_in_order(*t, "HTMLResource"@, self.html_resources@, e)
            && (forall|k: int| 0 <= k < self.iframe_resources@.len() ==> text_within(*t, "IFrameResource"@, #[trigger] self.iframe_resources@[k]@, e, q))
            && texts_in_order(*t, "IFrameResource"@, self.iframe_resources@, e)
            && (self.non_linear_click_through matches Some(x) ==> text_within(*t, "NonLinearClickThrough"@, x@, e, q))
            && exists|ws: Seq<(int, int, int)>|
                #[trigger] children_cover(*t, ws, e + 1, content_end(e, q), 6)
                && count_of(ws, 0) == self.static_resources@.len()
                && count_of(ws, 1) == (if self.ad_parameters is Some { 1nat } else { 0nat })
                && count_of(ws, 2) == self.non_linear_click_trackings@.len()
                && count_of(ws, 3) == self.html_resources@.len()
                && count_of(ws, 4) == self.iframe_resources@.len()
                && count_of(ws, 5) == (if self.non_linear_click_through is Some { 1nat } else { 0nat })
                && count_of(ws, -1) == 0
    }

    open spec fn read_ok(t: &Tokens, pos: int) -> bool {
        false
    }

    open spec fn read_refused(t: &Tokens, pos: int) -> bool {
        t.start_malformed(pos, "NonLinear"@) || match t.till_start(pos, "NonLinear"@) {
            Some(a) => exists|i: int| a <= i < t.attrs_end(a) && !Self::knows(#[trigger] t.key(i)),
            None => false,
        }
    }

    open spec fn xml_spec(&self) -> Seq<char> {
        start_tag("NonLinear"@)
            + opt_attribute("id"@, opt_view(self.id))
            + opt_attribute("width"@, opt_i32_text(self.width))
            + opt_attribute("height"@, opt_i32_text(self.height))
            + opt_attribute("expandedWidth"@, opt_i32_text(self.expanded_width))
            + opt_attribute("expandedHeight"@, opt_i32_text(self.expanded_height))
            + opt_attribute("scalable"@, opt_bool_text(self.scalable))
            + opt_attribute("maintainAspectRatio"@, opt_bool_text(self.maintain_aspect_ratio))
            + opt_attribute(
            "minSuggestedDuration"@,
            match self.min_suggested_duration {
                Some(v) => Some(v.format_spec()),
                None => None,
            },
        )
            + opt_attribute("apiFramework"@, opt_view(self.api_framework))
            + (if self.static_resources@.len() == 0 && self.ad_parameters is None && self.non_linear_click_trackings@.len() == 0 && self.html_resources@.len() == 0 && self.iframe_resources@.len() == 0 && self.non_linear_click_through is None {
            seq!['/', '>']
        } else {
            seq!['>'] + seq_xml(self.static_resources@) + opt_xml(self.ad_parameters) + seq_xml(self.non_linear_click_trackings@) + seq_text("HTMLResource"@, self.html_resources@, true) + seq_text("IFrameResource"@, self.iframe_resources@, true) + opt_text("NonLinearClickThrough"@, self.non_linear_click_through, true) + end_tag("NonLinear"@)
        })
    }

    #[verifier::rlimit(100)]
    #[verifier::spinoff_prover]
    fn read(t: &Tokens, pos: usize) -> (r: Result<(Self, usize), DecodeError>) {
        let n = t.items.len();
        let start = read_till_element_start(t, pos, "NonLinear")?;
        let mut p = start;
        let mut id: Option<String> = None;
        let mut width: Option<i32> = None;
        let mut height: Option<i32> = None;
        let mut expanded_width: Option<i32> = None;
        let mut expanded_height: Option<i32> = None;
        let mut scalable: Option<bool> = None;
        let mut maintain_aspect_ratio: Option<bool> = None;
        let mut min_suggested_duration: Option<Duration> = None;
        let mut api_framework: Option<String> = None;
        let mut static_resources: Vec<StaticResource> = Vec::new();
        let mut ad_parameters: Option<AdParameters> = None;
        let mut non_linear_click_trackings: Vec<NonLinearClickTracking> = Vec::new();
        let mut html_resources: Vec<String> = Vec::new();
        let mut iframe_resources: Vec<String> = Vec::new();
        let mut non_linear_click_through: Option<String> = None;
        loop
            invariant
                n == t.len(),
                start <= p <= n,
                start == n || (pos < start && t.starts(start - 1, "NonLinear"@)),
                forall|i: int| start <= i < p ==> #[trigger] t.kind(i) == TokenKind::Attribute && Self::knows(t.key(i)),
                t.till_start(pos as int, "NonLinear"@) == Some(start as int),
                t.attrs_end(start as int) == t.attrs_end(p as int),
                forall|i: int| start <= i < p ==> #[trigger] t.attr_readable(i),
                opt_view(id) == t.attr_text(start - 1, p as int, "id"@),
                width == match t.attr_text(start - 1, p as int, "width"@) {
                    Some(v) => parse_i32_spec(v),
                    None => None,
                },
                height == match t.attr_text(start - 1, p as int, "height"@) {
                    Some(v) => parse_i32_spec(v),
                    None => None,
                },
                expanded_width == match t.attr_text(start - 1, p as int, "expandedWidth"@) {
                    Some(v) => parse_i32_spec(v),
                    None => None,
                },
                expanded_height == match t.attr_text(start - 1, p as int, "expandedHeight"@) {
                    Some(v) => parse_i32_spec(v),
                    None => None,
                },
                scalable == match t.attr_text(start - 1, p as int, "scalable"@) {
                    Some(v) => parse_bool_spec(v),
                    None => None,
                },
                maintain_aspect_ratio == match t.attr_text(start - 1, p as int, "maintainAspectRatio"@) {
                    Some(v) => parse_bool_spec(v),
                    None => None,
                },
                min_suggested_duration == match t.attr_text(start - 1, p as int, "minSuggestedDuration"@) {
                    Some(v) => parse_duration(v),
                    None => None,
                },
                opt_view(api_framework) == t.attr_text(start - 1, p as int, "apiFramework"@),
            ensures
                start <= p < n,
                pos < start && t.starts(start - 1, "NonLinear"@),
                forall|i: int| start <= i < p ==> #[trigger] t.kind(i) == TokenKind::Attribute && Self::knows(t.key(i)),
                t.kind(p as int) == TokenKind::ElementEnd && !is_close_end(t.span(p as int)),
                t.till_start(pos as int, "NonLinear"@) == Some(start as int),
                t.attrs_end(start as int) == p,
                forall|i: int| start <= i < p ==> #[trigger] t.attr_readable(i),
                opt_view(id) == t.attr_text(start - 1, p as int, "id"@),
                width == match t.attr_text(start - 1, p as int, "width"@) {
                    Some(v) => parse_i32_spec(v),
                    None => None,
                },
                height == match t.attr_text(start - 1, p as int, "height"@) {
                    Some(v) => parse_i32_spec(v),
                    None => None,
                },
                expanded_width == match t.attr_text(start - 1, p as int, "expandedWidth"@) {
                    Some(v) => parse_i32_spec(v),
                    None => None,
                },
                expanded_height == match t.attr_text(start - 1, p as int, "expandedHeight"@) {
                    Some(v) => parse_i32_spec(v),
                    None => None,
                },
                scalable == match t.attr_text(start - 1, p as int, "scalable"@) {
                    Some(v) => parse_bool_spec(v),
                    None => None,
                },
                maintain_aspect_ratio == match t.attr_text(start - 1, p as int, "maintainAspectRatio"@) {
                    Some(v) => parse_bool_spec(v),
                    None => None,
                },
                min_suggested_duration == match t.attr_text(start - 1, p as int, "minSuggestedDuration"@) {
                    Some(v) => parse_duration(v),
                    None => None,
                },
                opt_view(api_framework) == t.attr_text(start - 1, p as int, "apiFramework"@),
            decreases n - p,
        {
            proof {
                lemma_attrs_end_bounds(t, p as int);
            }
            let (found, q) = find_attribute(t, p)?;
            match found {
                None => {
                    break;
                },
                Some((key, value)) => {
                    p = q;
                    proof {
                        reveal_strlit("id");
                        reveal_strlit("width");
                        reveal_strlit("height");
                        reveal_strlit("expandedWidth");
                        reveal_strlit("expandedHeight");
                        reveal_strlit("scalable");
                        reveal_strlit("maintainAspectRatio");
                        reveal_strlit("minSuggestedDuration");
                        reveal_strlit("apiFramework");
                        assert("id"@.len() == 2);
                        assert("width"@.len() == 5);
                        assert("height"@.len() == 6);
                        assert("expandedWidth"@.len() == 13);
                        assert("expandedHeight"@.len() == 14);
                        assert("scalable"@.len() == 8);
                        assert("maintainAspectRatio"@.len() == 19);
                        assert("minSuggestedDuration"@.len() == 20);
                        assert("apiFramework"@.len() == 12);
                    }
                    if str_eq(key.as_str(), "id") {
                        if id.is_some() {
                            return Err(duplicate_attribute("id"));
                        }
                        id = Some(value);
                    } else if str_eq(key.as_str(), "width") {
                        if width.is_some() {
                            return Err(duplicate_attribute("width"));
                        }
                        width = Some(parse_int(value.as_str())?);
                    } else if str_eq(key.as_str(), "height") {
                        if height.is_some() {
                            return Err(duplicate_attribute("height"));
                        }
                        height = Some(parse_int(value.as_str())?);
                    } else if str_eq(key.as_str(), "expandedWidth") {
                        if expanded_width.is_some() {
                            return Err(duplicate_attribute("expandedWidth"));
                        }
                        expanded_width = Some(parse_int(value.as_str())?);
                    } else if str_eq(key.as_str(), "expandedHeight") {
                        if expanded_height.is_some() {
                            return Err(duplicate_attribute("expandedHeight"));
                        }
                        expanded_height = Some(parse_int(value.as_str())?);
                    } else if str_eq(key.as_str(), "scalable") {
                        if scalable.is_some() {
                            return Err(duplicate_attribute("scalable"));
                        }
                        scalable = Some(parse_bool(value.as_str())?);
                    } else if str_eq(key.as_str(), "maintainAspectRatio") {
                        if maintain_aspect_ratio.is_some() {
                            return Err(duplicate_attribute("maintainAspectRatio"));
                        }
                        maintain_aspect_ratio = Some(parse_bool(value.as_str())?);
                    } else if str_eq(key.as_str(), "minSuggestedDuration") {
                        if min_suggested_duration.is_some() {
                            return Err(duplicate_attribute("minSuggestedDuration"));
                        }
                        min_suggested_duration = Some(match Duration::from_str(value.as_str()) {
                            Ok(v) => v,
                            Err(e) => return Err(scalar_error(e)),
                        });
                    } else if str_eq(key.as_str(), "apiFramework") {
                        if api_framework.is_some() {
                            return Err(duplicate_attribute("apiFramework"));
                        }
                        api_framework = Some(value);
                    } else {
                        return Err(unknown_field("NonLinear", key));
                    }
                },
            }
        }
        let ghost e = p as int;
        let ghost mut ends_static_resources: Seq<int> = Seq::empty();
        proof {
            lemma_ends_empty(*t, static_resources@, e);
        }
        let ghost mut ends_non_linear_click_trackings: Seq<int> = Seq::empty();
        proof {
            lemma_ends_empty(*t, non_linear_click_trackings@, e);
        }
        let ghost mut ends_html_resources: Seq<int> = Seq::empty();
        proof {
            lemma_text_ends_empty(*t, "HTMLResource"@, html_resources@, e);
        }
        let ghost mut ends_iframe_resources: Seq<int> = Seq::empty();
        proof {
            lemma_text_ends_empty(*t, "IFrameResource"@, iframe_resources@, e);
        }
        let empty = is_empty_end_of(&t.items[p]);
        p = p + 1;
        let ghost mut ws: Seq<(int, int, int)> = Seq::empty();
        proof {
            lemma_cover_empty(*t, e + 1, 6);
        }
        if !empty {
            loop
                invariant_except_break
                    children_cover(*t, ws, e + 1, p as int, 6),
                    prev_end(ws, e + 1, ws.len() as int) == p,
                invariant
                    n == t.len(),
                    pos < p <= n,
                    e < p,
                    (forall|k: int| 0 <= k < static_resources@.len() ==> read_within(*t, #[trigger] static_resources@[k], e, p as int)),
                    (ad_parameters matches Some(c) ==> read_within(*t, c, e, p as int)),
                    (forall|k: int| 0 <= k < non_linear_click_trackings@.len() ==> read_within(*t, #[trigger] non_linear_click_trackings@[k], e, p as int)),
                    (forall|k: int| 0 <= k < html_resources@.len() ==> text_within(*t, "HTMLResource"@, #[trigger] html_resources@[k]@, e, p as int)),
                    (forall|k: int| 0 <= k < iframe_resources@.len() ==> text_within(*t, "IFrameResource"@, #[trigger] iframe_resources@[k]@, e, p as int)),
                    (non_linear_click_through matches Some(x) ==> text_within(*t, "NonLinearClickThrough"@, x@, e, p as int)),
                    ends_fit(*t, static_resources@, e, ends_static_resources),
                    part_start(ends_static_resources, e, static_resources@.len() as int) <= p,
                    ends_fit(*t, non_linear_click_trackings@, e, ends_non_linear_click_trackings),
                    part_start(ends_non_linear_click_trackings, e, non_linear_click_trackings@.len() as int) <= p,
                    text_ends_fit(*t, "HTMLResource"@, html_resources@, e, ends_html_resources),
                    part_start(ends_html_resources, e, html_resources@.len() as int) <= p,
                    text_ends_fit(*t, "IFrameResource"@, iframe_resources@, e, ends_iframe_resources),
                    part_start(ends_iframe_resources, e, iframe_resources@.len() as int) <= p,
                    count_of(ws, 0) == static_resources@.len(),
                    count_of(ws, 1) == (if ad_parameters is Some { 1nat } else { 0nat }),
                    count_of(ws, 2) == non_linear_click_trackings@.len(),
                    count_of(ws, 3) == html_resources@.len(),
                    count_of(ws, 4) == iframe_resources@.len(),
                    count_of(ws, 5) == (if non_linear_click_through is Some { 1nat } else { 0nat }),
                    count_of(ws, -1) == 0,
                ensures
                    pos < p <= n,
                    e < p,
                    children_cover(*t, ws, e + 1, content_end(e, p as int), 6),
                    (forall|k: int| 0 <= k < static_resources@.len() ==> read_within(*t, #[trigger] static_resources@[k], e, p as int)),
                    (ad_parameters matches Some(c) ==> read_within(*t, c, e, p as int)),
                    (forall|k: int| 0 <= k < non_linear_click_trackings@.len() ==> read_within(*t, #[trigger] non_linear_click_trackings@[k], e, p as int)),
                    (forall|k: int| 0 <= k < html_resources@.len() ==> text_within(*t, "HTMLResource"@, #[trigger] html_resources@[k]@, e, p as int)),
                    (forall|k: int| 0 <= k < iframe_resources@.len() ==> text_within(*t, "IFrameResource"@, #[trigger] iframe_resources@[k]@, e, p as int)),
                    (non_linear_click_through matches Some(x) ==> text_within(*t, "NonLinearClickThrough"@, x@, e, p as int)),
                    ends_fit(*t, static_resources@, e, ends_static_resources),
                    part_start(ends_static_resources, e, static_resources@.len() as int) <= p,
                    ends_fit(*t, non_linear_click_trackings@, e, ends_non_linear_click_trackings),
                    part_start(ends_non_linear_click_trackings, e, non_linear_click_trackings@.len() as int) <= p,
                    text_ends_fit(*t, "HTMLResource"@, html_resources@, e, ends_html_resources),
                    part_start(ends_html_resources, e, html_resources@.len() as int) <= p,
                    text_ends_fit(*t, "IFrameResource"@, iframe_resources@, e, ends_iframe_resources),
                    part_start(ends_iframe_resources, e, iframe_resources@.len() as int) <= p,
                    count_of(ws, 0) == static_resources@.len(),
                    count_of(ws, 1) == (if ad_parameters is Some { 1nat } else { 0nat }),
                    count_of(ws, 2) == non_linear_click_trackings@.len(),
                    count_of(ws, 3) == html_resources@.len(),
                    count_of(ws, 4) == iframe_resources@.len(),
                    count_of(ws, 5) == (if non_linear_click_through is Some { 1nat } else { 0nat }),
                    count_of(ws, -1) == 0,

                decreases n - p,
            {
                let (found, q) = find_element_start(t, p, "NonLinear")?;
                match found {
                    None => {
                        proof {
                            lemma_cover_extend(*t, ws, e + 1, p as int, q as int - 1, 6);
                        }
                        p = q;
                        break;
                    },
                    Some(tag) => {
                        if str_eq(tag.as_str(), "StaticResource") {
                            let (v, q2) = StaticResource::read(t, q)?;
                            proof {
                                assert(read_within(*t, v, q as int, q2 as int));
                                lemma_read_within_widen(*t, v, q as int, q2 as int, part_start(ends_static_resources, e, static_resources@.len() as int), q2 as int);
                                lemma_ends_push(*t, static_resources@, v, e, ends_static_resources, q2 as int);
                                ends_static_resources = ends_static_resources.push(q2 as int);
                            }
                            static_resources.push(v);
                            proof {
                                lemma_cover_push(*t, ws, e + 1, p as int, (q as int, q2 as int, 0), 6);
                                ws = ws.push((q as int, q2 as int, 0));
                            }
                            p = q2;
                        } else if str_eq(tag.as_str(), "AdParameters") {
                            if ad_parameters.is_some() {
                                return Err(duplicate_element("AdParameters"));
                            }
                            let (v, q2) = AdParameters::read(t, q)?;
                            ad_parameters = Some(v);
                            proof {
                                lemma_cover_push(*t, ws, e + 1, p as int, (q as int, q2 as int, 1), 6);
                                ws = ws.push((q as int, q2 as int, 1));
                            }
                            p = q2;
                        } else if str_eq(tag.as_str(), "NonLinearClickTracking") {
                            let (v, q2) = NonLinearClickTracking::read(t, q)?;
                            proof {
                                assert(read_within(*t, v, q as int, q2 as int));
                                lemma_read_within_widen(*t, v, q as int, q2 as int, part_start(ends_non_linear_click_trackings, e, non_linear_click_trackings@.len() as int), q2 as int);
                                lemma_ends_push(*t, non_linear_click_trackings@, v, e, ends_non_linear_click_trackings, q2 as int);
                                ends_non_linear_click_trackings = ends_non_linear_click_trackings.push(q2 as int);
                            }
                            non_linear_click_trackings.push(v);
                            proof {
                                lemma_cover_push(*t, ws, e + 1, p as int, (q as int, q2 as int, 2), 6);
                                ws = ws.push((q as int, q2 as int, 2));
                            }
                            p = q2;
                        } else if str_eq(tag.as_str(), "HTMLResource") {
                            let (s, q2) = read_text_child(t, q, "HTMLResource")?;
                            let v = s;
                            proof {
                                assert(text_within(*t, "HTMLResource"@, v@, q as int, q2 as int));
                                assert(text_within(*t, "HTMLResource"@, v@, part_start(ends_html_resources, e, html_resources@.len() as int), q2 as int));
                                lemma_text_ends_push(*t, "HTMLResource"@, html_resources@, v, e, ends_html_resources, q2 as int);
                                ends_html_resources = ends_html_resources.push(q2 as int);
                            }
                            html_resources.push(v);
                            proof {
                                lemma_cover_push(*t, ws, e + 1, p as int, (q as int, q2 as int, 3), 6);
                                ws = ws.push((q as int, q2 as int, 3));
                            }
                            p = q2;
                        } else if str_eq(tag.as_str(), "IFrameResource") {
                            let (s, q2) = read_text_child(t, q, "IFrameResource")?;
                            let v = s;
                            proof {
                                assert(text_within(*t, "IFrameResource"@, v@, q as int, q2 as int));
                                assert(text_within(*t, "IFrameResource"@, v@, part_start(ends_iframe_resources, e, iframe_resources@.len() as int), q2 as int));
                                lemma_text_ends_push(*t, "IFrameResource"@, iframe_resources@, v, e, ends_iframe_resources, q2 as int);
                                ends_iframe_resources = ends_iframe_resources.push(q2 as int);
                            }
                            iframe_resources.push(v);
                            proof {
                                lemma_cover_push(*t, ws, e + 1, p as int, (q as int, q2 as int, 4), 6);
                                ws = ws.push((q as int, q2 as int, 4));
                            }
                            p = q2;
                        } else if str_eq(tag.as_str(), "NonLinearClickThrough") {
                            if non_linear_click_through.is_some() {
                                return Err(duplicate_element("NonLinearClickThrough"));
                            }
                            let (s, q2) = read_text_child(t, q, "NonLinearClickThrough")?;
                            let v = s;
                            non_linear_click_through = Some(v);
                            proof {
                                lemma_cover_push(*t, ws, e + 1, p as int, (q as int, q2 as int, 5), 6);
                                ws = ws.push((q as int, q2 as int, 5));
                            }
                            p = q2;
                        } else {
                            return Err(unknown_field("NonLinear", tag));
                        }
                    },
                }
            }
        }
        assert(children_cover(*t, ws, e + 1, content_end(e, p as int), 6));
        assert(t.start_tag(start - 1, e, "NonLinear"@));
        assert(t.till_start(pos as int, "NonLinear"@) == Some(start as int));
        assert forall|i: int| start - 1 < i < e implies Self::knows(#[trigger] t.key(i)) by {
            assert(t.kind(i) == TokenKind::Attribute);
        }
        assert forall|i: int| start <= i < e implies #[trigger] t.attr_readable(i) && Self::knows(t.key(i)) by {
            assert(t.kind(i) == TokenKind::Attribute);
        }
        let v = NonLinear { id, width, height, expanded_width, expanded_height, scalable, maintain_aspect_ratio, min_suggested_duration, api_framework, html_resources, iframe_resources, static_resources, ad_parameters, non_linear_click_through, non_linear_click_trackings };
        assert(v.attrs_read(t, start - 1, e));
        assert(v.content_read(t, e, p as int));
        Ok((v, p))
    }

    #[verifier::rlimit(40)]
    fn write(&self, out: &mut String) {
        write_start(out, "NonLinear");
        let ghost mut head = start_tag("NonLinear"@);
        write_opt_attribute(out, "id", &self.id);
        proof {
            let piece = opt_attribute("id"@, opt_view(self.id));
            lemma_append(old(out)@, head, piece);
            head = head + piece;
        }
        write_opt_int_attribute(out, "width", self.width);
        proof {
            let piece = opt_attribute("width"@, opt_i32_text(self.width));
            lemma_append(old(out)@, head, piece);
            head = head + piece;
        }
        write_opt_int_attribute(out, "height", self.height);
        proof {
            let piece = opt_attribute("height"@, opt_i32_text(self.height));
            lemma_append(old(out)@, head, piece);
            head = head + piece;
        }
        write_opt_int_attribute(out, "expandedWidth", self.expanded_width);
        proof {
            let piece = opt_attribute("expandedWidth"@, opt_i32_text(self.expanded_width));
            lemma_append(old(out)@, head, piece);
            head = head + piece;
        }
        write_opt_int_attribute(out, "expandedHeight", self.expanded_height);
        proof {
            let piece = opt_attribute("expandedHeight"@, opt_i32_text(self.expanded_height));
            lemma_append(old(out)@, head, piece);
            head = head + piece;
        }
        write_opt_bool_attribute(out, "scalable", self.scalable);
        proof {
            let piece = opt_attribute("scalable"@, opt_bool_text(self.scalable));
            lemma_append(old(out)@, head, piece);
            head = head + piece;
        }
        write_opt_bool_attribute(out, "maintainAspectRatio", self.maintain_aspect_ratio);
        proof {
            let piece = opt_attribute("maintainAspectRatio"@, opt_bool_text(self.maintain_aspect_ratio));
            lemma_append(old(out)@, head, piece);
            head = head + piece;
        }
        match &self.min_suggested_duration {
            Some(v) => write_attribute(out, "minSuggestedDuration", v.to_string().as_str()),
            None => {},
        }
        proof {
            let piece = opt_attribute(
            "minSuggestedDuration"@,
            match self.min_suggested_duration {
                Some(v) => Some(v.format_spec()),
                None => None,
            },
        );
            lemma_append(old(out)@, head, piece);
            head = head + piece;
        }
        write_opt_attribute(out, "apiFramework", &self.api_framework);
        proof {
            let piece = opt_attribute("apiFramework"@, opt_view(self.api_framework));
            lemma_append(old(out)@, head, piece);
            head = head + piece;
        }
        if self.static_resources.len() == 0 && self.ad_parameters.is_none() && self.non_linear_click_trackings.len() == 0 && self.html_resources.len() == 0 && self.iframe_resources.len() == 0 && self.non_linear_click_through.is_none() {
            write_empty_end(out);
        } else {
            let ghost mid = out@;
            let ghost mut body = seq!['>'];
            write_open_end(out);
            write_all(out, &self.static_resources);
            proof {
                let piece = seq_xml(self.static_resources@);
                lemma_append(mid, body, piece);
                body = body + piece;
            }
            write_opt(out, &self.ad_parameters);
            proof {
                let piece = opt_xml(self.ad_parameters);
                lemma_append(mid, body, piece);
                body = body + piece;
            }
            write_all(out, &self.non_linear_click_trackings);
            proof {
                let piece = seq_xml(self.non_linear_click_trackings@);
                lemma_append(mid, body, piece);
                body = body + piece;
            }
            write_text_elements(out, "HTMLResource", &self.html_resources, true);
            proof {
                let piece = seq_text("HTMLResource"@, self.html_resources@, true);
                lemma_append(mid, body, piece);
                body = body + piece;
            }
            write_text_elements(out, "IFrameResource", &self.iframe_resources, true);
            proof {
                let piece = seq_text("IFrameResource"@, self.iframe_resources@, true);
                lemma_append(mid, body, piece);
                body = body + piece;
            }
            write_opt_text(out, "NonLinearClickThrough", &self.non_linear_click_through, true);
            proof {
                let piece = opt_text("NonLinearClickThrough"@, self.non_linear_click_through, true);
                lemma_append(mid, body, piece);
                body = body + piece;
            }
            write_end(out, "NonLinear");
            proof {
                lemma_append(mid, body, end_tag("NonLinear"@));
                lemma_append(old(out)@, head, body + end_tag("NonLinear"@));
            }
        }
    }
}

/// A URI to request on a click of a non-linear creative.
#[derive(Debug, Clone, PartialEq, Default)]
pub struct NonLinearClickTracking {
    /// An identifier.
    pub id: Option<String>,
    /// The URI.
    pub uri: String,
}

impl XmlElement for NonLinearClickTracking {
    open spec fn tag() -> Seq<char> {
        "NonLinearClickTracking"@
    }

    open spec fn knows(key: Seq<char>) -> bool {
        key == "id"@
    }

    open spec fn attrs_read(&self, t: &Tokens, s: int, e: int) -> bool {
        (opt_view(self.id) == t.attr_text(s, e, "id"@))
    }

    open spec fn content_read(&self, t: &Tokens, e: int, q: int) -> bool {
        self.uri@ == t.text_of(e, q)
    }

    open spec fn read_ok(t: &Tokens, pos: int) -> bool {
        false
    }

    open spec fn read_refused(t: &Tokens, pos: int) -> bool {
        t.start_malformed(pos, "NonLinearClickTracking"@) || match t.till_start(pos, "NonLinearClickTracking"@) {
            Some(a) => exists|i: int| a <= i < t.attrs_end(a) && !Self::knows(#[trigger] t.key(i)),
            None => false,
        }
    }

    open spec fn xml_spec(&self) -> Seq<char> {
        start_tag("NonLinearClickTracking"@)
            + opt_attribute("id"@, opt_view(self.id))
            + (seq!['>'] + cdata(self.uri@) + end_tag("NonLinearClickTracking"@))
    }

    fn read(t: &Tokens, pos: usize) -> (r: Result<(Self, usize), DecodeError>) {
        let n = t.items.len();
        let start = read_till_element_start(t, pos, "NonLinearClickTracking")?;
        let mut p = start;
        let mut id: Option<String> = None;
        loop
            invariant
                n == t.len(),
                start <= p <= n,
                start == n || (pos < start && t.starts(start - 1, "NonLinearClickTracking"@)),
                forall|i: int| start <= i < p ==> #[trigger] t.kind(i) == TokenKind::Attribute && Self::knows(t.key(i)),
                t.till_start(pos as int, "NonLinearClickTracking"@) == Some(start as int),
                t.attrs_end(start as int) == t.attrs_end(p as int),
                forall|i: int| start <= i < p ==> #[trigger] t.attr_readable(i),
                opt_view(id) == t.attr_text(start - 1, p as int, "id"@),
            ensures
                start <= p < n,
                pos < start && t.starts(start - 1, "NonLinearClickTracking"@),
                forall|i: int| start <= i < p ==> #[trigger] t.kind(i) == TokenKind::Attribute && Self::knows(t.key(i)),
                t.kind(p as int) == TokenKind::ElementEnd && !is_close_end(t.span(p as int)),
                t.till_start(pos as int, "NonLinearClickTracking"@) == Some(start as int),
                t.attrs_end(start as int) == p,
                forall|i: int| start <= i < p ==> #[trigger] t.attr_readable(i),
                opt_view(id) == t.attr_text(start - 1, p as int, "id"@),
            decreases n - p,
        {
            proof {
                lemma_attrs_end_bounds(t, p as int);
            }
            let (found, q) = find_attribute(t, p)?;
            match found {
                None => {
                    break;
                },
                Some((key, value)) => {
                    p = q;
                    proof {
                        reveal_strlit("id");
                        assert("id"@.len() == 2);
                    }
                    if str_eq(key.as_str(), "id") {
                        if id.is_some() {
                            return Err(duplicate_attribute("id"));
                        }
                        id = Some(value);
                    } else {
                        return Err(unknown_field("NonLinearClickTracking", key));
                    }
                },
            }
        }
        let ghost e = p as int;
        let (text, q) = read_text(t, p, "NonLinearClickTracking")?;
        p = q;
        assert(t.start_tag(start - 1, e, "NonLinearClickTracking"@));
        assert(t.till_start(pos as int, "NonLinearClickTracking"@) == Some(start as int));
        assert forall|i: int| start - 1 < i < e implies Self::knows(#[trigger] t.key(i)) by {
            assert(t.kind(i) == TokenKind::Attribute);
        }
        assert forall|i: int| start <= i < e implies #[trigger] t.attr_readable(i) && Self::knows(t.key(i)) by {
            assert(t.kind(i) == TokenKind::Attribute);
        }
        let v = NonLinearClickTracking { id, uri: text };
        assert(v.attrs_read(t, start - 1, e));
        Ok((v, p))
    }

    fn write(&self, out: &mut String) {
        write_start(out, "NonLinearClickTracking");
        let ghost mut head = start_tag("NonLinearClickTracking"@);
        write_opt_attribute(out, "id", &self.id);
        proof {
            let piece = opt_attribute("id"@, opt_view(self.id));
            lemma_append(old(out)@, head, piece);
            head = head + piece;
        }
        let ghost mid = out@;
        let ghost mut body = seq!['>'];
        write_open_end(out);
        write_text(out, self.uri.as_str(), true);
        proof {
            let piece = cdata(self.uri@);
            lemma_append(mid, body, piece);
            body = body + piece;
        }
        write_end(out, "NonLinearClickTracking");
        proof {
            lemma_append(mid, body, end_tag("NonLinearClickTracking"@));
            lemma_append(old(out)@, head, body + end_tag("NonLinearClickTracking"@));
        }
    }
}

} // verus!
