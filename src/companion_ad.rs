//! `<CompanionAds>` and the companion creatives.
use vstd::prelude::*;
use crate::codec::{
    XmlElement, children_cover, count_of, content_end, prev_end, lemma_cover_push,
    lemma_cover_extend, lemma_cover_empty, lemma_ends_empty, lemma_text_ends_empty, read_within,
    read_in_order, texts_in_order, lemma_read_within_widen, lemma_ends_push, lemma_text_ends_push,
    ends_fit, text_ends_fit, part_start, text_within, lemma_append, seq_xml, opt_xml, seq_text,
    opt_text, opt_attribute, opt_view, opt_i32_text, parse_int, scalar_error, missing_field,
    unknown_field, duplicate_attribute, duplicate_element, read_text_child, write_all, write_opt,
    write_text_elements, write_opt_text, write_opt_attribute, write_int_attribute,
    write_opt_int_attribute, from_str,
};
use crate::reader::{
    is_close_end, lemma_attrs_end_bounds, read_till_element_start, find_attribute,
    find_element_start, read_text, is_empty_end_of,
};
use crate::writer::{
    start_tag, attribute, end_tag, cdata, write_start, write_attribute, write_open_end,
    write_empty_end, write_end, write_text,
};
use crate::xml::{DecodeError, TokenKind, Tokens};
use crate::text::{signed_decimal, parse_i32_spec};
use crate::creative::{Creative, CreativeExtensions};
use crate::linear::{AdParameters};
use crate::tracking::{TrackingEvents, Tracking};
use crate::creative_resource::{StaticResource};
use crate::error::{VastParseError, quoted_error};
use crate::text::{str_eq};

verus! {

/// Which of the companions the player must display.
#[derive(Debug, Clone, Copy, PartialEq, Eq, Structural)]
pub enum CompanionRequirement {
    /// All companions must be displayed.
    All,
    /// At least one companion must be displayed.
    Any,
    /// Companions may be displayed or not.
    NoneRequired,
}

impl CompanionRequirement {
    /// The keyword that stands for the value in a document.
    pub open spec fn keyword(self) -> Seq<char> {
        match self {
            CompanionRequirement::All => "all"@,
            CompanionRequirement::Any => "any"@,
            CompanionRequirement::NoneRequired => "none"@,
        }
    }

    /// The value whose keyword is `s`.
    pub open spec fn parse_spec(s: Seq<char>) -> Option<CompanionRequirement> {
        if s == "all"@ {
            Some(CompanionRequirement::All)
        } else if s == "any"@ {
            Some(CompanionRequirement::Any)
        } else if s == "none"@ {
            Some(CompanionRequirement::NoneRequired)
        } else {
            None
        }
    }

    /// Reads a keyword.
    pub fn from_str(s: &str) -> (r: Result<Self, VastParseError>)
        ensures
            r matches Ok(v) ==> Self::parse_spec(s@) == Some(v),
            r matches Err(e) ==> Self::parse_spec(s@) is None && e.input@ == quoted_error(
                "required attribute parsing error: "@,
                s@,
            ),
    {
        if str_eq(s, "all") {
            Ok(CompanionRequirement::All)
        } else if str_eq(s, "any") {
            Ok(CompanionRequirement::Any)
        } else if str_eq(s, "none") {
            Ok(CompanionRequirement::NoneRequired)
        } else {
            Err(VastParseError::quoting("required attribute parsing error: ", s))
        }
    }

    /// The keyword of the value.
    pub fn keyword_str(&self) -> (r: &'static str)
        ensures
            r@ == self.keyword(),
    {
        match self {
            CompanionRequirement::All => "all",
            CompanionRequirement::Any => "any",
            CompanionRequirement::NoneRequired => "none",
        }
    }

    /// The keyword of the value, as an owned string.
    pub fn to_string(&self) -> (r: String)
        ensures
            r@ == self.keyword(),
    {
        String::from_str(self.keyword_str())
    }
}

/// Reading the keyword of a value gives the value back.
pub proof fn lemma_companion_requirement_round_trip(v: CompanionRequirement)
    ensures
        CompanionRequirement::parse_spec(v.keyword()) == Some(v),
{
    reveal_strlit("all");
    reveal_strlit("any");
    reveal_strlit("none");
    match v {
        CompanionRequirement::All => {
        },
        CompanionRequirement::Any => {
            assert("any"@[1] != "all"@[1]);
        },
        CompanionRequirement::NoneRequired => {
            assert("none"@.len() != "all"@.len());
            assert("none"@.len() != "any"@.len());
        },
    }
}

/// When a companion is rendered.
#[derive(Debug, Clone, Copy, PartialEq, Eq, Structural, Default)]
pub enum RenderingMode {
    /// Rendered as the player sees fit.
    #[default]
    Default,
    /// Rendered after the linear creative.
    EndCard,
    /// Rendered along with the linear creative.
    Concurrent,
}

impl RenderingMode {
    /// The keyword that stands for the value in a document.
    pub open spec fn keyword(self) -> Seq<char> {
        match self {
            RenderingMode::Default => "default"@,
            RenderingMode::EndCard => "end-card"@,
            RenderingMode::Concurrent => "concurrent"@,
        }
    }

    /// The value whose keyword is `s`.
    pub open spec fn parse_spec(s: Seq<char>) -> Option<RenderingMode> {
        if s == "default"@ {
            Some(RenderingMode::Default)
        } else if s == "end-card"@ {
            Some(RenderingMode::EndCard)
        } else if s == "concurrent"@ {
            Some(RenderingMode::Concurrent)
        } else {
            None
        }
    }

    /// Reads a keyword.
    pub fn from_str(s: &str) -> (r: Result<Self, VastParseError>)
        ensures
            r matches Ok(v) ==> Self::parse_spec(s@) == Some(v),
            r matches Err(e) ==> Self::parse_spec(s@) is None && e.input@ == quoted_error(
                "rendering mode parsing error: "@,
                s@,
            ),
    {
        if str_eq(s, "default") {
            Ok(RenderingMode::Default)
        } else if str_eq(s, "end-card") {
            Ok(RenderingMode::EndCard)
        } else if str_eq(s, "concurrent") {
            Ok(RenderingMode::Concurrent)
        } else {
            Err(VastParseError::quoting("rendering mode parsing error: ", s))
        }
    }

    /// The keyword of the value.
    pub fn keyword_str(&self) -> (r: &'static str)
        ensures
            r@ == self.keyword(),
    {
        match self {
            RenderingMode::Default => "default",
            RenderingMode::EndCard => "end-card",
            RenderingMode::Concurrent => "concurrent",
        }
    }

    /// The keyword of the value, as an owned string.
    pub fn to_string(&self) -> (r: String)
        ensures
            r@ == self.keyword(),
    {
        String::from_str(self.keyword_str())
    }
}

/// Reading the keyword of a value gives the value back.
pub proof fn lemma_rendering_mode_round_trip(v: RenderingMode)
    ensures
        RenderingMode::parse_spec(v.keyword()) == Some(v),
{
    reveal_strlit("default");
    reveal_strlit("end-card");
    reveal_strlit("concurrent");
    match v {
        RenderingMode::Default => {
        },
        RenderingMode::EndCard => {
            assert("end-card"@.len() != "default"@.len());
        },
        RenderingMode::Concurrent => {
            assert("concurrent"@.len() != "default"@.len());
            assert("concurrent"@.len() != "end-card"@.len());
        },
    }
}

/// The companion creatives and which of them must be shown.
#[derive(Debug, Clone, PartialEq, Default)]
pub struct CompanionAds {
    /// Which companions must be shown.
    pub required: Option<CompanionRequirement>,
    /// The companions.
    pub companions: Vec<Companion>,
}

impl XmlElement for CompanionAds {
    open spec fn tag() -> Seq<char> {
        "CompanionAds"@
    }

    open spec fn knows(key: Seq<char>) -> bool {
        key == "required"@
    }

    open spec fn attrs_read(&self, t: &Tokens, s: int, e: int) -> bool {
        (self.required == match t.attr_text(s, e, "required"@) {
            Some(v) => CompanionRequirement::parse_spec(v),
            None => None,
        })
    }

    open spec fn content_read(&self, t: &Tokens, e: int, q: int) -> bool {
        (forall|k: int| 0 <= k < self.companions@.len() ==> read_within(*t, #[trigger] self.companions@[k], e, q))
            && read_in_order(*t, self.companions@, e)
            && exists|ws: Seq<(int, int, int)>|
                #[trigger] children_cover(*t, ws, e + 1, content_end(e, q), 1)
                && count_of(ws, 0) == self.companions@.len()
                && count_of(ws, -1) == 0
    }

    open spec fn read_ok(t: &Tokens, pos: int) -> bool {
        false
    }

    open spec fn read_refused(t: &Tokens, pos: int) -> bool {
        t.start_malformed(pos, "CompanionAds"@) || match t.till_start(pos, "CompanionAds"@) {
            Some(a) => exists|i: int| a <= i < t.attrs_end(a) && !Self::knows(#[trigger] t.key(i)),
            None => false,
        }
    }

    open spec fn xml_spec(&self) -> Seq<char> {
        start_tag("CompanionAds"@)
            + opt_attribute(
            "required"@,
            match self.required {
                Some(v) => Some(v.keyword()),
                None => None,
            },
        )
            + (if self.companions@.len() == 0 {
            seq!['/', '>']
        } else {
            seq!['>'] + seq_xml(self.companions@) + end_tag("CompanionAds"@)
        })
    }

    fn read(t: &Tokens, pos: usize) -> (r: Result<(Self, usize), DecodeError>) {
        let n = t.items.len();
        let start = read_till_element_start(t, pos, "CompanionAds")?;
        let mut p = start;
        let mut required: Option<CompanionRequirement> = None;
        let mut companions: Vec<Companion> = Vec::new();
        loop
            invariant
                n == t.len(),
                start <= p <= n,
                start == n || (pos < start && t.starts(start - 1, "CompanionAds"@)),
                forall|i: int| start <= i < p ==> #[trigger] t.kind(i) == TokenKind::Attribute && Self::knows(t.key(i)),
                t.till_start(pos as int, "CompanionAds"@) == Some(start as int),
                t.attrs_end(start as int) == t.attrs_end(p as int),
                forall|i: int| start <= i < p ==> #[trigger] t.attr_readable(i),
                required == match t.attr_text(start - 1, p as int, "required"@) {
                    Some(v) => CompanionRequirement::parse_spec(v),
                    None => None,
                },
            ensures
                start <= p < n,
                pos < start && t.starts(start - 1, "CompanionAds"@),
                forall|i: int| start <= i < p ==> #[trigger] t.kind(i) == TokenKind::Attribute && Self::knows(t.key(i)),
                t.kind(p as int) == TokenKind::ElementEnd && !is_close_end(t.span(p as int)),
                t.till_start(pos as int, "CompanionAds"@) == Some(start as int),
                t.attrs_end(start as int) == p,
                forall|i: int| start <= i < p ==> #[trigger] t.attr_readable(i),
                required == match t.attr_text(start - 1, p as int, "required"@) {
                    Some(v) => CompanionRequirement::parse_spec(v),
                    None => None,
                },
            decreases n - p,
        {
            proof {
                lemma_attrs_end_bounds(t, p as int);
            }
            let (found, q) = find_attribute(t, p)?;
            match found {
                None => {
                    break;
                },
                Some((key, value)) => {
                    p = q;
                    proof {
                        reveal_strlit("required");
                        assert("required"@.len() == 8);
                    }
                    if str_eq(key.as_str(), "required") {
                        if required.is_some() {
                            return Err(duplicate_attribute("required"));
                        }
                        required = Some(match CompanionRequirement::from_str(value.as_str()) {
                            Ok(v) => v,
                            Err(e) => return Err(scalar_error(e)),
                        });
                    } else {
                        return Err(unknown_field("CompanionAds", key));
                    }
                },
            }
        }
        let ghost e = p as int;
        let ghost mut ends_companions: Seq<int> = Seq::empty();
        proof {
            lemma_ends_empty(*t, companions@, e);
        }
        let empty = is_empty_end_of(&t.items[p]);
        p = p + 1;
        let ghost mut ws: Seq<(int, int, int)> = Seq::empty();
        proof {
            lemma_cover_empty(*t, e + 1, 1);
        }
        if !empty {
            loop
                invariant_except_break
                    children_cover(*t, ws, e + 1, p as int, 1),
                    prev_end(ws, e + 1, ws.len() as int) == p,
                invariant
                    n == t.len(),
                    pos < p <= n,
                    e < p,
                    (forall|k: int| 0 <= k < companions@.len() ==> read_within(*t, #[trigger] companions@[k], e, p as int)),
                    ends_fit(*t, companions@, e, ends_companions),
                    part_start(ends_companions, e, companions@.len() as int) <= p,
                    count_of(ws, 0) == companions@.len(),
                    count_of(ws, -1) == 0,
                ensures
                    pos < p <= n,
                    e < p,
                    children_cover(*t, ws, e + 1, content_end(e, p as int), 1),
                    (forall|k: int| 0 <= k < companions@.len() ==> read_within(*t, #[trigger] companions@[k], e, p as int)),
                    ends_fit(*t, companions@, e, ends_companions),
                    part_start(ends_companions, e, companions@.len() as int) <= p,
                    count_of(ws, 0) == companions@.len(),
                    count_of(ws, -1) == 0,

                decreases n - p,
            {
                let (found, q) = find_element_start(t, p, "CompanionAds")?;
                match found {
                    None => {
                        proof {
                            lemma_cover_extend(*t, ws, e + 1, p as int, q as int - 1, 1);
                        }
                        p = q;
                        break;
                    },
                    Some(tag) => {
                        if str_eq(tag.as_str(), "Companion") {
                            let (v, q2) = Companion::read(t, q)?;
                            proof {
                                assert(read_within(*t, v, q as int, q2 as int));
                                lemma_read_within_widen(*t, v, q as int, q2 as int, part_start(ends_companions, e, companions@.len() as int), q2 as int);
                                lemma_ends_push(*t, companions@, v, e, ends_companions, q2 as int);
                                ends_companions = ends_companions.push(q2 as int);
                            }
                            companions.push(v);
                            proof {
                                lemma_cover_push(*t, ws, e + 1, p as int, (q as int, q2 as int, 0), 1);
                                ws = ws.push((q as int, q2 as int, 0));
                            }
                            p = q2;
                        } else {
                            return Err(unknown_field("CompanionAds", tag));
                        }
                    },
                }
            }
        }
        assert(children_cover(*t, ws, e + 1, content_end(e, p as int), 1));
        assert(t.start_tag(start - 1, e, "CompanionAds"@));
        assert(t.till_start(pos as int, "CompanionAds"@) == Some(start as int));
        assert forall|i: int| start - 1 < i < e implies Self::knows(#[trigger] t.key(i)) by {
            assert(t.kind(i) == TokenKind::Attribute);
        }
        assert forall|i: int| start <= i < e implies #[trigger] t.attr_readable(i) && Self::knows(t.key(i)) by {
            assert(t.kind(i) == TokenKind::Attribute);
        }
        let v = CompanionAds { required, companions };
        assert(v.attrs_read(t, start - 1, e));
        assert(v.content_read(t, e, p as int));
        Ok((v, p))
    }

    fn write(&self, out: &mut String) {
        write_start(out, "CompanionAds");
        let ghost mut head = start_tag("CompanionAds"@);
        match &self.required {
            Some(v) => write_attribute(out, "required", v.keyword_str()),
            None => {},
        }
        proof {
            let piece = opt_attribute(
            "required"@,
            match self.required {
                Some(v) => Some(v.keyword()),
                None => None,
            },
        );
            lemma_append(old(out)@, head, piece);
            head = head + piece;
        }
        if self.companions.len() == 0 {
            write_empty_end(out);
        } else {
            let ghost mid = out@;
            let ghost mut body = seq!['>'];
            write_open_end(out);
            write_all(out, &self.companions);
            proof {
                let piece = seq_xml(self.companions@);
                lemma_append(mid, body, piece);
                body = body + piece;
            }
            write_end(out, "CompanionAds");
            proof {
                lemma_append(mid, body, end_tag("CompanionAds"@));
                lemma_append(old(out)@, head, body + end_tag("CompanionAds"@));
            }
        }
    }
}

/// A creative shown beside the content.
#[derive(Debug, Clone, PartialEq, Default)]
pub struct Companion {
    /// An identifier.
    pub id: Option<String>,
    /// Width in pixels.
    pub width: i32,
    /// Height in pixels.
    pub height: i32,
    /// Width of the asset in pixels.
    pub asset_width: Option<i32>,
    /// Height of the asset in pixels.
    pub asset_height: Option<i32>,
    /// Expanded width in pixels.
    pub expanded_width: Option<i32>,
    /// Expanded height in pixels.
    pub expanded_height: Option<i32>,
    /// The API of the creative.
    pub api_framework: Option<String>,
    /// The slot the companion is meant for.
    pub ad_slot_id: Option<String>,
    /// The pixel ratio, as the decimal text it is written in.
    pub pxratio: Option<String>,
    /// When it is rendered.
    pub rendering_mode: Option<RenderingMode>,
    /// HTML resources.
    pub html_resources: Vec<String>,
    /// Iframe resources.
    pub iframe_resources: Vec<String>,
    /// Static resources.
    pub static_resources: Vec<StaticResource>,
    /// Data for the creative.
    pub ad_parameters: Option<AdParameters>,
    /// Alternative text.
    pub alt_text: Option<String>,
    /// The page to open on a click.
    pub companion_click_through: Option<String>,
    /// URIs to request on a click.
    pub companion_click_trackings: Vec<CompanionClickTracking>,
    /// Creative extensions.
    pub creative_extensiosn: Option<CreativeExtensions>,
    /// Tracking events.
    pub tracking_events: Option<TrackingEvents>,
}

impl XmlElement for Companion {
    open spec fn tag() -> Seq<char> {
        "Companion"@
    }

    open spec fn knows(key: Seq<char>) -> bool {
        key == "id"@ || key == "width"@ || key == "height"@ || key == "assetWidth"@ || key == "assetHeight"@ || key == "expandedWidth"@ || key == "expandedHeight"@ || key == "apiFramework"@ || key == "adSlotId"@ || key == "pxratio"@ || key == "renderingMode"@
    }

    open spec fn attrs_read(&self, t: &Tokens, s: int, e: int) -> bool {
        (opt_view(self.id) == t.attr_text(s, e, "id"@))
            && (match t.attr_text(s, e, "width"@) {
            Some(v) => parse_i32_spec(v) == Some(self.width),
            None => false,
        })
            && (match t.attr_text(s, e, "height"@) {
            Some(v) => parse_i32_spec(v) == Some(self.height),
            None => false,
        })
            && (self.asset_width == match t.attr_text(s, e, "assetWidth"@) {
            Some(v) => parse_i32_spec(v),
            None => None,
        })
            && (self.asset_height == match t.attr_text(s, e, "assetHeight"@) {
            Some(v) => parse_i32_spec(v),
            None => None,
        })
            && (self.expanded_width == match t.attr_text(s, e, "expandedWidth"@) {
            Some(v) => parse_i32_spec(v),
            None => None,
        })
            && (self.expanded_height == match t.attr_text(s, e, "expandedHeight"@) {
            Some(v) => parse_i32_spec(v),
            None => None,
        })
            && (opt_view(self.api_framework) == t.attr_text(s, e, "apiFramework"@))
            && (opt_view(self.ad_slot_id) == t.attr_text(s, e, "adSlotId"@))
            && (opt_view(self.pxratio) == t.attr_text(s, e, "pxratio"@))
            && (self.rendering_mode == match t.attr_text(s, e, "renderingMode"@) {
            Some(v) => RenderingMode::parse_spec(v),
            None => None,
        })
    }

    open spec fn content_read(&self, t: &Tokens, e: int, q: int) -> bool {
        (forall|k: int| 0 <= k < self.static_resources@.len() ==> read_within(*t, #[trigger] self.static_resources@[k], e, q))
            && read_in_order(*t, self.static_resources@, e)
            && (self.ad_parameters matches Some(c) ==> read_within(*t, c, e, q))
            && (forall|k: int| 0 <= k < self.companion_click_trackings@.len() ==> read_within(*t, #[trigger] self.companion_click_trackings@[k], e, q))
            && read_in_order(*t, self.companion_click_trackings@, e)
            && (self.creative_extensiosn matches Some(c) ==> read_within(*t, c, e, q))
            && (self.tracking_events matches Some(c) ==> read_within(*t, c, e, q))
            && (forall|k: int| 0 <= k < self.html_resources@.len() ==> text_within(*t, "HTMLResource"@, #[trigger] self.html_resources@[k]@, e, q))
            && texts_in_order(*t, "HTMLResource"@, self.html_resources@, e)
            && (forall|k: int| 0 <= k < self.iframe_resources@.len() ==> text_within(*t, "IFrameResource"@, #[trigger] self.iframe_resources@[k]@, e, q))
            && texts_in_order(*t, "IFrameResource"@, self.iframe_resources@, e)
            && (self.alt_text matches Some(x) ==> text_within(*t, "AltText"@, x@, e, q))
            && (self.companion_click_through matches Some(x) ==> text_within(*t, "CompanionClickThrough"@, x@, e, q))
            && exists|ws: Seq<(int, int, int)>|
                #[trigger] children_cover(*t, ws, e + 1, content_end(e, q), 9)
                && count_of(ws, 0) == self.static_resources@.len()
                && count_of(ws, 1) == (if self.ad_parameters is Some { 1nat } else { 0nat })
                && count_of(ws, 2) == self.companion_click_trackings@.len()
                && count_of(ws, 3) == (if self.creative_extensiosn is Some { 1nat } else { 0nat })
                && count_of(ws, 4) == (if self.tracking_events is Some { 1nat } else { 0nat })
                && count_of(ws, 5) == self.html_resources@.len()
                && count_of(ws, 6) == self.iframe_resources@.len()
                && count_of(ws, 7) == (if self.alt_text is Some { 1nat } else { 0nat })
                && count_of(ws, 8) == (if self.companion_click_through is Some { 1nat } else { 0nat })
                && count_of(ws, -1) == 0
    }

    open spec fn read_ok(t: &Tokens, pos: int) -> bool {
        false
    }

    open spec fn read_refused(t: &Tokens, pos: int) -> bool {
        t.start_malformed(pos, "Companion"@) || match t.till_start(pos, "Companion"@) {
            Some(a) => exists|i: int| a <= i < t.attrs_end(a) && !Self::knows(#[trigger] t.key(i)),
            None => false,
        }
    }

    open spec fn xml_spec(&self) -> Seq<char> {
        start_tag("Companion"@)
            + opt_attribute("id"@, opt_view(self.id))
            + attribute("width"@, signed_decimal(self.width as int))
            + attribute("height"@, signed_decimal(self.height as int))
            + opt_attribute("assetWidth"@, opt_i32_text(self.asset_width))
            + opt_attribute("assetHeight"@, opt_i32_text(self.asset_height))
            + opt_attribute("expandedWidth"@, opt_i32_text(self.expanded_width))
            + opt_attribute("expandedHeight"@, opt_i32_text(self.expanded_height))
            + opt_attribute("apiFramework"@, opt_view(self.api_framework))
            + opt_attribute("adSlotId"@, opt_view(self.ad_slot_id))
            + opt_attribute("pxratio"@, opt_view(self.pxratio))
            + opt_attribute(
            "renderingMode"@,
            match self.rendering_mode {
                Some(v) => Some(v.keyword()),
                None => None,
            },
        )
            + (if self.static_resources@.len() == 0 && self.ad_parameters is None && self.companion_click_trackings@.len() == 0 && self.creative_extensiosn is None && self.tracking_events is None && self.html_resources@.len() == 0 && self.iframe_resources@.len() == 0 && self.alt_text is None && self.companion_click_through is None {
            seq!['/', '>']
        } else {
            seq!['>'] + seq_xml(self.static_resources@) + opt_xml(self.ad_parameters) + seq_xml(self.companion_click_trackings@) + opt_xml(self.creative_extensiosn) + opt_xml(self.tracking_events) + seq_text("HTMLResource"@, self.html_resources@, true) + seq_text("IFrameResource"@, self.iframe_resources@, true) + opt_text("AltText"@, self.alt_text, false) + opt_text("CompanionClickThrough"@, self.companion_click_through, true) + end_tag("Companion"@)
        })
    }

    #[verifier::rlimit(100)]
    #[verifier::spinoff_prover]
    fn read(t: &Tokens, pos: usize) -> (r: Result<(Self, usize), DecodeError>) {
        let n = t.items.len();
        let start = read_till_element_start(t, pos, "Companion")?;
        let mut p = start;
        let mut id: Option<String> = None;
        let mut width: Option<i32> = None;
        let mut height: Option<i32> = None;
        let mut asset_width: Option<i32> = None;
        let mut asset_height: Option<i32> = None;
        let mut expanded_width: Option<i32> = None;
        let mut expanded_height: Option<i32> = None;
        let mut api_framework: Option<String> = None;
        let mut ad_slot_id: Option<String> = None;
        let mut pxratio: Option<String> = None;
        let mut rendering_mode: Option<RenderingMode> = None;
        let mut static_resources: Vec<StaticResource> = Vec::new();
        let mut ad_parameters: Option<AdParameters> = None;
        let mut companion_click_trackings: Vec<CompanionClickTracking> = Vec::new();
        let mut creative_extensiosn: Option<CreativeExtensions> = None;
        let mut tracking_events: Option<TrackingEvents> = None;
        let mut html_resources: Vec<String> = Vec::new();
        let mut iframe_resources: Vec<String> = Vec::new();
        let mut alt_text: Option<String> = None;
        let mut companion_click_through: Option<String> = None;
        loop
            invariant
                n == t.len(),
                start <= p <= n,
                start == n || (pos < start && t.starts(start - 1, "Companion"@)),
                forall|i: int| start <= i < p ==> #[trigger] t.kind(i) == TokenKind::Attribute && Self::knows(t.key(i)),
                t.till_start(pos as int, "Companion"@) == Some(start as int),
                t.attrs_end(start as int) == t.attrs_end(p as int),
                forall|i: int| start <= i < p ==> #[trigger] t.attr_readable(i),
                opt_view(id) == t.attr_text(start - 1, p as int, "id"@),
                width == match t.attr_text(start - 1, p as int, "width"@) {
                    Some(v) => parse_i32_spec(v),
                    None => None,
                },
                height == match t.attr_text(start - 1, p as int, "height"@) {
                    Some(v) => parse_i32_spec(v),
                    None => None,
                },
                asset_width == match t.attr_text(start - 1, p as int, "assetWidth"@) {
                    Some(v) => parse_i32_spec(v),
                    None => None,
                },
                asset_height == match t.attr_text(start - 1, p as int, "assetHeight"@) {
                    Some(v) => parse_i32_spec(v),
                    None => None,
                },
                expanded_width == match t.attr_text(start - 1, p as int, "expandedWidth"@) {
                    Some(v) => parse_i32_spec(v),
                    None => None,
                },
                expanded_height == match t.attr_text(start - 1, p as int, "expandedHeight"@) {
                    Some(v) => parse_i32_spec(v),
                    None => None,
                },
                opt_view(api_framework) == t.attr_text(start - 1, p as int, "apiFramework"@),
                opt_view(ad_slot_id) == t.attr_text(start - 1, p as int, "adSlotId"@),
                opt_view(pxratio) == t.attr_text(start - 1, p as int, "pxratio"@),
                rendering_mode == match t.attr_text(start - 1, p as int, "renderingMode"@) {
                    Some(v) => RenderingMode::parse_spec(v),
                    None => None,
                },
            ensures
                start <= p < n,
                pos < start && t.starts(start - 1, "Companion"@),
                forall|i: int| start <= i < p ==> #[trigger] t.kind(i) == TokenKind::Attribute && Self::knows(t.key(i)),
                t.kind(p as int) == TokenKind::ElementEnd && !is_close_end(t.span(p as int)),
                t.till_start(pos as int, "Companion"@) == Some(start as int),
                t.attrs_end(start as int) == p,
                forall|i: int| start <= i < p ==> #[trigger] t.attr_readable(i),
                opt_view(id) == t.attr_text(start - 1, p as int, "id"@),
                width == match t.attr_text(start - 1, p as int, "width"@) {
                    Some(v) => parse_i32_spec(v),
                    None => None,
                },
                height == match t.attr_text(start - 1, p as int, "height"@) {
                    Some(v) => parse_i32_spec(v),
                    None => None,
                },
                asset_width == match t.attr_text(start - 1, p as int, "assetWidth"@) {
                    Some(v) => parse_i32_spec(v),
                    None => None,
                },
                asset_height == match t.attr_text(start - 1, p as int, "assetHeight"@) {
                    Some(v) => parse_i32_spec(v),
                    None => None,
                },
                expanded_width == match t.attr_text(start - 1, p as int, "expandedWidth"@) {
                    Some(v) => parse_i32_spec(v),
                    None => None,
                },
                expanded_height == match t.attr_text(start - 1, p as int, "expandedHeight"@) {
                    Some(v) => parse_i32_spec(v),
                    None => None,
                },
                opt_view(api_framework) == t.attr_text(start - 1, p as int, "apiFramework"@),
                opt_view(ad_slot_id) == t.attr_text(start - 1, p as int, "adSlotId"@),
                opt_view(pxratio) == t.attr_text(start - 1, p as int, "pxratio"@),
                rendering_mode == match t.attr_text(start - 1, p as int, "renderingMode"@) {
                    Some(v) => RenderingMode::parse_spec(v),
                    None => None,
                },
            decreases n - p,
        {
            proof {
                lemma_attrs_end_bounds(t, p as int);
            }
            let (found, q) = find_attribute(t, p)?;
            match found {
                None => {
                    break;
                },
                Some((key, value)) => {
                    p = q;
                    proof {
                        reveal_strlit("id");
                        reveal_strlit("width");
                        reveal_strlit("height");
                        reveal_strlit("assetWidth");
                        reveal_strlit("assetHeight");
                        reveal_strlit("expandedWidth");
                        reveal_strlit("expandedHeight");
                        reveal_strlit("apiFramework");
                        reveal_strlit("adSlotId");
                        reveal_strlit("pxratio");
                        reveal_strlit("renderingMode");
                        assert("id"@.len() == 2);
                        assert("width"@.len() == 5);
                        assert("height"@.len() == 6);
                        assert("assetWidth"@.len() == 10);
                        assert("assetHeight"@.len() == 11);
                        assert("expandedWidth"@.len() == 13 && "expandedWidth"@[0] == 'e');
                        assert("expandedHeight"@.len() == 14);
                        assert("apiFramework"@.len() == 12);
                        assert("adSlotId"@.len() == 8);
                        assert("pxratio"@.len() == 7);
                        assert("renderingMode"@.len() == 13 && "renderingMode"@[0] == 'r');
                    }
                    if str_eq(key.as_str(), "id") {
                        if id.is_some() {
                            return Err(duplicate_attribute("id"));
                        }
                        id = Some(value);
                    } else if str_eq(key.as_str(), "width") {
                        if width.is_some() {
                            return Err(duplicate_attribute("width"));
                        }
                        width = Some(parse_int(value.as_str())?);
                    } else if str_eq(key.as_str(), "height") {
                        if height.is_some() {
                            return Err(duplicate_attribute("height"));
                        }
                        height = Some(parse_int(value.as_str())?);
                    } else if str_eq(key.as_str(), "assetWidth") {
                        if asset_width.is_some() {
                            return Err(duplicate_attribute("assetWidth"));
                        }
                        asset_width = Some(parse_int(value.as_str())?);
                    } else if str_eq(key.as_str(), "assetHeight") {
                        if asset_height.is_some() {
                            return Err(duplicate_attribute("assetHeight"));
                        }
                        asset_height = Some(parse_int(value.as_str())?);
                    } else if str_eq(key.as_str(), "expandedWidth") {
                        if expanded_width.is_some() {
                            return Err(duplicate_attribute("expandedWidth"));
                        }
                        expanded_width = Some(parse_int(value.as_str())?);
                    } else if str_eq(key.as_str(), "expandedHeight") {
                        if expanded_height.is_some() {
                            return Err(duplicate_attribute("expandedHeight"));
                        }
                        expanded_height = Some(parse_int(value.as_str())?);
                    } else if str_eq(key.as_str(), "apiFramework") {
                        if api_framework.is_some() {
                            return Err(duplicate_attribute("apiFramework"));
                        }
                        api_framework = Some(value);
                    } else if str_eq(key.as_str(), "adSlotId") {
                        if ad_slot_id.is_some() {
                            return Err(duplicate_attribute("adSlotId"));
                        }
                        ad_slot_id = Some(value);
                    } else if str_eq(key.as_str(), "pxratio") {
                        if pxratio.is_some() {
                            return Err(duplicate_attribute("pxratio"));
                        }
                        pxratio = Some(value);
                    } else if str_eq(key.as_str(), "renderingMode") {
                        if rendering_mode.is_some() {
                            return Err(duplicate_attribute("renderingMode"));
                        }
                        rendering_mode = Some(match RenderingMode::from_str(value.as_str()) {
                            Ok(v) => v,
                            Err(e) => return Err(scalar_error(e)),
                        });
                    } else {
                        return Err(unknown_field("Companion", key));
                    }
                },
            }
        }
        let ghost e = p as int;
        let ghost mut ends_static_resources: Seq<int> = Seq::empty();
        proof {
            lemma_ends_empty(*t, static_resources@, e);
        }
        let ghost mut ends_companion_click_trackings: Seq<int> = Seq::empty();
        proof {
            lemma_ends_empty(*t, companion_click_trackings@, e);
        }
        let ghost mut ends_html_resources: Seq<int> = Seq::empty();
        proof {
            lemma_text_ends_empty(*t, "HTMLResource"@, html_resources@, e);
        }
        let ghost mut ends_iframe_resources: Seq<int> = Seq::empty();
        proof {
            lemma_text_ends_empty(*t, "IFrameResource"@, iframe_resources@, e);
        }
        let empty = is_empty_end_of(&t.items[p]);
        p = p + 1;
        let ghost mut ws: Seq<(int, int, int)> = Seq::empty();
        proof {
            lemma_cover_empty(*t, e + 1, 9);
        }
        if !empty {
            loop
                invariant_except_break
                    children_cover(*t, ws, e + 1, p as int, 9),
                    prev_end(ws, e + 1, ws.len() as int) == p,
                invariant
                    n == t.len(),
                    pos < p <= n,
                    e < p,
                    (forall|k: int| 0 <= k < static_resources@.len() ==> read_within(*t, #[trigger] static_resources@[k], e, p as int)),
                    (ad_parameters matches Some(c) ==> read_within(*t, c, e, p as int)),
                    (forall|k: int| 0 <= k < companion_click_trackings@.len() ==> read_within(*t, #[trigger] companion_click_trackings@[k], e, p as int)),
                    (creative_extensiosn matches Some(c) ==> read_within(*t, c, e, p as int)),
                    (tracking_events matches Some(c) ==> read_within(*t, c, e, p as int)),
                    (forall|k: int| 0 <= k < html_resources@.len() ==> text_within(*t, "HTMLResource"@, #[trigger] html_resources@[k]@, e, p as int)),
                    (forall|k: int| 0 <= k < iframe_resources@.len() ==> text_within(*t, "IFrameResource"@, #[trigger] iframe_resources@[k]@, e, p as int)),
                    (alt_text matches Some(x) ==> text_within(*t, "AltText"@, x@, e, p as int)),
                    (companion_click_through matches Some(x) ==> text_within(*t, "CompanionClickThrough"@, x@, e, p as int)),
                    ends_fit(*t, static_resources@, e, ends_static_resources),
                    part_start(ends_static_resources, e, static_resources@.len() as int) <= p,
                    ends_fit(*t, companion_click_trackings@, e, ends_companion_click_trackings),
                    part_start(ends_companion_click_trackings, e, companion_click_trackings@.len() as int) <= p,
                    text_ends_fit(*t, "HTMLResource"@, html_resources@, e, ends_html_resources),
                    part_start(ends_html_resources, e, html_resources@.len() as int) <= p,
                    text_ends_fit(*t, "IFrameResource"@, iframe_resources@, e, ends_iframe_resources),
                    part_start(ends_iframe_resources, e, iframe_resources@.len() as int) <= p,
                    count_of(ws, 0) == static_resources@.len(),
                    count_of(ws, 1) == (if ad_parameters is Some { 1nat } else { 0nat }),
                    count_of(ws, 2) == companion_click_trackings@.len(),
                    count_of(ws, 3) == (if creative_extensiosn is Some { 1nat } else { 0nat }),
                    count_of(ws, 4) == (if tracking_events is Some { 1nat } else { 0nat }),
                    count_of(ws, 5) == html_resources@.len(),
                    count_of(ws, 6) == iframe_resources@.len(),
                    count_of(ws, 7) == (if alt_text is Some { 1nat } else { 0nat }),
                    count_of(ws, 8) == (if companion_click_through is Some { 1nat } else { 0nat }),
                    count_of(ws, -1) == 0,
                ensures
                    pos < p <= n,
                    e < p,
                    children_cover(*t, ws, e + 1, content_end(e, p as int), 9),
                    (forall|k: int| 0 <= k < static_resources@.len() ==> read_within(*t, #[trigger] static_resources@[k], e, p as int)),
                    (ad_parameters matches Some(c) ==> read_within(*t, c, e, p as int)),
                    (forall|k: int| 0 <= k < companion_click_trackings@.len() ==> read_within(*t, #[trigger] companion_click_trackings@[k], e, p as int)),
                    (creative_extensiosn matches Some(c) ==> read_within(*t, c, e, p as int)),
                    (tracking_events matches Some(c) ==> read_within(*t, c, e, p as int)),
                    (forall|k: int| 0 <= k < html_resources@.len() ==> text_within(*t, "HTMLResource"@, #[trigger] html_resources@[k]@, e, p as int)),
                    (forall|k: int| 0 <= k < iframe_resources@.len() ==> text_within(*t, "IFrameResource"@, #[trigger] iframe_resources@[k]@, e, p as int)),
                    (alt_text matches Some(x) ==> text_within(*t, "AltText"@, x@, e, p as int)),
                    (companion_click_through matches Some(x) ==> text_within(*t, "CompanionClickThrough"@, x@, e, p as int)),
                    ends_fit(*t, static_resources@, e, ends_static_resources),
                    part_start(ends_static_resources, e, static_resources@.len() as int) <= p,
                    ends_fit(*t, companion_click_trackings@, e, ends_companion_click_trackings),
                    part_start(ends_companion_click_trackings, e, companion_click_trackings@.len() as int) <= p,
                    text_ends_fit(*t, "HTMLResource"@, html_resources@, e, ends_html_resources),
                    part_start(ends_html_resources, e, html_resources@.len() as int) <= p,
                    text_ends_fit(*t, "IFrameResource"@, iframe_resources@, e, ends_iframe_resources),
                    part_start(ends_iframe_resources, e, iframe_resources@.len() as int) <= p,
                    count_of(ws, 0) == static_resources@.len(),
                    count_of(ws, 1) == (if ad_parameters is Some { 1nat } else { 0nat }),
                    count_of(ws, 2) == companion_click_trackings@.len(),
                    count_of(ws, 3) == (if creative_extensiosn is Some { 1nat } else { 0nat }),
                    count_of(ws, 4) == (if tracking_events is Some { 1nat } else { 0nat }),
                    count_of(ws, 5) == html_resources@.len(),
                    count_of(ws, 6) == iframe_resources@.len(),
                    count_of(ws, 7) == (if alt_text is Some { 1nat } else { 0nat }),
                    count_of(ws, 8) == (if companion_click_through is Some { 1nat } else { 0nat }),
                    count_of(ws, -1) == 0,

                decreases n - p,
            {
                let (found, q) = find_element_start(t, p, "Companion")?;
                match found {
                    None => {
                        proof {
                            lemma_cover_extend(*t, ws, e + 1, p as int, q as int - 1, 9);
                        }
                        p = q;
                        break;
                    },
                    Some(tag) => {
                        if str_eq(tag.as_str(), "StaticResource") {
                            let (v, q2) = StaticResource::read(t, q)?;
                            proof {
                                assert(read_within(*t, v, q as int, q2 as int));
                                lemma_read_within_widen(*t, v, q as int, q2 as int, part_start(ends_static_resources, e, static_resources@.len() as int), q2 as int);
                                lemma_ends_push(*t, static_resources@, v, e, ends_static_resources, q2 as int);
                                ends_static_resources = ends_static_resources.push(q2 as int);
                            }
                            static_resources.push(v);
                            proof {
                                lemma_cover_push(*t, ws, e + 1, p as int, (q as int, q2 as int, 0), 9);
                                ws = ws.push((q as int, q2 as int, 0));
                            }
                            p = q2;
                        } else if str_eq(tag.as_str(), "AdParameters") {
                            if ad_parameters.is_some() {
                                return Err(duplicate_element("AdParameters"));
                            }
                            let (v, q2) = AdParameters::read(t, q)?;
                            ad_parameters = Some(v);
                            proof {
                                lemma_cover_push(*t, ws, e + 1, p as int, (q as int, q2 as int, 1), 9);
                                ws = ws.push((q as int, q2 as int, 1));
                            }
                            p = q2;
                        } else if str_eq(tag.as_str(), "CompanionClickTracking") {
                            let (v, q2) = CompanionClickTracking::read(t, q)?;
                            proof {
                                assert(read_within(*t, v, q as int, q2 as int));
                                lemma_read_within_widen(*t, v, q as int, q2 as int, part_start(ends_companion_click_trackings, e, companion_click_trackings@.len() as int), q2 as int);
                                lemma_ends_push(*t, companion_click_trackings@, v, e, ends_companion_click_trackings, q2 as int);
                                ends_companion_click_trackings = ends_companion_click_trackings.push(q2 as int);
                            }
                            companion_click_trackings.push(v);
                            proof {
                                lemma_cover_push(*t, ws, e + 1, p as int, (q as int, q2 as int, 2), 9);
                                ws = ws.push((q as int, q2 as int, 2));
                            }
                            p = q2;
                        } else if str_eq(tag.as_str(), "CreativeExtensions") {
                            if creative_extensiosn.is_some() {
                                return Err(duplicate_element("CreativeExtensions"));
                            }
                            let (v, q2) = CreativeExtensions::read(t, q)?;
                            creative_extensiosn = Some(v);
                            proof {
                                lemma_cover_push(*t, ws, e + 1, p as int, (q as int, q2 as int, 3), 9);
                                ws = ws.push((q as int, q2 as int, 3));
                            }
                            p = q2;
                        } else if str_eq(tag.as_str(), "TrackingEvents") {
                            if tracking_events.is_some() {
                                return Err(duplicate_element("TrackingEvents"));
                            }
                            let (v, q2) = TrackingEvents::read(t, q)?;
                            tracking_events = Some(v);
                            proof {
                                lemma_cover_push(*t, ws, e + 1, p as int, (q as int, q2 as int, 4), 9);
                                ws = ws.push((q as int, q2 as int, 4));
                            }
                            p = q2;
                        } else if str_eq(tag.as_str(), "HTMLResource") {
                            let (s, q2) = read_text_child(t, q, "HTMLResource")?;
                            let v = s;
                            proof {
                                assert(text_within(*t, "HTMLResource"@, v@, q as int, q2 as int));
                                assert(text_within(*t, "HTMLResource"@, v@, part_start(ends_html_resources, e, html_resources@.len() as int), q2 as int));
                                lemma_text_ends_push(*t, "HTMLResource"@, html_resources@, v, e, ends_html_resources, q2 as int);
                                ends_html_resources = ends_html_resources.push(q2 as int);
                            }
                            html_resources.push(v);
                            proof {
                                lemma_cover_push(*t, ws, e + 1, p as int, (q as int, q2 as int, 5), 9);
                                ws = ws.push((q as int, q2 as int, 5));
                            }
                            p = q2;
                        } else if str_eq(tag.as_str(), "IFrameResource") {
                            let (s, q2) = read_text_child(t, q, "IFrameResource")?;
                            let v = s;
                            proof {
                                assert(text_within(*t, "IFrameResource"@, v@, q as int, q2 as int));
                                assert(text_within(*t, "IFrameResource"@, v@, part_start(ends_iframe_resources, e, iframe_resources@.len() as int), q2 as int));
                                lemma_text_ends_push(*t, "IFrameResource"@, iframe_resources@, v, e, ends_iframe_resources, q2 as int);
                                ends_iframe_resources = ends_iframe_resources.push(q2 as int);
                            }
                            iframe_resources.push(v);
                            proof {
                                lemma_cover_push(*t, ws, e + 1, p as int, (q as int, q2 as int, 6), 9);
                                ws = ws.push((q as int, q2 as int, 6));
                            }
                            p = q2;
                        } else if str_eq(tag.as_str(), "AltText") {
                            if alt_text.is_some() {
                                return Err(duplicate_element("AltText"));
                            }
                            let (s, q2) = read_text_child(t, q, "AltText")?;
                            let v = s;
                            alt_text = Some(v);
                            proof {
                                lemma_cover_push(*t, ws, e + 1, p as int, (q as int, q2 as int, 7), 9);
                                ws = ws.push((q as int, q2 as int, 7));
                            }
                            p = q2;
                        } else if str_eq(tag.as_str(), "CompanionClickThrough") {
                            if companion_click_through.is_some() {
                                return Err(duplicate_element("CompanionClickThrough"));
                            }
                            let (s, q2) = read_text_child(t, q, "CompanionClickThrough")?;
                            let v = s;
                            companion_click_through = Some(v);
                            proof {
                                lemma_cover_push(*t, ws, e + 1, p as int, (q as int, q2 as int, 8), 9);
                                ws = ws.push((q as int, q2 as int, 8));
                            }
                            p = q2;
                        } else {
                            return Err(unknown_field("Companion", tag));
                        }
                    },
                }
            }
        }
        assert(children_cover(*t, ws, e + 1, content_end(e, p as int), 9));
        let width = match width {
            Some(v) => v,
            None => return Err(missing_field("Companion", "width")),
        };
        let height = match height {
            Some(v) => v,
            None => return Err(missing_field("Companion", "height")),
        };
        assert(t.start_tag(start - 1, e, "Companion"@));
        assert(t.till_start(pos as int, "Companion"@) == Some(start as int));
        assert forall|i: int| start - 1 < i < e implies Self::knows(#[trigger] t.key(i)) by {
            assert(t.kind(i) == TokenKind::Attribute);
        }
        assert forall|i: int| start <= i < e implies #[trigger] t.attr_readable(i) && Self::knows(t.key(i)) by {
            assert(t.kind(i) == TokenKind::Attribute);
        }
        let v = Companion { id, width, height, asset_width, asset_height, expanded_width, expanded_height, api_framework, ad_slot_id, pxratio, rendering_mode, html_resources, iframe_resources, static_resources, ad_parameters, alt_text, companion_click_through, companion_click_trackings, creative_extensiosn, tracking_events };
        assert(v.attrs_read(t, start - 1, e));
        assert(v.content_read(t, e, p as int));
        Ok((v, p))
    }

    #[verifier::rlimit(40)]
    fn write(&self, out: &mut String) {
        write_start(out, "Companion");
        let ghost mut head = start_tag("Companion"@);
        write_opt_attribute(out, "id", &self.id);
        proof {
            let piece = opt_attribute("id"@, opt_view(self.id));
            lemma_append(old(out)@, head, piece);
            head = head + piece;
        }
        write_int_attribute(out, "width", self.width);
        proof {
            let piece = attribute("width"@, signed_decimal(self.width as int));
            lemma_append(old(out)@, head, piece);
            head = head + piece;
        }
        write_int_attribute(out, "height", self.height);
        proof {
            let piece = attribute("height"@, signed_decimal(self.height as int));
            lemma_append(old(out)@, head, piece);
            head = head + piece;
        }
        write_opt_int_attribute(out, "assetWidth", self.asset_width);
        proof {
            let piece = opt_attribute("assetWidth"@, opt_i32_text(self.asset_width));
            lemma_append(old(out)@, head, piece);
            head = head + piece;
        }
        write_opt_int_attribute(out, "assetHeight", self.asset_height);
        proof {
            let piece = opt_attribute("assetHeight"@, opt_i32_text(self.asset_height));
            lemma_append(old(out)@, head, piece);
            head = head + piece;
        }
        write_opt_int_attribute(out, "expandedWidth", self.expanded_width);
        proof {
            let piece = opt_attribute("expandedWidth"@, opt_i32_text(self.expanded_width));
            lemma_append(old(out)@, head, piece);
            head = head + piece;
        }
        write_opt_int_attribute(out, "expandedHeight", self.expanded_height);
        proof {
            let piece = opt_attribute("expandedHeight"@, opt_i32_text(self.expanded_height));
            lemma_append(old(out)@, head, piece);
            head = head + piece;
        }
        write_opt_attribute(out, "apiFramework", &self.api_framework);
        proof {
            let piece = opt_attribute("apiFramework"@, opt_view(self.api_framework));
            lemma_append(old(out)@, head, piece);
            head = head + piece;
        }
        write_opt_attribute(out, "adSlotId", &self.ad_slot_id);
        proof {
            let piece = opt_attribute("adSlotId"@, opt_view(self.ad_slot_id));
            lemma_append(old(out)@, head, piece);
            head = head + piece;
        }
        write_opt_attribute(out, "pxratio", &self.pxratio);
        proof {
            let piece = opt_attribute("pxratio"@, opt_view(self.pxratio));
            lemma_append(old(out)@, head, piece);
            head = head + piece;
        }
        match &self.rendering_mode {
            Some(v) => write_attribute(out, "renderingMode", v.keyword_str()),
            None => {},
        }
        proof {
            let piece = opt_attribute(
            "renderingMode"@,
            match self.rendering_mode {
                Some(v) => Some(v.keyword()),
                None => None,
            },
        );
            lemma_append(old(out)@, head, piece);
            head = head + piece;
        }
        if self.static_resources.len() == 0 && self.ad_parameters.is_none() && self.companion_click_trackings.len() == 0 && self.creative_extensiosn.is_none() && self.tracking_events.is_none() && self.html_resources.len() == 0 && self.iframe_resources.len() == 0 && self.alt_text.is_none() && self.companion_click_through.is_none() {
            write_empty_end(out);
        } else {
            let ghost mid = out@;
            let ghost mut body = seq!['>'];
            write_open_end(out);
            write_all(out, &self.static_resources);
            proof {
                let piece = seq_xml(self.static_resources@);
                lemma_append(mid, body, piece);
                body = body + piece;
            }
            write_opt(out, &self.ad_parameters);
            proof {
                let piece = opt_xml(self.ad_parameters);
                lemma_append(mid, body, piece);
                body = body + piece;
            }
            write_all(out, &self.companion_click_trackings);
            proof {
                let piece = seq_xml(self.companion_click_trackings@);
                lemma_append(mid, body, piece);
                body = body + piece;
            }
            write_opt(out, &self.creative_extensiosn);
            proof {
                let piece = opt_xml(self.creative_extensiosn);
                lemma_append(mid, body, piece);
                body = body + piece;
            }
            write_opt(out, &self.tracking_events);
            proof {
                let piece = opt_xml(self.tracking_events);
                lemma_append(mid, body, piece);
                body = body + piece;
            }
            write_text_elements(out, "HTMLResource", &self.html_resources, true);
            proof {
                let piece = seq_text("HTMLResource"@, self.html_resources@, true);
                lemma_append(mid, body, piece);
                body = body + piece;
            }
            write_text_elements(out, "IFrameResource", &self.iframe_resources, true);
            proof {
                let piece = seq_text("IFrameResource"@, self.iframe_resources@, true);
                lemma_append(mid, body, piece);
                body = body + piece;
            }
            write_opt_text(out, "AltText", &self.alt_text, false);
            proof {
                let piece = opt_text("AltText"@, self.alt_text, false);
                lemma_append(mid, body, piece);
                body = body + piece;
            }
            write_opt_text(out, "CompanionClickThrough", &self.companion_click_through, true);
            proof {
                let piece = opt_text("CompanionClickThrough"@, self.companion_click_through, true);
                lemma_append(mid, body, piece);
                body = body + piece;
            }
            write_end(out, "Companion");
            proof {
                lemma_append(mid, body, end_tag("Companion"@));
                lemma_append(old(out)@, head, body + end_tag("Companion"@));
            }
        }
    }
}

/// A URI to request on a click of a companion.
#[derive(Debug, Clone, PartialEq, Default)]
pub struct CompanionClickTracking {
    /// An identifier.
    pub id: String,
    /// The URI.
    pub uri: String,
}

impl XmlElement for CompanionClickTracking {
    open spec fn tag() -> Seq<char> {
        "CompanionClickTracking"@
    }

    open spec fn knows(key: Seq<char>) -> bool {
        key == "id"@
    }

    open spec fn attrs_read(&self, t: &Tokens, s: int, e: int) -> bool {
        (t.attr_text(s, e, "id"@) == Some(self.id@))
    }

    open spec fn content_read(&self, t: &Tokens, e: int, q: int) -> bool {
        self.uri@ == t.text_of(e, q)
    }

    open spec fn read_ok(t: &Tokens, pos: int) -> bool {
        false
    }

    open spec fn read_refused(t: &Tokens, pos: int) -> bool {
        t.start_malformed(pos, "CompanionClickTracking"@) || match t.till_start(pos, "CompanionClickTracking"@) {
            Some(a) => exists|i: int| a <= i < t.attrs_end(a) && !Self::knows(#[trigger] t.key(i)),
            None => false,
        }
    }

    open spec fn xml_spec(&self) -> Seq<char> {
        start_tag("CompanionClickTracking"@)
            + attribute("id"@, self.id@)
            + (seq!['>'] + cdata(self.uri@) + end_tag("CompanionClickTracking"@))
    }

    fn read(t: &Tokens, pos: usize) -> (r: Result<(Self, usize), DecodeError>) {
        let n = t.items.len();
        let start = read_till_element_start(t, pos, "CompanionClickTracking")?;
        let mut p = start;
        let mut id: Option<String> = None;
        loop
            invariant
                n == t.len(),
                start <= p <= n,
                start == n || (pos < start && t.starts(start - 1, "CompanionClickTracking"@)),
                forall|i: int| start <= i < p ==> #[trigger] t.kind(i) == TokenKind::Attribute && Self::knows(t.key(i)),
                t.till_start(pos as int, "CompanionClickTracking"@) == Some(start as int),
                t.attrs_end(start as int) == t.attrs_end(p as int),
                forall|i: int| start <= i < p ==> #[trigger] t.attr_readable(i),
                opt_view(id) == t.attr_text(start - 1, p as int, "id"@),
            ensures
                start <= p < n,
                pos < start && t.starts(start - 1, "CompanionClickTracking"@),
                forall|i: int| start <= i < p ==> #[trigger] t.kind(i) == TokenKind::Attribute && Self::knows(t.key(i)),
                t.kind(p as int) == TokenKind::ElementEnd && !is_close_end(t.span(p as int)),
                t.till_start(pos as int, "CompanionClickTracking"@) == Some(start as int),
                t.attrs_end(start as int) == p,
                forall|i: int| start <= i < p ==> #[trigger] t.attr_readable(i),
                opt_view(id) == t.attr_text(start - 1, p as int, "id"@),
            decreases n - p,
        {
            proof {
                lemma_attrs_end_bounds(t, p as int);
            }
            let (found, q) = find_attribute(t, p)?;
            match found {
                None => {
                    break;
                },
                Some((key, value)) => {
                    p = q;
                    proof {
                        reveal_strlit("id");
                        assert("id"@.len() == 2);
                    }
                    if str_eq(key.as_str(), "id") {
                        if id.is_some() {
                            return Err(duplicate_attribute("id"));
                        }
                        id = Some(value);
                    } else {
                        return Err(unknown_field("CompanionClickTracking", key));
                    }
                },
            }
        }
        let ghost e = p as int;
        let (text, q) = read_text(t, p, "CompanionClickTracking")?;
        p = q;
        let id = match id {
            Some(v) => v,
            None => return Err(missing_field("CompanionClickTracking", "id")),
        };
        assert(t.start_tag(start - 1, e, "CompanionClickTracking"@));
        assert(t.till_start(pos as int, "CompanionClickTracking"@) == Some(start as int));
        assert forall|i: int| start - 1 < i < e implies Self::knows(#[trigger] t.key(i)) by {
            assert(t.kind(i) == TokenKind::Attribute);
        }
        assert forall|i: int| start <= i < e implies #[trigger] t.attr_readable(i) && Self::knows(t.key(i)) by {
            assert(t.kind(i) == TokenKind::Attribute);
        }
        let v = CompanionClickTracking { id, uri: text };
        assert(v.attrs_read(t, start - 1, e));
        Ok((v, p))
    }

    fn write(&self, out: &mut String) {
        write_start(out, "CompanionClickTracking");
        let ghost mut head = start_tag("CompanionClickTracking"@);
        write_attribute(out, "id", self.id.as_str());
        proof {
            let piece = attribute("id"@, self.id@);
            lemma_append(old(out)@, head, piece);
            head = head + piece;
        }
        let ghost mid = out@;
        let ghost mut body = seq!['>'];
        write_open_end(out);
        write_text(out, self.uri.as_str(), true);
        proof {
            let piece = cdata(self.uri@);
            lemma_append(mid, body, piece);
            body = body + piece;
        }
        write_end(out, "CompanionClickTracking");
        proof {
            lemma_append(mid, body, end_tag("CompanionClickTracking"@));
            lemma_append(old(out)@, head, body + end_tag("CompanionClickTracking"@));
        }
    }
}

} // verus!
