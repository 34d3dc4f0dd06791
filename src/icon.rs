//! `<Icons>`: the icons shown over a linear creative, and their positions.
use vstd::prelude::*;
use crate::codec::{
    XmlElement, children_cover, count_of, content_end, prev_end, lemma_cover_push,
    lemma_cover_extend, lemma_cover_empty, lemma_ends_empty, lemma_text_ends_empty, read_within,
    read_in_order, texts_in_order, lemma_read_within_widen, lemma_ends_push, lemma_text_ends_push,
    ends_fit, text_ends_fit, part_start, text_within, lemma_append, seq_xml, opt_xml, seq_text,
    opt_text, opt_attribute, opt_view, opt_i32_text, parse_int, scalar_error, missing_field,
    unknown_field, duplicate_attribute, duplicate_element, read_text_child, write_all, write_opt,
    write_text_elements, write_opt_text, write_opt_attribute, write_opt_int_attribute, from_str,
    to_string,
};
use crate::reader::{
    is_close_end, lemma_attrs_end_bounds, read_till_element_start, find_attribute,
    find_element_start, read_text, is_empty_end_of,
};
use crate::writer::{
    start_tag, end_tag, cdata, write_start, write_attribute, write_open_end, write_empty_end,
    write_end, write_text,
};
use crate::xml::{DecodeError, TokenKind, Tokens};
use crate::duration::{parse_duration};
use crate::creative_resource::{StaticResource};
use crate::duration::{Duration};
use crate::error::{VastParseError, quoted_error};
use crate::text::{
    str_eq, parse_i32, parse_i32_spec, signed_decimal, write_signed, lemma_signed_round_trip,
    lemma_signed_decimal_shape,
};

verus! {

/// The horizontal position of an icon: a keyword or a coordinate.
#[derive(Debug, Clone, Copy, PartialEq, Eq, Structural)]
pub enum XPosition {
    /// A position in pixels.
    Coordinate(i32),
    Left,
    Right,
}

impl XPosition {
    /// The text that stands for the position in a document.
    pub open spec fn text(self) -> Seq<char> {
        match self {
            XPosition::Coordinate(v) => signed_decimal(v as int),
            XPosition::Left => "left"@,
            XPosition::Right => "right"@,
        }
    }

    /// The keywords first, then a signed integer.
    pub open spec fn parse_spec(s: Seq<char>) -> Option<XPosition> {
        if s == "left"@ {
            Some(XPosition::Left)
        } else if s == "right"@ {
            Some(XPosition::Right)
        } else {
            match parse_i32_spec(s) {
                Some(v) => Some(XPosition::Coordinate(v)),
                None => None,
            }
        }
    }

    /// Reads a keyword or a coordinate.
    pub fn from_str(s: &str) -> (r: Result<Self, VastParseError>)
        ensures
            r matches Ok(v) ==> Self::parse_spec(s@) == Some(v),
            r matches Err(e) ==> Self::parse_spec(s@) is None && e.input@ == quoted_error(
                "x position parsing error: "@,
                s@,
            ),
    {
        if str_eq(s, "left") {
            Ok(XPosition::Left)
        } else if str_eq(s, "right") {
            Ok(XPosition::Right)
        } else {
            match parse_i32(s) {
                Some(v) => Ok(XPosition::Coordinate(v)),
                None => Err(VastParseError::quoting("x position parsing error: ", s)),
            }
        }
    }

    /// Appends the text of the position.
    pub fn write_to(&self, out: &mut String)
        ensures
            final(out)@ == old(out)@ + self.text(),
    {
        match self {
            XPosition::Coordinate(v) => write_signed(out, *v),
            XPosition::Left => out.append("left"),
            XPosition::Right => out.append("right"),
        }
    }

    /// The text of the position.
    pub fn to_string(&self) -> (r: String)
        ensures
            r@ == self.text(),
    {
        let mut out = String::new();
        self.write_to(&mut out);
        assert(out@ =~= self.text());
        out
    }
}

/// Reading the text of a position gives the position back.
pub proof fn lemma_x_position_round_trip(v: XPosition)
    ensures
        XPosition::parse_spec(v.text()) == Some(v),
{
    reveal_strlit("left");
    reveal_strlit("right");
    if let XPosition::Coordinate(x) = v {
        lemma_signed_decimal_shape(x as int);
        lemma_signed_round_trip(x);
        assert(v.text()[0] != "left"@[0]);
        assert(v.text()[0] != "right"@[0]);
    } else {
        assert("left"@[0] != "right"@[0]);
    }
}

/// The vertical position of an icon: a keyword or a coordinate.
#[derive(Debug, Clone, Copy, PartialEq, Eq, Structural)]
pub enum YPosition {
    /// A position in pixels.
    Coordinate(i32),
    Top,
    Bottom,
}

impl YPosition {
    /// The text that stands for the position in a document.
    pub open spec fn text(self) -> Seq<char> {
        match self {
            YPosition::Coordinate(v) => signed_decimal(v as int),
            YPosition::Top => "top"@,
            YPosition::Bottom => "bottom"@,
        }
    }

    /// The keywords first, then a signed integer.
    pub open spec fn parse_spec(s: Seq<char>) -> Option<YPosition> {
        if s == "top"@ {
            Some(YPosition::Top)
        } else if s == "bottom"@ {
            Some(YPosition::Bottom)
        } else {
            match parse_i32_spec(s) {
                Some(v) => Some(YPosition::Coordinate(v)),
                None => None,
            }
        }
    }

    /// Reads a keyword or a coordinate.
    pub fn from_str(s: &str) -> (r: Result<Self, VastParseError>)
        ensures
            r matches Ok(v) ==> Self::parse_spec(s@) == Some(v),
            r matches Err(e) ==> Self::parse_spec(s@) is None && e.input@ == quoted_error(
                "y position parsing error: "@,
                s@,
            ),
    {
        if str_eq(s, "top") {
            Ok(YPosition::Top)
        } else if str_eq(s, "bottom") {
            Ok(YPosition::Bottom)
        } else {
            match parse_i32(s) {
                Some(v) => Ok(YPosition::Coordinate(v)),
                None => Err(VastParseError::quoting("y position parsing error: ", s)),
            }
        }
    }

    /// Appends the text of the position.
    pub fn write_to(&self, out: &mut String)
        ensures
            final(out)@ == old(out)@ + self.text(),
    {
        match self {
            YPosition::Coordinate(v) => write_signed(out, *v),
            YPosition::Top => out.append("top"),
            YPosition::Bottom => out.append("bottom"),
        }
    }

    /// The text of the position.
    pub fn to_string(&self) -> (r: String)
        ensures
            r@ == self.text(),
    {
        let mut out = String::new();
        self.write_to(&mut out);
        assert(out@ =~= self.text());
        out
    }
}

/// Reading the text of a position gives the position back.
pub proof fn lemma_y_position_round_trip(v: YPosition)
    ensures
        YPosition::parse_spec(v.text()) == Some(v),
{
    reveal_strlit("top");
    reveal_strlit("bottom");
    if let YPosition::Coordinate(x) = v {
        lemma_signed_decimal_shape(x as int);
        lemma_signed_round_trip(x);
        assert(v.text()[0] != "top"@[0]);
        assert(v.text()[0] != "bottom"@[0]);
    } else {
        assert("top"@[0] != "bottom"@[0]);
    }
}

/// The icons of a linear creative.
#[derive(Debug, Clone, PartialEq, Default)]
pub struct Icons {
    /// One or more icons.
    pub icons: Vec<Icon>,
}

impl XmlElement for Icons {
    open spec fn tag() -> Seq<char> {
        "Icons"@
    }

    open spec fn knows(key: Seq<char>) -> bool {
        false
    }

    open spec fn attrs_read(&self, t: &Tokens, s: int, e: int) -> bool {
        true
    }

    open spec fn content_read(&self, t: &Tokens, e: int, q: int) -> bool {
        (forall|k: int| 0 <= k < self.icons@.len() ==> read_within(*t, #[trigger] self.icons@[k], e, q))
            && read_in_order(*t, self.icons@, e)
            && exists|ws: Seq<(int, int, int)>|
                #[trigger] children_cover(*t, ws, e + 1, content_end(e, q), 1)
                && count_of(ws, 0) == self.icons@.len()
                && count_of(ws, -1) == 0
    }

    open spec fn read_ok(t: &Tokens, pos: int) -> bool {
        false
    }

    open spec fn read_refused(t: &Tokens, pos: int) -> bool {
        t.start_malformed(pos, "Icons"@) || match t.till_start(pos, "Icons"@) {
            Some(a) => exists|i: int| a <= i < t.attrs_end(a) && !Self::knows(#[trigger] t.key(i)),
            None => false,
        }
    }

    open spec fn xml_spec(&self) -> Seq<char> {
        start_tag("Icons"@)
            + (if self.icons@.len() == 0 {
            seq!['/', '>']
        } else {
            seq!['>'] + seq_xml(self.icons@) + end_tag("Icons"@)
        })
    }

    fn read(t: &Tokens, pos: usize) -> (r: Result<(Self, usize), DecodeError>) {
        let n = t.items.len();
        let start = read_till_element_start(t, pos, "Icons")?;
        let mut p = start;
        let mut icons: Vec<Icon> = Vec::new();
        loop
            invariant
                n == t.len(),
                start <= p <= n,
                start == n || (pos < start && t.starts(start - 1, "Icons"@)),
                forall|i: int| start <= i < p ==> #[trigger] t.kind(i) == TokenKind::Attribute && Self::knows(t.key(i)),
                t.till_start(pos as int, "Icons"@) == Some(start as int),
                t.attrs_end(start as int) == t.attrs_end(p as int),
                forall|i: int| start <= i < p ==> #[trigger] t.attr_readable(i),
            ensures
                start <= p < n,
                pos < start && t.starts(start - 1, "Icons"@),
                forall|i: int| start <= i < p ==> #[trigger] t.kind(i) == TokenKind::Attribute && Self::knows(t.key(i)),
                t.kind(p as int) == TokenKind::ElementEnd && !is_close_end(t.span(p as int)),
                t.till_start(pos as int, "Icons"@) == Some(start as int),
                t.attrs_end(start as int) == p,
                forall|i: int| start <= i < p ==> #[trigger] t.attr_readable(i),
            decreases n - p,
        {
            proof {
                lemma_attrs_end_bounds(t, p as int);
            }
            let (found, q) = find_attribute(t, p)?;
            match found {
                None => {
                    break;
                },
                Some((key, value)) => {
                    p = q;
                    return Err(unknown_field("Icons", key));
                },
            }
        }
        let ghost e = p as int;
        let ghost mut ends_icons: Seq<int> = Seq::empty();
        proof {
            lemma_ends_empty(*t, icons@, e);
        }
        let empty = is_empty_end_of(&t.items[p]);
        p = p + 1;
        let ghost mut ws: Seq<(int, int, int)> = Seq::empty();
        proof {
            lemma_cover_empty(*t, e + 1, 1);
        }
        if !empty {
            loop
                invariant_except_break
                    children_cover(*t, ws, e + 1, p as int, 1),
                    prev_end(ws, e + 1, ws.len() as int) == p,
                invariant
                    n == t.len(),
                    pos < p <= n,
                    e < p,
                    (forall|k: int| 0 <= k < icons@.len() ==> read_within(*t, #[trigger] icons@[k], e, p as int)),
                    ends_fit(*t, icons@, e, ends_icons),
                    part_start(ends_icons, e, icons@.len() as int) <= p,
                    count_of(ws, 0) == icons@.len(),
                    count_of(ws, -1) == 0,
                ensures
                    pos < p <= n,
                    e < p,
                    children_cover(*t, ws, e + 1, content_end(e, p as int), 1),
                    (forall|k: int| 0 <= k < icons@.len() ==> read_within(*t, #[trigger] icons@[k], e, p as int)),
                    ends_fit(*t, icons@, e, ends_icons),
                    part_start(ends_icons, e, icons@.len() as int) <= p,
                    count_of(ws, 0) == icons@.len(),
                    count_of(ws, -1) == 0,

                decreases n - p,
            {
                let (found, q) = find_element_start(t, p, "Icons")?;
                match found {
                    None => {
                        proof {
                            lemma_cover_extend(*t, ws, e + 1, p as int, q as int - 1, 1);
                        }
                        p = q;
                        break;
                    },
                    Some(tag) => {
                        if str_eq(tag.as_str(), "Icon") {
                            let (v, q2) = Icon::read(t, q)?;
                            proof {
                                assert(read_within(*t, v, q as int, q2 as int));
                                lemma_read_within_widen(*t, v, q as int, q2 as int, part_start(ends_icons, e, icons@.len() as int), q2 as int);
                                lemma_ends_push(*t, icons@, v, e, ends_icons, q2 as int);
                                ends_icons = ends_icons.push(q2 as int);
                            }
                            icons.push(v);
                            proof {
                                lemma_cover_push(*t, ws, e + 1, p as int, (q as int, q2 as int, 0), 1);
                                ws = ws.push((q as int, q2 as int, 0));
                            }
                            p = q2;
                        } else {
                            return Err(unknown_field("Icons", tag));
                        }
                    },
                }
            }
        }
        assert(children_cover(*t, ws, e + 1, content_end(e, p as int), 1));
        if icons.len() == 0 {
            return Err(missing_field("Icons", "icons"));
        }
        assert(t.start_tag(start - 1, e, "Icons"@));
        assert(t.till_start(pos as int, "Icons"@) == Some(start as int));
        assert forall|i: int| start - 1 < i < e implies Self::knows(#[trigger] t.key(i)) by {
            assert(t.kind(i) == TokenKind::Attribute);
        }
        assert forall|i: int| start <= i < e implies #[trigger] t.attr_readable(i) && Self::knows(t.key(i)) by {
            assert(t.kind(i) == TokenKind::Attribute);
        }
        let v = Icons { icons };
        assert(v.content_read(t, e, p as int));
        Ok((v, p))
    }

    fn write(&self, out: &mut String) {
        write_start(out, "Icons");
        let ghost mut head = start_tag("Icons"@);
        if self.icons.len() == 0 {
            write_empty_end(out);
        } else {
            let ghost mid = out@;
            let ghost mut body = seq!['>'];
            write_open_end(out);
            write_all(out, &self.icons);
            proof {
                let piece = seq_xml(self.icons@);
                lemma_append(mid, body, piece);
                body = body + piece;
            }
            write_end(out, "Icons");
            proof {
                lemma_append(mid, body, end_tag("Icons"@));
                lemma_append(old(out)@, head, body + end_tag("Icons"@));
            }
        }
    }
}

/// An icon shown over a linear creative.
#[derive(Debug, Clone, PartialEq, Default)]
pub struct Icon {
    /// The program the icon stands for.
    pub program: Option<String>,
    /// Width in pixels.
    pub width: Option<i32>,
    /// Height in pixels.
    pub height: Option<i32>,
    /// Horizontal position.
    pub x_position: Option<XPosition>,
    /// Vertical position.
    pub y_position: Option<YPosition>,
    /// How long the icon is shown.
    pub duration: Option<Duration>,
    /// When the icon appears.
    pub offset: Option<Duration>,
    /// The API of the icon.
    pub api_framework: Option<String>,
    /// The pixel ratio, as the decimal text it is written in.
    pub pxratio: Option<String>,
    /// HTML resources.
    pub html_resources: Vec<String>,
    /// Iframe resources.
    pub iframe_resources: Vec<String>,
    /// Static resources.
    pub static_resources: Vec<StaticResource>,
    /// Click handling.
    pub icon_clicks: Option<IconClicks>,
    /// URIs to request when the icon is shown.
    pub icon_view_trackings: Vec<String>,
}

impl XmlElement for Icon {
    open spec fn tag() -> Seq<char> {
        "Icon"@
    }

    open spec fn knows(key: Seq<char>) -> bool {
        key == "program"@ || key == "width"@ || key == "height"@ || key == "xPosition"@ || key == "yPosition"@ || key == "duration"@ || key == "offset"@ || key == "apiFramework"@ || key == "pxratio"@
    }

    open spec fn attrs_read(&self, t: &Tokens, s: int, e: int) -> bool {
        (opt_view(self.program) == t.attr_text(s, e, "program"@))
            && (self.width == match t.attr_text(s, e, "width"@) {
            Some(v) => parse_i32_spec(v),
            None => None,
        })
            && (self.height == match t.attr_text(s, e, "height"@) {
            Some(v) => parse_i32_spec(v),
            None => None,
        })
            && (self.x_position == match t.attr_text(s, e, "xPosition"@) {
            Some(v) => XPosition::parse_spec(v),
            None => None,
        })
            && (self.y_position == match t.attr_text(s, e, "yPosition"@) {
            Some(v) => YPosition::parse_spec(v),
            None => None,
        })
            && (self.duration == match t.attr_text(s, e, "duration"@) {
            Some(v) => parse_duration(v),
            None => None,
        })
            && (self.offset == match t.attr_text(s, e, "offset"@) {
            Some(v) => parse_duration(v),
            None => None,
        })
            && (opt_view(self.api_framework) == t.attr_text(s, e, "apiFramework"@))
            && (opt_view(self.pxratio) == t.attr_text(s, e, "pxratio"@))
    }

    open spec fn content_read(&self, t: &Tokens, e: int, q: int) -> bool {
        (forall|k: int| 0 <= k < self.static_resources@.len() ==> read_within(*t, #[trigger] self.static_resources@[k], e, q))
            && read_in_order(*t, self.static_resources@, e)
            && (self.icon_clicks matches Some(c) ==> read_within(*t, c, e, q))
            && (forall|k: int| 0 <= k < self.html_resources@.len() ==> text_within(*t, "HTMLResource"@, #[trigger] self.html_resources@[k]@, e, q))
            && texts_in_order(*t, "HTMLResource"@, self.html_resources@, e)
            && (forall|k: int| 0 <= k < self.iframe_resources@.len() ==> text_within(*t, "IFrameResource"@, #[trigger] self.iframe_resources@[k]@, e, q))
            && texts_in_order(*t, "IFrameResource"@, self.iframe_resources@, e)
            && (forall|k: int| 0 <= k < self.icon_view_trackings@.len() ==> text_within(*t, "IconViewTracking"@, #[trigger] self.icon_view_trackings@[k]@, e, q))
            && texts_in_order(*t, "IconViewTracking"@, self.icon_view_trackings@, e)
            && exists|ws: Seq<(int, int, int)>|
                #[trigger] children_cover(*t, ws, e + 1, content_end(e, q), 5)
                && count_of(ws, 0) == self.static_resources@.len()
                && count_of(ws, 1) == (if self.icon_clicks is Some { 1nat } else { 0nat })
                && count_of(ws, 2) == self.html_resources@.len()
                && count_of(ws, 3) == self.iframe_resources@.len()
                && count_of(ws, 4) == self.icon_view_trackings@.len()
                && count_of(ws, -1) == 0
    }

    open spec fn read_ok(t: &Tokens, pos: int) -> bool {
        false
    }

    open spec fn read_refused(t: &Tokens, pos: int) -> bool {
        t.start_malformed(pos, "Icon"@) || match t.till_start(pos, "Icon"@) {
            Some(a) => exists|i: int| a <= i < t.attrs_end(a) && !Self::knows(#[trigger] t.key(i)),
            None => false,
        }
    }

    open spec fn xml_spec(&self) -> Seq<char> {
        start_tag("Icon"@)
            + opt_attribute("program"@, opt_view(self.program))
            + opt_attribute("width"@, opt_i32_text(self.width))
            + opt_attribute("height"@, opt_i32_text(self.height))
            + opt_attribute(
            "xPosition"@,
            match self.x_position {
                Some(v) => Some(v.text()),
                None => None,
            },
        )
            + opt_attribute(
            "yPosition"@,
            match self.y_position {
                Some(v) => Some(v.text()),
                None => None,
            },
        )
            + opt_attribute(
            "duration"@,
            match self.duration {
                Some(v) => Some(v.format_spec()),
                None => None,
            },
        )
            + opt_attribute(
            "offset"@,
            match self.offset {
                Some(v) => Some(v.format_spec()),
                None => None,
            },
        )
            + opt_attribute("apiFramework"@, opt_view(self.api_framework))
            + opt_attribute("pxratio"@, opt_view(self.pxratio))
            + (if self.static_resources@.len() == 0 && self.icon_clicks is None && self.html_resources@.len() == 0 && self.iframe_resources@.len() == 0 && self.icon_view_trackings@.len() == 0 {
            seq!['/', '>']
        } else {
            seq!['>'] + seq_xml(self.static_resources@) + opt_xml(self.icon_clicks) + seq_text("HTMLResource"@, self.html_resources@, true) + seq_text("IFrameResource"@, self.iframe_resources@, true) + seq_text("IconViewTracking"@, self.icon_view_trackings@, true) + end_tag("Icon"@)
        })
    }

    #[verifier::rlimit(100)]
    #[verifier::spinoff_prover]
    fn read(t: &Tokens, pos: usize) -> (r: Result<(Self, usize), DecodeError>) {
        let n = t.items.len();
        let start = read_till_element_start(t, pos, "Icon")?;
        let mut p = start;
        let mut program: Option<String> = None;
        let mut width: Option<i32> = None;
        let mut height: Option<i32> = None;
        let mut x_position: Option<XPosition> = None;
        let mut y_position: Option<YPosition> = None;
        let mut duration: Option<Duration> = None;
        let mut offset: Option<Duration> = None;
        let mut api_framework: Option<String> = None;
        let mut pxratio: Option<String> = None;
        let mut static_resources: Vec<StaticResource> = Vec::new();
        let mut icon_clicks: Option<IconClicks> = None;
        let mut html_resources: Vec<String> = Vec::new();
        let mut iframe_resources: Vec<String> = Vec::new();
        let mut icon_view_trackings: Vec<String> = Vec::new();
        loop
            invariant
                n == t.len(),
                start <= p <= n,
                start == n || (pos < start && t.starts(start - 1, "Icon"@)),
                forall|i: int| start <= i < p ==> #[trigger] t.kind(i) == TokenKind::Attribute && Self::knows(t.key(i)),
                t.till_start(pos as int, "Icon"@) == Some(start as int),
                t.attrs_end(start as int) == t.attrs_end(p as int),
                forall|i: int| start <= i < p ==> #[trigger] t.attr_readable(i),
                opt_view(program) == t.attr_text(start - 1, p as int, "program"@),
                width == match t.attr_text(start - 1, p as int, "width"@) {
                    Some(v) => parse_i32_spec(v),
                    None => None,
                },
                height == match t.attr_text(start - 1, p as int, "height"@) {
                    Some(v) => parse_i32_spec(v),
                    None => None,
                },
                x_position == match t.attr_text(start - 1, p as int, "xPosition"@) {
                    Some(v) => XPosition::parse_spec(v),
                    None => None,
                },
                y_position == match t.attr_text(start - 1, p as int, "yPosition"@) {
                    Some(v) => YPosition::parse_spec(v),
                    None => None,
                },
                duration == match t.attr_text(start - 1, p as int, "duration"@) {
                    Some(v) => parse_duration(v),
                    None => None,
                },
                offset == match t.attr_text(start - 1, p as int, "offset"@) {
                    Some(v) => parse_duration(v),
                    None => None,
                },
                opt_view(api_framework) == t.attr_text(start - 1, p as int, "apiFramework"@),
                opt_view(pxratio) == t.attr_text(start - 1, p as int, "pxratio"@),
            ensures
                start <= p < n,
                pos < start && t.starts(start - 1, "Icon"@),
                forall|i: int| start <= i < p ==> #[trigger] t.kind(i) == TokenKind::Attribute && Self::knows(t.key(i)),
                t.kind(p as int) == TokenKind::ElementEnd && !is_close_end(t.span(p as int)),
                t.till_start(pos as int, "Icon"@) == Some(start as int),
                t.attrs_end(start as int) == p,
                forall|i: int| start <= i < p ==> #[trigger] t.attr_readable(i),
                opt_view(program) == t.attr_text(start - 1, p as int, "program"@),
                width == match t.attr_text(start - 1, p as int, "width"@) {
                    Some(v) => parse_i32_spec(v),
                    None => None,
                },
                height == match t.attr_text(start - 1, p as int, "height"@) {
                    Some(v) => parse_i32_spec(v),
                    None => None,
                },
                x_position == match t.attr_text(start - 1, p as int, "xPosition"@) {
                    Some(v) => XPosition::parse_spec(v),
                    None => None,
                },
                y_position == match t.attr_text(start - 1, p as int, "yPosition"@) {
                    Some(v) => YPosition::parse_spec(v),
                    None => None,
                },
                duration == match t.attr_text(start - 1, p as int, "duration"@) {
                    Some(v) => parse_duration(v),
                    None => None,
                },
                offset == match t.attr_text(start - 1, p as int, "offset"@) {
                    Some(v) => parse_duration(v),
                    None => None,
                },
                opt_view(api_framework) == t.attr_text(start - 1, p as int, "apiFramework"@),
                opt_view(pxratio) == t.attr_text(start - 1, p as int, "pxratio"@),
            decreases n - p,
        {
            proof {
                lemma_attrs_end_bounds(t, p as int);
            }
            let (found, q) = find_attribute(t, p)?;
            match found {
                None => {
                    break;
                },
                Some((key, value)) => {
                    p = q;
                    proof {
                        reveal_strlit("program");
                        reveal_strlit("width");
                        reveal_strlit("height");
                        reveal_strlit("xPosition");
                        reveal_strlit("yPosition");
                        reveal_strlit("duration");
                        reveal_strlit("offset");
                        reveal_strlit("apiFramework");
                        reveal_strlit("pxratio");
                        assert("program"@.len() == 7 && "program"@[1] == 'r');
                        assert("width"@.len() == 5);
                        assert("height"@.len() == 6 && "height"@[0] == 'h');
                        assert("xPosition"@.len() == 9 && "xPosition"@[0] == 'x');
                        assert("yPosition"@.len() == 9 && "yPosition"@[0] == 'y');
                        assert("duration"@.len() == 8);
                        assert("offset"@.len() == 6 && "offset"@[0] == 'o');
                        assert("apiFramework"@.len() == 12);
                        assert("pxratio"@.len() == 7 && "pxratio"@[1] == 'x');
                    }
                    if str_eq(key.as_str(), "program") {
                        if program.is_some() {
                            return Err(duplicate_attribute("program"));
                        }
                        program = Some(value);
                    } else if str_eq(key.as_str(), "width") {
                        if width.is_some() {
                            return Err(duplicate_attribute("width"));
                        }
                        width = Some(parse_int(value.as_str())?);
                    } else if str_eq(key.as_str(), "height") {
                        if height.is_some() {
                            return Err(duplicate_attribute("height"));
                        }
                        height = Some(parse_int(value.as_str())?);
                    } else if str_eq(key.as_str(), "xPosition") {
                        if x_position.is_some() {
                            return Err(duplicate_attribute("xPosition"));
                        }
                        x_position = Some(match XPosition::from_str(value.as_str()) {
                            Ok(v) => v,
                            Err(e) => return Err(scalar_error(e)),
                        });
                    } else if str_eq(key.as_str(), "yPosition") {
                        if y_position.is_some() {
                            return Err(duplicate_attribute("yPosition"));
                        }
                        y_position = Some(match YPosition::from_str(value.as_str()) {
                            Ok(v) => v,
                            Err(e) => return Err(scalar_error(e)),
                        });
                    } else if str_eq(key.as_str(), "duration") {
                        if duration.is_some() {
                            return Err(duplicate_attribute("duration"));
                        }
                        duration = Some(match Duration::from_str(value.as_str()) {
                            Ok(v) => v,
                            Err(e) => return Err(scalar_error(e)),
                        });
                    } else if str_eq(key.as_str(), "offset") {
                        if offset.is_some() {
                            return Err(duplicate_attribute("offset"));
                        }
                        offset = Some(match Duration::from_str(value.as_str()) {
                            Ok(v) => v,
                            Err(e) => return Err(scalar_error(e)),
                        });
                    } else if str_eq(key.as_str(), "apiFramework") {
                        if api_framework.is_some() {
                            return Err(duplicate_attribute("apiFramework"));
                        }
                        api_framework = Some(value);
                    } else if str_eq(key.as_str(), "pxratio") {
                        if pxratio.is_some() {
                            return Err(duplicate_attribute("pxratio"));
                        }
                        pxratio = Some(value);
                    } else {
                        return Err(unknown_field("Icon", key));
                    }
                },
            }
        }
        let ghost e = p as int;
        let ghost mut ends_static_resources: Seq<int> = Seq::empty();
        proof {
            lemma_ends_empty(*t, static_resources@, e);
        }
        let ghost mut ends_html_resources: Seq<int> = Seq::empty();
        proof {
            lemma_text_ends_empty(*t, "HTMLResource"@, html_resources@, e);
        }
        let ghost mut ends_iframe_resources: Seq<int> = Seq::empty();
        proof {
            lemma_text_ends_empty(*t, "IFrameResource"@, iframe_resources@, e);
        }
        let ghost mut ends_icon_view_trackings: Seq<int> = Seq::empty();
        proof {
            lemma_text_ends_empty(*t, "IconViewTracking"@, icon_view_trackings@, e);
        }
        let empty = is_empty_end_of(&t.items[p]);
        p = p + 1;
        let ghost mut ws: Seq<(int, int, int)> = Seq::empty();
        proof {
            lemma_cover_empty(*t, e + 1, 5);
        }
        if !empty {
            loop
                invariant_except_break
                    children_cover(*t, ws, e + 1, p as int, 5),
                    prev_end(ws, e + 1, ws.len() as int) == p,
                invariant
                    n == t.len(),
                    pos < p <= n,
                    e < p,
                    (forall|k: int| 0 <= k < static_resources@.len() ==> read_within(*t, #[trigger] static_resources@[k], e, p as int)),
                    (icon_clicks matches Some(c) ==> read_within(*t, c, e, p as int)),
                    (forall|k: int| 0 <= k < html_resources@.len() ==> text_within(*t, "HTMLResource"@, #[trigger] html_resources@[k]@, e, p as int)),
                    (forall|k: int| 0 <= k < iframe_resources@.len() ==> text_within(*t, "IFrameResource"@, #[trigger] iframe_resources@[k]@, e, p as int)),
                    (forall|k: int| 0 <= k < icon_view_trackings@.len() ==> text_within(*t, "IconViewTracking"@, #[trigger] icon_view_trackings@[k]@, e, p as int)),
                    ends_fit(*t, static_resources@, e, ends_static_resources),
                    part_start(ends_static_resources, e, static_resources@.len() as int) <= p,
                    text_ends_fit(*t, "HTMLResource"@, html_resources@, e, ends_html_resources),
                    part_start(ends_html_resources, e, html_resources@.len() as int) <= p,
                    text_ends_fit(*t, "IFrameResource"@, iframe_resources@, e, ends_iframe_resources),
                    part_start(ends_iframe_resources, e, iframe_resources@.len() as int) <= p,
                    text_ends_fit(*t, "IconViewTracking"@, icon_view_trackings@, e, ends_icon_view_trackings),
                    part_start(ends_icon_view_trackings, e, icon_view_trackings@.len() as int) <= p,
                    count_of(ws, 0) == static_resources@.len(),
                    count_of(ws, 1) == (if icon_clicks is Some { 1nat } else { 0nat }),
                    count_of(ws, 2) == html_resources@.len(),
                    count_of(ws, 3) == iframe_resources@.len(),
                    count_of(ws, 4) == icon_view_trackings@.len(),
                    count_of(ws, -1) == 0,
                ensures
                    pos < p <= n,
                    e < p,
                    children_cover(*t, ws, e + 1, content_end(e, p as int), 5),
                    (forall|k: int| 0 <= k < static_resources@.len() ==> read_within(*t, #[trigger] static_resources@[k], e, p as int)),
                    (icon_clicks matches Some(c) ==> read_within(*t, c, e, p as int)),
                    (forall|k: int| 0 <= k < html_resources@.len() ==> text_within(*t, "HTMLResource"@, #[trigger] html_resources@[k]@, e, p as int)),
                    (forall|k: int| 0 <= k < iframe_resources@.len() ==> text_within(*t, "IFrameResource"@, #[trigger] iframe_resources@[k]@, e, p as int)),
                    (forall|k: int| 0 <= k < icon_view_trackings@.len() ==> text_within(*t, "IconViewTracking"@, #[trigger] icon_view_trackings@[k]@, e, p as int)),
                    ends_fit(*t, static_resources@, e, ends_static_resources),
                    part_start(ends_static_resources, e, static_resources@.len() as int) <= p,
                    text_ends_fit(*t, "HTMLResource"@, html_resources@, e, ends_html_resources),
                    part_start(ends_html_resources, e, html_resources@.len() as int) <= p,
                    text_ends_fit(*t, "IFrameResource"@, iframe_resources@, e, ends_iframe_resources),
                    part_start(ends_iframe_resources, e, iframe_resources@.len() as int) <= p,
                    text_ends_fit(*t, "IconViewTracking"@, icon_view_trackings@, e, ends_icon_view_trackings),
                    part_start(ends_icon_view_trackings, e, icon_view_trackings@.len() as int) <= p,
                    count_of(ws, 0) == static_resources@.len(),
                    count_of(ws, 1) == (if icon_clicks is Some { 1nat } else { 0nat }),
                    count_of(ws, 2) == html_resources@.len(),
                    count_of(ws, 3) == iframe_resources@.len(),
                    count_of(ws, 4) == icon_view_trackings@.len(),
                    count_of(ws, -1) == 0,

                decreases n - p,
            {
                let (found, q) = find_element_start(t, p, "Icon")?;
                match found {
                    None => {
                        proof {
                            lemma_cover_extend(*t, ws, e + 1, p as int, q as int - 1, 5);
                        }
                        p = q;
                        break;
                    },
                    Some(tag) => {
                        if str_eq(tag.as_str(), "StaticResource") {
                            let (v, q2) = StaticResource::read(t, q)?;
                            proof {
                                assert(read_within(*t, v, q as int, q2 as int));
                                lemma_read_within_widen(*t, v, q as int, q2 as int, part_start(ends_static_resources, e, static_resources@.len() as int), q2 as int);
                                lemma_ends_push(*t, static_resources@, v, e, ends_static_resources, q2 as int);
                                ends_static_resources = ends_static_resources.push(q2 as int);
                            }
                            static_resources.push(v);
                            proof {
                                lemma_cover_push(*t, ws, e + 1, p as int, (q as int, q2 as int, 0), 5);
                                ws = ws.push((q as int, q2 as int, 0));
                            }
                            p = q2;
                        } else if str_eq(tag.as_str(), "IconClicks") {
                            if icon_clicks.is_some() {
                                return Err(duplicate_element("IconClicks"));
                            }
                            let (v, q2) = IconClicks::read(t, q)?;
                            icon_clicks = Some(v);
                            proof {
                                lemma_cover_push(*t, ws, e + 1, p as int, (q as int, q2 as int, 1), 5);
                                ws = ws.push((q as int, q2 as int, 1));
                            }
                            p = q2;
                        } else if str_eq(tag.as_str(), "HTMLResource") {
                            let (s, q2) = read_text_child(t, q, "HTMLResource")?;
                            let v = s;
                            proof {
                                assert(text_within(*t, "HTMLResource"@, v@, q as int, q2 as int));
                                assert(text_within(*t, "HTMLResource"@, v@, part_start(ends_html_resources, e, html_resources@.len() as int), q2 as int));
                                lemma_text_ends_push(*t, "HTMLResource"@, html_resources@, v, e, ends_html_resources, q2 as int);
                                ends_html_resources = ends_html_resources.push(q2 as int);
                            }
                            html_resources.push(v);
                            proof {
                                lemma_cover_push(*t, ws, e + 1, p as int, (q as int, q2 as int, 2), 5);
                                ws = ws.push((q as int, q2 as int, 2));
                            }
                            p = q2;
                        } else if str_eq(tag.as_str(), "IFrameResource") {
                            let (s, q2) = read_text_child(t, q, "IFrameResource")?;
                            let v = s;
                            proof {
                                assert(text_within(*t, "IFrameResource"@, v@, q as int, q2 as int));
                                assert(text_within(*t, "IFrameResource"@, v@, part_start(ends_iframe_resources, e, iframe_resources@.len() as int), q2 as int));
                                lemma_text_ends_push(*t, "IFrameResource"@, iframe_resources@, v, e, ends_iframe_resources, q2 as int);
                                ends_iframe_resources = ends_iframe_resources.push(q2 as int);
                            }
                            iframe_resources.push(v);
                            proof {
                                lemma_cover_push(*t, ws, e + 1, p as int, (q as int, q2 as int, 3), 5);
                                ws = ws.push((q as int, q2 as int, 3));
                            }
                            p = q2;
                        } else if str_eq(tag.as_str(), "IconViewTracking") {
                            let (s, q2) = read_text_child(t, q, "IconViewTracking")?;
                            let v = s;
                            proof {
                                assert(text_within(*t, "IconViewTracking"@, v@, q as int, q2 as int));
                                assert(text_within(*t, "IconViewTracking"@, v@, part_start(ends_icon_view_trackings, e, icon_view_trackings@.len() as int), q2 as int));
                                lemma_text_ends_push(*t, "IconViewTracking"@, icon_view_trackings@, v, e, ends_icon_view_trackings, q2 as int);
                                ends_icon_view_trackings = ends_icon_view_trackings.push(q2 as int);
                            }
                            icon_view_trackings.push(v);
                            proof {
                                lemma_cover_push(*t, ws, e + 1, p as int, (q as int, q2 as int, 4), 5);
                                ws = ws.push((q as int, q2 as int, 4));
                            }
                            p = q2;
                        } else {
                            return Err(unknown_field("Icon", tag));
                        }
                    },
                }
            }
        }
        assert(children_cover(*t, ws, e + 1, content_end(e, p as int), 5));
        assert(t.start_tag(start - 1, e, "Icon"@));
        assert(t.till_start(pos as int, "Icon"@) == Some(start as int));
        assert forall|i: int| start - 1 < i < e implies Self::knows(#[trigger] t.key(i)) by {
            assert(t.kind(i) == TokenKind::Attribute);
        }
        assert forall|i: int| start <= i < e implies #[trigger] t.attr_readable(i) && Self::knows(t.key(i)) by {
            assert(t.kind(i) == TokenKind::Attribute);
        }
        let v = Icon { program, width, height, x_position, y_position, duration, offset, api_framework, pxratio, html_resources, iframe_resources, static_resources, icon_clicks, icon_view_trackings };
        assert(v.attrs_read(t, start - 1, e));
        assert(v.content_read(t, e, p as int));
        Ok((v, p))
    }

    #[verifier::rlimit(40)]
    fn write(&self, out: &mut String) {
        write_start(out, "Icon");
        let ghost mut head = start_tag("Icon"@);
        write_opt_attribute(out, "program", &self.program);
        proof {
            let piece = opt_attribute("program"@, opt_view(self.program));
            lemma_append(old(out)@, head, piece);
            head = head + piece;
        }
        write_opt_int_attribute(out, "width", self.width);
        proof {
            let piece = opt_attribute("width"@, opt_i32_text(self.width));
            lemma_append(old(out)@, head, piece);
            head = head + piece;
        }
        write_opt_int_attribute(out, "height", self.height);
        proof {
            let piece = opt_attribute("height"@, opt_i32_text(self.height));
            lemma_append(old(out)@, head, piece);
            head = head + piece;
        }
        match &self.x_position {
            Some(v) => write_attribute(out, "xPosition", v.to_string().as_str()),
            None => {},
        }
        proof {
            let piece = opt_attribute(
            "xPosition"@,
            match self.x_position {
                Some(v) => Some(v.text()),
                None => None,
            },
        );
            lemma_append(old(out)@, head, piece);
            head = head + piece;
        }
        match &self.y_position {
            Some(v) => write_attribute(out, "yPosition", v.to_string().as_str()),
            None => {},
        }
        proof {
            let piece = opt_attribute(
            "yPosition"@,
            match self.y_position {
                Some(v) => Some(v.text()),
                None => None,
            },
        );
            lemma_append(old(out)@, head, piece);
            head = head + piece;
        }
        match &self.duration {
            Some(v) => write_attribute(out, "duration", v.to_string().as_str()),
            None => {},
        }
        proof {
            let piece = opt_attribute(
            "duration"@,
            match self.duration {
                Some(v) => Some(v.format_spec()),
                None => None,
            },
        );
            lemma_append(old(out)@, head, piece);
            head = head + piece;
        }
        match &self.offset {
            Some(v) => write_attribute(out, "offset", v.to_string().as_str()),
            None => {},
        }
        proof {
            let piece = opt_attribute(
            "offset"@,
            match self.offset {
                Some(v) => Some(v.format_spec()),
                None => None,
            },
        );
            lemma_append(old(out)@, head, piece);
            head = head + piece;
        }
        write_opt_attribute(out, "apiFramework", &self.api_framework);
        proof {
            let piece = opt_attribute("apiFramework"@, opt_view(self.api_framework));
            lemma_append(old(out)@, head, piece);
            head = head + piece;
        }
        write_opt_attribute(out, "pxratio", &self.pxratio);
        proof {
            let piece = opt_attribute("pxratio"@, opt_view(self.pxratio));
            lemma_append(old(out)@, head, piece);
            head = head + piece;
        }
        if self.static_resources.len() == 0 && self.icon_clicks.is_none() && self.html_resources.len() == 0 && self.iframe_resources.len() == 0 && self.icon_view_trackings.len() == 0 {
            write_empty_end(out);
        } else {
            let ghost mid = out@;
            let ghost mut body = seq!['>'];
            write_open_end(out);
            write_all(out, &self.static_resources);
            proof {
                let piece = seq_xml(self.static_resources@);
                lemma_append(mid, body, piece);
                body = body + piece;
            }
            write_opt(out, &self.icon_clicks);
            proof {
                let piece = opt_xml(self.icon_clicks);
                lemma_append(mid, body, piece);
                body = body + piece;
            }
            write_text_elements(out, "HTMLResource", &self.html_resources, true);
            proof {
                let piece = seq_text("HTMLResource"@, self.html_resources@, true);
                lemma_append(mid, body, piece);
                body = body + piece;
            }
            write_text_elements(out, "IFrameResource", &self.iframe_resources, true);
            proof {
                let piece = seq_text("IFrameResource"@, self.iframe_resources@, true);
                lemma_append(mid, body, piece);
                body = body + piece;
            }
            write_text_elements(out, "IconViewTracking", &self.icon_view_trackings, true);
            proof {
                let piece = seq_text("IconViewTracking"@, self.icon_view_trackings@, true);
                lemma_append(mid, body, piece);
                body = body + piece;
            }
            write_end(out, "Icon");
            proof {
                lemma_append(mid, body, end_tag("Icon"@));
                lemma_append(old(out)@, head, body + end_tag("Icon"@));
            }
        }
    }
}

/// What happens when the viewer clicks an icon.
#[derive(Debug, Clone, PartialEq, Default)]
pub struct IconClicks {
    /// Images to show where the page cannot open.
    pub icon_click_fallback_images: Option<IconClickFallbackImages>,
    /// The page to open.
    pub icon_click_through: Option<String>,
    /// URIs to request on a click.
    pub icon_click_trackings: Vec<IconClickTracking>,
}

impl XmlElement for IconClicks {
    open spec fn tag() -> Seq<char> {
        "IconClicks"@
    }

    open spec fn knows(key: Seq<char>) -> bool {
        false
    }

    open spec fn attrs_read(&self, t: &Tokens, s: int, e: int) -> bool {
        true
    }

    open spec fn content_read(&self, t: &Tokens, e: int, q: int) -> bool {
        (self.icon_click_fallback_images matches Some(c) ==> read_within(*t, c, e, q))
            && (forall|k: int| 0 <= k < self.icon_click_trackings@.len() ==> read_within(*t, #[trigger] self.icon_click_trackings@[k], e, q))
            && read_in_order(*t, self.icon_click_trackings@, e)
            && (self.icon_click_through matches Some(x) ==> text_within(*t, "IconClickThrough"@, x@, e, q))
            && exists|ws: Seq<(int, int, int)>|
                #[trigger] children_cover(*t, ws, e + 1, content_end(e, q), 3)
                && count_of(ws, 0) == (if self.icon_click_fallback_images is Some { 1nat } else { 0nat })
                && count_of(ws, 1) == self.icon_click_trackings@.len()
                && count_of(ws, 2) == (if self.icon_click_through is Some { 1nat } else { 0nat })
                && count_of(ws, -1) == 0
    }

    open spec fn read_ok(t: &Tokens, pos: int) -> bool {
        false
    }

    open spec fn read_refused(t: &Tokens, pos: int) -> bool {
        t.start_malformed(pos, "IconClicks"@) || match t.till_start(pos, "IconClicks"@) {
            Some(a) => exists|i: int| a <= i < t.attrs_end(a) && !Self::knows(#[trigger] t.key(i)),
            None => false,
        }
    }

    open spec fn xml_spec(&self) -> Seq<char> {
        start_tag("IconClicks"@)
            + (if self.icon_click_fallback_images is None && self.icon_click_trackings@.len() == 0 && self.icon_click_through is None {
            seq!['/', '>']
        } else {
            seq!['>'] + opt_xml(self.icon_click_fallback_images) + seq_xml(self.icon_click_trackings@) + opt_text("IconClickThrough"@, self.icon_click_through, true) + end_tag("IconClicks"@)
        })
    }

    fn read(t: &Tokens, pos: usize) -> (r: Result<(Self, usize), DecodeError>) {
        let n = t.items.len();
        let start = read_till_element_start(t, pos, "IconClicks")?;
        let mut p = start;
        let mut icon_click_fallback_images: Option<IconClickFallbackImages> = None;
        let mut icon_click_trackings: Vec<IconClickTracking> = Vec::new();
        let mut icon_click_through: Option<String> = None;
        loop
            invariant
                n == t.len(),
                start <= p <= n,
                start == n || (pos < start && t.starts(start - 1, "IconClicks"@)),
                forall|i: int| start <= i < p ==> #[trigger] t.kind(i) == TokenKind::Attribute && Self::knows(t.key(i)),
                t.till_start(pos as int, "IconClicks"@) == Some(start as int),
                t.attrs_end(start as int) == t.attrs_end(p as int),
                forall|i: int| start <= i < p ==> #[trigger] t.attr_readable(i),
            ensures
                start <= p < n,
                pos < start && t.starts(start - 1, "IconClicks"@),
                forall|i: int| start <= i < p ==> #[trigger] t.kind(i) == TokenKind::Attribute && Self::knows(t.key(i)),
                t.kind(p as int) == TokenKind::ElementEnd && !is_close_end(t.span(p as int)),
                t.till_start(pos as int, "IconClicks"@) == Some(start as int),
                t.attrs_end(start as int) == p,
                forall|i: int| start <= i < p ==> #[trigger] t.attr_readable(i),
            decreases n - p,
        {
            proof {
                lemma_attrs_end_bounds(t, p as int);
            }
            let (found, q) = find_attribute(t, p)?;
            match found {
                None => {
                    break;
                },
                Some((key, value)) => {
                    p = q;
                    return Err(unknown_field("IconClicks", key));
                },
            }
        }
        let ghost e = p as int;
        let ghost mut ends_icon_click_trackings: Seq<int> = Seq::empty();
        proof {
            lemma_ends_empty(*t, icon_click_trackings@, e);
        }
        let empty = is_empty_end_of(&t.items[p]);
        p = p + 1;
        let ghost mut ws: Seq<(int, int, int)> = Seq::empty();
        proof {
            lemma_cover_empty(*t, e + 1, 3);
        }
        if !empty {
            loop
                invariant_except_break
                    children_cover(*t, ws, e + 1, p as int, 3),
                    prev_end(ws, e + 1, ws.len() as int) == p,
                invariant
                    n == t.len(),
                    pos < p <= n,
                    e < p,
                    (icon_click_fallback_images matches Some(c) ==> read_within(*t, c, e, p as int)),
                    (forall|k: int| 0 <= k < icon_click_trackings@.len() ==> read_within(*t, #[trigger] icon_click_trackings@[k], e, p as int)),
                    (icon_click_through matches Some(x) ==> text_within(*t, "IconClickThrough"@, x@, e, p as int)),
                    ends_fit(*t, icon_click_trackings@, e, ends_icon_click_trackings),
                    part_start(ends_icon_click_trackings, e, icon_click_trackings@.len() as int) <= p,
                    count_of(ws, 0) == (if icon_click_fallback_images is Some { 1nat } else { 0nat }),
                    count_of(ws, 1) == icon_click_trackings@.len(),
                    count_of(ws, 2) == (if icon_click_through is Some { 1nat } else { 0nat }),
                    count_of(ws, -1) == 0,
                ensures
                    pos < p <= n,
                    e < p,
                    children_cover(*t, ws, e + 1, content_end(e, p as int), 3),
                    (icon_click_fallback_images matches Some(c) ==> read_within(*t, c, e, p as int)),
                    (forall|k: int| 0 <= k < icon_click_trackings@.len() ==> read_within(*t, #[trigger] icon_click_trackings@[k], e, p as int)),
                    (icon_click_through matches Some(x) ==> text_within(*t, "IconClickThrough"@, x@, e, p as int)),
                    ends_fit(*t, icon_click_trackings@, e, ends_icon_click_trackings),
                    part_start(ends_icon_click_trackings, e, icon_click_trackings@.len() as int) <= p,
                    count_of(ws, 0) == (if icon_click_fallback_images is Some { 1nat } else { 0nat }),
                    count_of(ws, 1) == icon_click_trackings@.len(),
                    count_of(ws, 2) == (if icon_click_through is Some { 1nat } else { 0nat }),
                    count_of(ws, -1) == 0,

                decreases n - p,
            {
                let (found, q) = find_element_start(t, p, "IconClicks")?;
                match found {
                    None => {
                        proof {
                            lemma_cover_extend(*t, ws, e + 1, p as int, q as int - 1, 3);
                        }
                        p = q;
                        break;
                    },
                    Some(tag) => {
                        if str_eq(tag.as_str(), "IconClickFallbackImages") {
                            if icon_click_fallback_images.is_some() {
                                return Err(duplicate_element("IconClickFallbackImages"));
                            }
                            let (v, q2) = IconClickFallbackImages::read(t, q)?;
                            icon_click_fallback_images = Some(v);
                            proof {
                                lemma_cover_push(*t, ws, e + 1, p as int, (q as int, q2 as int, 0), 3);
                                ws = ws.push((q as int, q2 as int, 0));
                            }
                            p = q2;
                        } else if str_eq(tag.as_str(), "IconClickTracking") {
                            let (v, q2) = IconClickTracking::read(t, q)?;
                            proof {
                                assert(read_within(*t, v, q as int, q2 as int));
                                lemma_read_within_widen(*t, v, q as int, q2 as int, part_start(ends_icon_click_trackings, e, icon_click_trackings@.len() as int), q2 as int);
                                lemma_ends_push(*t, icon_click_trackings@, v, e, ends_icon_click_trackings, q2 as int);
                                ends_icon_click_trackings = ends_icon_click_trackings.push(q2 as int);
                            }
                            icon_click_trackings.push(v);
                            proof {
                                lemma_cover_push(*t, ws, e + 1, p as int, (q as int, q2 as int, 1), 3);
                                ws = ws.push((q as int, q2 as int, 1));
                            }
                            p = q2;
                        } else if str_eq(tag.as_str(), "IconClickThrough") {
                            if icon_click_through.is_some() {
                                return Err(duplicate_element("IconClickThrough"));
                            }
                            let (s, q2) = read_text_child(t, q, "IconClickThrough")?;
                            let v = s;
                            icon_click_through = Some(v);
                            proof {
                                lemma_cover_push(*t, ws, e + 1, p as int, (q as int, q2 as int, 2), 3);
                                ws = ws.push((q as int, q2 as int, 2));
                            }
                            p = q2;
                        } else {
                            return Err(unknown_field("IconClicks", tag));
                        }
                    },
                }
            }
        }
        assert(children_cover(*t, ws, e + 1, content_end(e, p as int), 3));
        assert(t.start_tag(start - 1, e, "IconClicks"@));
        assert(t.till_start(pos as int, "IconClicks"@) == Some(start as int));
        assert forall|i: int| start - 1 < i < e implies Self::knows(#[trigger] t.key(i)) by {
            assert(t.kind(i) == TokenKind::Attribute);
        }
        assert forall|i: int| start <= i < e implies #[trigger] t.attr_readable(i) && Self::knows(t.key(i)) by {
            assert(t.kind(i) == TokenKind::Attribute);
        }
        let v = IconClicks { icon_click_fallback_images, icon_click_through, icon_click_trackings };
        assert(v.content_read(t, e, p as int));
        Ok((v, p))
    }

    fn write(&self, out: &mut String) {
        write_start(out, "IconClicks");
        let ghost mut head = start_tag("IconClicks"@);
        if self.icon_click_fallback_images.is_none() && self.icon_click_trackings.len() == 0 && self.icon_click_through.is_none() {
            write_empty_end(out);
        } else {
            let ghost mid = out@;
            let ghost mut body = seq!['>'];
            write_open_end(out);
            write_opt(out, &self.icon_click_fallback_images);
            proof {
                let piece = opt_xml(self.icon_click_fallback_images);
                lemma_append(mid, body, piece);
                body = body + piece;
            }
            write_all(out, &self.icon_click_trackings);
            proof {
                let piece = seq_xml(self.icon_click_trackings@);
                lemma_append(mid, body, piece);
                body = body + piece;
            }
            write_opt_text(out, "IconClickThrough", &self.icon_click_through, true);
            proof {
                let piece = opt_text("IconClickThrough"@, self.icon_click_through, true);
                lemma_append(mid, body, piece);
                body = body + piece;
            }
            write_end(out, "IconClicks");
            proof {
                lemma_append(mid, body, end_tag("IconClicks"@));
                lemma_append(old(out)@, head, body + end_tag("IconClicks"@));
            }
        }
    }
}

/// A URI to request on a click of an icon.
#[derive(Debug, Clone, PartialEq, Default)]
pub struct IconClickTracking {
    /// An identifier.
    pub id: Option<String>,
    /// The URI.
    pub uri: String,
}

impl XmlElement for IconClickTracking {
    open spec fn tag() -> Seq<char> {
        "IconClickTracking"@
    }

    open spec fn knows(key: Seq<char>) -> bool {
        key == "id"@
    }

    open spec fn attrs_read(&self, t: &Tokens, s: int, e: int) -> bool {
        (opt_view(self.id) == t.attr_text(s, e, "id"@))
    }

    open spec fn content_read(&self, t: &Tokens, e: int, q: int) -> bool {
        self.uri@ == t.text_of(e, q)
    }

    open spec fn read_ok(t: &Tokens, pos: int) -> bool {
        false
    }

    open spec fn read_refused(t: &Tokens, pos: int) -> bool {
        t.start_malformed(pos, "IconClickTracking"@) || match t.till_start(pos, "IconClickTracking"@) {
            Some(a) => exists|i: int| a <= i < t.attrs_end(a) && !Self::knows(#[trigger] t.key(i)),
            None => false,
        }
    }

    open spec fn xml_spec(&self) -> Seq<char> {
        start_tag("IconClickTracking"@)
            + opt_attribute("id"@, opt_view(self.id))
            + (seq!['>'] + cdata(self.uri@) + end_tag("IconClickTracking"@))
    }

    fn read(t: &Tokens, pos: usize) -> (r: Result<(Self, usize), DecodeError>) {
        let n = t.items.len();
        let start = read_till_element_start(t, pos, "IconClickTracking")?;
        let mut p = start;
        let mut id: Option<String> = None;
        loop
            invariant
                n == t.len(),
                start <= p <= n,
                start == n || (pos < start && t.starts(start - 1, "IconClickTracking"@)),
                forall|i: int| start <= i < p ==> #[trigger] t.kind(i) == TokenKind::Attribute && Self::knows(t.key(i)),
                t.till_start(pos as int, "IconClickTracking"@) == Some(start as int),
                t.attrs_end(start as int) == t.attrs_end(p as int),
                forall|i: int| start <= i < p ==> #[trigger] t.attr_readable(i),
                opt_view(id) == t.attr_text(start - 1, p as int, "id"@),
            ensures
                start <= p < n,
                pos < start && t.starts(start - 1, "IconClickTracking"@),
                forall|i: int| start <= i < p ==> #[trigger] t.kind(i) == TokenKind::Attribute && Self::knows(t.key(i)),
                t.kind(p as int) == TokenKind::ElementEnd && !is_close_end(t.span(p as int)),
                t.till_start(pos as int, "IconClickTracking"@) == Some(start as int),
                t.attrs_end(start as int) == p,
                forall|i: int| start <= i < p ==> #[trigger] t.attr_readable(i),
                opt_view(id) == t.attr_text(start - 1, p as int, "id"@),
            decreases n - p,
        {
            proof {
                lemma_attrs_end_bounds(t, p as int);
            }
            let (found, q) = find_attribute(t, p)?;
            match found {
                None => {
                    break;
                },
                Some((key, value)) => {
                    p = q;
                    proof {
                        reveal_strlit("id");
                        assert("id"@.len() == 2);
                    }
                    if str_eq(key.as_str(), "id") {
                        if id.is_some() {
                            return Err(duplicate_attribute("id"));
                        }
                        id = Some(value);
                    } else {
                        return Err(unknown_field("IconClickTracking", key));
                    }
                },
            }
        }
        let ghost e = p as int;
        let (text, q) = read_text(t, p, "IconClickTracking")?;
        p = q;
        assert(t.start_tag(start - 1, e, "IconClickTracking"@));
        assert(t.till_start(pos as int, "IconClickTracking"@) == Some(start as int));
        assert forall|i: int| start - 1 < i < e implies Self::knows(#[trigger] t.key(i)) by {
            assert(t.kind(i) == TokenKind::Attribute);
        }
        assert forall|i: int| start <= i < e implies #[trigger] t.attr_readable(i) && Self::knows(t.key(i)) by {
            assert(t.kind(i) == TokenKind::Attribute);
        }
        let v = IconClickTracking { id, uri: text };
        assert(v.attrs_read(t, start - 1, e));
        Ok((v, p))
    }

    fn write(&self, out: &mut String) {
        write_start(out, "IconClickTracking");
        let ghost mut head = start_tag("IconClickTracking"@);
        write_opt_attribute(out, "id", &self.id);
        proof {
            let piece = opt_attribute("id"@, opt_view(self.id));
            lemma_append(old(out)@, head, piece);
            head = head + piece;
        }
        let ghost mid = out@;
        let ghost mut body = seq!['>'];
        write_open_end(out);
        write_text(out, self.uri.as_str(), true);
        proof {
            let piece = cdata(self.uri@);
            lemma_append(mid, body, piece);
            body = body + piece;
        }
        write_end(out, "IconClickTracking");
        proof {
            lemma_append(mid, body, end_tag("IconClickTracking"@));
            lemma_append(old(out)@, head, body + end_tag("IconClickTracking"@));
        }
    }
}

/// Images to show where an icon's page cannot open.
#[derive(Debug, Clone, PartialEq, Default)]
pub struct IconClickFallbackImages {
    /// One or more images.
    pub icon_click_fallback_images: Vec<IconClickFallbackImage>,
}

impl XmlElement for IconClickFallbackImages {
    open spec fn tag() -> Seq<char> {
        "IconClickFallbackImages"@
    }

    open spec fn knows(key: Seq<char>) -> bool {
        false
    }

    open spec fn attrs_read(&self, t: &Tokens, s: int, e: int) -> bool {
        true
    }

    open spec fn content_read(&self, t: &Tokens, e: int, q: int) -> bool {
        (forall|k: int| 0 <= k < self.icon_click_fallback_images@.len() ==> read_within(*t, #[trigger] self.icon_click_fallback_images@[k], e, q))
            && read_in_order(*t, self.icon_click_fallback_images@, e)
            && exists|ws: Seq<(int, int, int)>|
                #[trigger] children_cover(*t, ws, e + 1, content_end(e, q), 1)
                && count_of(ws, 0) == self.icon_click_fallback_images@.len()
                && count_of(ws, -1) == 0
    }

    open spec fn read_ok(t: &Tokens, pos: int) -> bool {
        false
    }

    open spec fn read_refused(t: &Tokens, pos: int) -> bool {
        t.start_malformed(pos, "IconClickFallbackImages"@) || match t.till_start(pos, "IconClickFallbackImages"@) {
            Some(a) => exists|i: int| a <= i < t.attrs_end(a) && !Self::knows(#[trigger] t.key(i)),
            None => false,
        }
    }

    open spec fn xml_spec(&self) -> Seq<char> {
        start_tag("IconClickFallbackImages"@)
            + (if self.icon_click_fallback_images@.len() == 0 {
            seq!['/', '>']
        } else {
            seq!['>'] + seq_xml(self.icon_click_fallback_images@) + end_tag("IconClickFallbackImages"@)
        })
    }

    fn read(t: &Tokens, pos: usize) -> (r: Result<(Self, usize), DecodeError>) {
        let n = t.items.len();
        let start = read_till_element_start(t, pos, "IconClickFallbackImages")?;
        let mut p = start;
        let mut icon_click_fallback_images: Vec<IconClickFallbackImage> = Vec::new();
        loop
            invariant
                n == t.len(),
                start <= p <= n,
                start == n || (pos < start && t.starts(start - 1, "IconClickFallbackImages"@)),
                forall|i: int| start <= i < p ==> #[trigger] t.kind(i) == TokenKind::Attribute && Self::knows(t.key(i)),
                t.till_start(pos as int, "IconClickFallbackImages"@) == Some(start as int),
                t.attrs_end(start as int) == t.attrs_end(p as int),
                forall|i: int| start <= i < p ==> #[trigger] t.attr_readable(i),
            ensures
                start <= p < n,
                pos < start && t.starts(start - 1, "IconClickFallbackImages"@),
                forall|i: int| start <= i < p ==> #[trigger] t.kind(i) == TokenKind::Attribute && Self::knows(t.key(i)),
                t.kind(p as int) == TokenKind::ElementEnd && !is_close_end(t.span(p as int)),
                t.till_start(pos as int, "IconClickFallbackImages"@) == Some(start as int),
                t.attrs_end(start as int) == p,
                forall|i: int| start <= i < p ==> #[trigger] t.attr_readable(i),
            decreases n - p,
        {
            proof {
                lemma_attrs_end_bounds(t, p as int);
            }
            let (found, q) = find_attribute(t, p)?;
            match found {
                None => {
                    break;
                },
                Some((key, value)) => {
                    p = q;
                    return Err(unknown_field("IconClickFallbackImages", key));
                },
            }
        }
        let ghost e = p as int;
        let ghost mut ends_icon_click_fallback_images: Seq<int> = Seq::empty();
        proof {
            lemma_ends_empty(*t, icon_click_fallback_images@, e);
        }
        let empty = is_empty_end_of(&t.items[p]);
        p = p + 1;
        let ghost mut ws: Seq<(int, int, int)> = Seq::empty();
        proof {
            lemma_cover_empty(*t, e + 1, 1);
        }
        if !empty {
            loop
                invariant_except_break
                    children_cover(*t, ws, e + 1, p as int, 1),
                    prev_end(ws, e + 1, ws.len() as int) == p,
                invariant
                    n == t.len(),
                    pos < p <= n,
                    e < p,
                    (forall|k: int| 0 <= k < icon_click_fallback_images@.len() ==> read_within(*t, #[trigger] icon_click_fallback_images@[k], e, p as int)),
                    ends_fit(*t, icon_click_fallback_images@, e, ends_icon_click_fallback_images),
                    part_start(ends_icon_click_fallback_images, e, icon_click_fallback_images@.len() as int) <= p,
                    count_of(ws, 0) == icon_click_fallback_images@.len(),
                    count_of(ws, -1) == 0,
                ensures
                    pos < p <= n,
                    e < p,
                    children_cover(*t, ws, e + 1, content_end(e, p as int), 1),
                    (forall|k: int| 0 <= k < icon_click_fallback_images@.len() ==> read_within(*t, #[trigger] icon_click_fallback_images@[k], e, p as int)),
                    ends_fit(*t, icon_click_fallback_images@, e, ends_icon_click_fallback_images),
                    part_start(ends_icon_click_fallback_images, e, icon_click_fallback_images@.len() as int) <= p,
                    count_of(ws, 0) == icon_click_fallback_images@.len(),
                    count_of(ws, -1) == 0,

                decreases n - p,
            {
                let (found, q) = find_element_start(t, p, "IconClickFallbackImages")?;
                match found {
                    None => {
                        proof {
                            lemma_cover_extend(*t, ws, e + 1, p as int, q as int - 1, 1);
                        }
                        p = q;
                        break;
                    },
                    Some(tag) => {
                        if str_eq(tag.as_str(), "IconClickFallbackImage") {
                            let (v, q2) = IconClickFallbackImage::read(t, q)?;
                            proof {
                                assert(read_within(*t, v, q as int, q2 as int));
                                lemma_read_within_widen(*t, v, q as int, q2 as int, part_start(ends_icon_click_fallback_images, e, icon_click_fallback_images@.len() as int), q2 as int);
                                lemma_ends_push(*t, icon_click_fallback_images@, v, e, ends_icon_click_fallback_images, q2 as int);
                                ends_icon_click_fallback_images = ends_icon_click_fallback_images.push(q2 as int);
                            }
                            icon_click_fallback_images.push(v);
                            proof {
                                lemma_cover_push(*t, ws, e + 1, p as int, (q as int, q2 as int, 0), 1);
                                ws = ws.push((q as int, q2 as int, 0));
                            }
                            p = q2;
                        } else {
                            return Err(unknown_field("IconClickFallbackImages", tag));
                        }
                    },
                }
            }
        }
        assert(children_cover(*t, ws, e + 1, content_end(e, p as int), 1));
        if icon_click_fallback_images.len() == 0 {
            return Err(missing_field("IconClickFallbackImages", "icon_click_fallback_images"));
        }
        assert(t.start_tag(start - 1, e, "IconClickFallbackImages"@));
        assert(t.till_start(pos as int, "IconClickFallbackImages"@) == Some(start as int));
        assert forall|i: int| start - 1 < i < e implies Self::knows(#[trigger] t.key(i)) by {
            assert(t.kind(i) == TokenKind::Attribute);
        }
        assert forall|i: int| start <= i < e implies #[trigger] t.attr_readable(i) && Self::knows(t.key(i)) by {
            assert(t.kind(i) == TokenKind::Attribute);
        }
        let v = IconClickFallbackImages { icon_click_fallback_images };
        assert(v.content_read(t, e, p as int));
        Ok((v, p))
    }

    fn write(&self, out: &mut String) {
        write_start(out, "IconClickFallbackImages");
        let ghost mut head = start_tag("IconClickFallbackImages"@);
        if self.icon_click_fallback_images.len() == 0 {
            write_empty_end(out);
        } else {
            let ghost mid = out@;
            let ghost mut body = seq!['>'];
            write_open_end(out);
            write_all(out, &self.icon_click_fallback_images);
            proof {
                let piece = seq_xml(self.icon_click_fallback_images@);
                lemma_append(mid, body, piece);
                body = body + piece;
            }
            write_end(out, "IconClickFallbackImages");
            proof {
                lemma_append(mid, body, end_tag("IconClickFallbackImages"@));
                lemma_append(old(out)@, head, body + end_tag("IconClickFallbackImages"@));
            }
        }
    }
}

/// An image to show where an icon's page cannot open.
#[derive(Debug, Clone, PartialEq, Default)]
pub struct IconClickFallbackImage {
    /// Height in pixels.
    pub height: Option<i32>,
    /// Width in pixels.
    pub width: Option<i32>,
    /// Alternative text.
    pub alt_text: Option<String>,
    /// The URI of the image.
    pub static_resource: Option<String>,
}

impl XmlElement for IconClickFallbackImage {
    open spec fn tag() -> Seq<char> {
        "IconClickFallbackImage"@
    }

    open spec fn knows(key: Seq<char>) -> bool {
        key == "height"@ || key == "width"@
    }

    open spec fn attrs_read(&self, t: &Tokens, s: int, e: int) -> bool {
        (self.height == match t.attr_text(s, e, "height"@) {
            Some(v) => parse_i32_spec(v),
            None => None,
        })
            && (self.width == match t.attr_text(s, e, "width"@) {
            Some(v) => parse_i32_spec(v),
            None => None,
        })
    }

    open spec fn content_read(&self, t: &Tokens, e: int, q: int) -> bool {
        (self.alt_text matches Some(x) ==> text_within(*t, "AltText"@, x@, e, q))
            && (self.static_resource matches Some(x) ==> text_within(*t, "StaticResource"@, x@, e, q))
            && exists|ws: Seq<(int, int, int)>|
                #[trigger] children_cover(*t, ws, e + 1, content_end(e, q), 2)
                && count_of(ws, 0) == (if self.alt_text is Some { 1nat } else { 0nat })
                && count_of(ws, 1) == (if self.static_resource is Some { 1nat } else { 0nat })
                && count_of(ws, -1) == 0
    }

    open spec fn read_ok(t: &Tokens, pos: int) -> bool {
        false
    }

    open spec fn read_refused(t: &Tokens, pos: int) -> bool {
        t.start_malformed(pos, "IconClickFallbackImage"@) || match t.till_start(pos, "IconClickFallbackImage"@) {
            Some(a) => exists|i: int| a <= i < t.attrs_end(a) && !Self::knows(#[trigger] t.key(i)),
            None => false,
        }
    }

    open spec fn xml_spec(&self) -> Seq<char> {
        start_tag("IconClickFallbackImage"@)
            + opt_attribute("height"@, opt_i32_text(self.height))
            + opt_attribute("width"@, opt_i32_text(self.width))
            + (if self.alt_text is None && self.static_resource is None {
            seq!['/', '>']
        } else {
            seq!['>'] + opt_text("AltText"@, self.alt_text, false) + opt_text("StaticResource"@, self.static_resource, true) + end_tag("IconClickFallbackImage"@)
        })
    }

    fn read(t: &Tokens, pos: usize) -> (r: Result<(Self, usize), DecodeError>) {
        let n = t.items.len();
        let start = read_till_element_start(t, pos, "IconClickFallbackImage")?;
        let mut p = start;
        let mut height: Option<i32> = None;
        let mut width: Option<i32> = None;
        let mut alt_text: Option<String> = None;
        let mut static_resource: Option<String> = None;
        loop
            invariant
                n == t.len(),
                start <= p <= n,
                start == n || (pos < start && t.starts(start - 1, "IconClickFallbackImage"@)),
                forall|i: int| start <= i < p ==> #[trigger] t.kind(i) == TokenKind::Attribute && Self::knows(t.key(i)),
                t.till_start(pos as int, "IconClickFallbackImage"@) == Some(start as int),
                t.attrs_end(start as int) == t.attrs_end(p as int),
                forall|i: int| start <= i < p ==> #[trigger] t.attr_readable(i),
                height == match t.attr_text(start - 1, p as int, "height"@) {
                    Some(v) => parse_i32_spec(v),
                    None => None,
                },
                width == match t.attr_text(start - 1, p as int, "width"@) {
                    Some(v) => parse_i32_spec(v),
                    None => None,
                },
            ensures
                start <= p < n,
                pos < start && t.starts(start - 1, "IconClickFallbackImage"@),
                forall|i: int| start <= i < p ==> #[trigger] t.kind(i) == TokenKind::Attribute && Self::knows(t.key(i)),
                t.kind(p as int) == TokenKind::ElementEnd && !is_close_end(t.span(p as int)),
                t.till_start(pos as int, "IconClickFallbackImage"@) == Some(start as int),
                t.attrs_end(start as int) == p,
                forall|i: int| start <= i < p ==> #[trigger] t.attr_readable(i),
                height == match t.attr_text(start - 1, p as int, "height"@) {
                    Some(v) => parse_i32_spec(v),
                    None => None,
                },
                width == match t.attr_text(start - 1, p as int, "width"@) {
                    Some(v) => parse_i32_spec(v),
                    None => None,
                },
            decreases n - p,
        {
            proof {
                lemma_attrs_end_bounds(t, p as int);
            }
            let (found, q) = find_attribute(t, p)?;
            match found {
                None => {
                    break;
                },
                Some((key, value)) => {
                    p = q;
                    proof {
                        reveal_strlit("height");
                        reveal_strlit("width");
                        assert("height"@.len() == 6);
                        assert("width"@.len() == 5);
                    }
                    if str_eq(key.as_str(), "height") {
                        if height.is_some() {
                            return Err(duplicate_attribute("height"));
                        }
                        height = Some(parse_int(value.as_str())?);
                    } else if str_eq(key.as_str(), "width") {
                        if width.is_some() {
                            return Err(duplicate_attribute("width"));
                        }
                        width = Some(parse_int(value.as_str())?);
                    } else {
                        return Err(unknown_field("IconClickFallbackImage", key));
                    }
                },
            }
        }
        let ghost e = p as int;
        let empty = is_empty_end_of(&t.items[p]);
        p = p + 1;
        let ghost mut ws: Seq<(int, int, int)> = Seq::empty();
        proof {
            lemma_cover_empty(*t, e + 1, 2);
        }
        if !empty {
            loop
                invariant_except_break
                    children_cover(*t, ws, e + 1, p as int, 2),
                    prev_end(ws, e + 1, ws.len() as int) == p,
                invariant
                    n == t.len(),
                    pos < p <= n,
                    e < p,
                    (alt_text matches Some(x) ==> text_within(*t, "AltText"@, x@, e, p as int)),
                    (static_resource matches Some(x) ==> text_within(*t, "StaticResource"@, x@, e, p as int)),
                    count_of(ws, 0) == (if alt_text is Some { 1nat } else { 0nat }),
                    count_of(ws, 1) == (if static_resource is Some { 1nat } else { 0nat }),
                    count_of(ws, -1) == 0,
                ensures
                    pos < p <= n,
                    e < p,
                    children_cover(*t, ws, e + 1, content_end(e, p as int), 2),
                    (alt_text matches Some(x) ==> text_within(*t, "AltText"@, x@, e, p as int)),
                    (static_resource matches Some(x) ==> text_within(*t, "StaticResource"@, x@, e, p as int)),
                    count_of(ws, 0) == (if alt_text is Some { 1nat } else { 0nat }),
                    count_of(ws, 1) == (if static_resource is Some { 1nat } else { 0nat }),
                    count_of(ws, -1) == 0,

                decreases n - p,
            {
                let (found, q) = find_element_start(t, p, "IconClickFallbackImage")?;
                match found {
                    None => {
                        proof {
                            lemma_cover_extend(*t, ws, e + 1, p as int, q as int - 1, 2);
                        }
                        p = q;
                        break;
                    },
                    Some(tag) => {
                        if str_eq(tag.as_str(), "AltText") {
                            if alt_text.is_some() {
                                return Err(duplicate_element("AltText"));
                            }
                            let (s, q2) = read_text_child(t, q, "AltText")?;
                            let v = s;
                            alt_text = Some(v);
                            proof {
                                lemma_cover_push(*t, ws, e + 1, p as int, (q as int, q2 as int, 0), 2);
                                ws = ws.push((q as int, q2 as int, 0));
                            }
                            p = q2;
                        } else if str_eq(tag.as_str(), "StaticResource") {
                            if static_resource.is_some() {
                                return Err(duplicate_element("StaticResource"));
                            }
                            let (s, q2) = read_text_child(t, q, "StaticResource")?;
                            let v = s;
                            static_resource = Some(v);
                            proof {
                                lemma_cover_push(*t, ws, e + 1, p as int, (q as int, q2 as int, 1), 2);
                                ws = ws.push((q as int, q2 as int, 1));
                            }
                            p = q2;
                        } else {
                            return Err(unknown_field("IconClickFallbackImage", tag));
                        }
                    },
                }
            }
        }
        assert(children_cover(*t, ws, e + 1, content_end(e, p as int), 2));
        assert(t.start_tag(start - 1, e, "IconClickFallbackImage"@));
        assert(t.till_start(pos as int, "IconClickFallbackImage"@) == Some(start as int));
        assert forall|i: int| start - 1 < i < e implies Self::knows(#[trigger] t.key(i)) by {
            assert(t.kind(i) == TokenKind::Attribute);
        }
        assert forall|i: int| start <= i < e implies #[trigger] t.attr_readable(i) && Self::knows(t.key(i)) by {
            assert(t.kind(i) == TokenKind::Attribute);
        }
        let v = IconClickFallbackImage { height, width, alt_text, static_resource };
        assert(v.attrs_read(t, start - 1, e));
        assert(v.content_read(t, e, p as int));
        Ok((v, p))
    }

    fn write(&self, out: &mut String) {
        write_start(out, "IconClickFallbackImage");
        let ghost mut head = start_tag("IconClickFallbackImage"@);
        write_opt_int_attribute(out, "height", self.height);
        proof {
            let piece = opt_attribute("height"@, opt_i32_text(self.height));
            lemma_append(old(out)@, head, piece);
            head = head + piece;
        }
        write_opt_int_attribute(out, "width", self.width);
        proof {
            let piece = opt_attribute("width"@, opt_i32_text(self.width));
            lemma_append(old(out)@, head, piece);
            head = head + piece;
        }
        if self.alt_text.is_none() && self.static_resource.is_none() {
            write_empty_end(out);
        } else {
            let ghost mid = out@;
            let ghost mut body = seq!['>'];
            write_open_end(out);
            write_opt_text(out, "AltText", &self.alt_text, false);
            proof {
                let piece = opt_text("AltText"@, self.alt_text, false);
                lemma_append(mid, body, piece);
                body = body + piece;
            }
            write_opt_text(out, "StaticResource", &self.static_resource, true);
            proof {
                let piece = opt_text("StaticResource"@, self.static_resource, true);
                lemma_append(mid, body, piece);
                body = body + piece;
            }
            write_end(out, "IconClickFallbackImage");
            proof {
                lemma_append(mid, body, end_tag("IconClickFallbackImage"@));
                lemma_append(old(out)@, head, body + end_tag("IconClickFallbackImage"@));
            }
        }
    }
}

} // verus!
