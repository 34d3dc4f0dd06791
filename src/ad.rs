//! `<Ad>`, the top-level wrapper of one ad, and the kind of ad it is.
use vstd::prelude::*;
use crate::codec::{
    XmlElement, children_cover, count_of, content_end, prev_end, lemma_cover_push,
    lemma_cover_extend, lemma_cover_empty, read_within, lemma_append, parse_bool_spec, opt_xml,
    opt_attribute, opt_view, opt_i32_text, opt_bool_text, parse_bool, parse_int, unknown_field,
    duplicate_attribute, duplicate_element, write_opt, write_opt_attribute,
    write_opt_int_attribute, write_opt_bool_attribute,
};
use crate::reader::{
    is_close_end, lemma_attrs_end_bounds, read_till_element_start, find_attribute,
    find_element_start, is_empty_end_of,
};
use crate::writer::{start_tag, end_tag, write_start, write_open_end, write_empty_end, write_end};
use crate::xml::{DecodeError, TokenKind, Tokens};
use crate::text::{parse_i32_spec};
use crate::in_line::{InLine};
use crate::wrapper::{Wrapper};
use crate::error::{VastParseError, quoted_error};
use crate::text::{str_eq};

verus! {

/// Identifier for type of ad.
#[derive(Debug, Clone, Copy, PartialEq, Eq, Structural, Default)]
pub enum AdType {
    /// Video ad.
    #[default]
    Video,
    /// Audio ad.
    Audio,
    /// Video and audio ad.
    Hybrid,
}

impl AdType {
    /// The keyword that stands for the value in a document.
    pub open spec fn keyword(self) -> Seq<char> {
        match self {
            AdType::Video => "video"@,
            AdType::Audio => "audio"@,
            AdType::Hybrid => "hybrid"@,
        }
    }

    /// The value whose keyword is `s`.
    pub open spec fn parse_spec(s: Seq<char>) -> Option<AdType> {
        if s == "video"@ {
            Some(AdType::Video)
        } else if s == "audio"@ {
            Some(AdType::Audio)
        } else if s == "hybrid"@ {
            Some(AdType::Hybrid)
        } else {
            None
        }
    }

    /// Reads a keyword.
    pub fn from_str(s: &str) -> (r: Result<Self, VastParseError>)
        ensures
            r matches Ok(v) ==> Self::parse_spec(s@) == Some(v),
            r matches Err(e) ==> Self::parse_spec(s@) is None && e.input@ == quoted_error(
                "ad type parsing error: "@,
                s@,
            ),
    {
        if str_eq(s, "video") {
            Ok(AdType::Video)
        } else if str_eq(s, "audio") {
            Ok(AdType::Audio)
        } else if str_eq(s, "hybrid") {
            Ok(AdType::Hybrid)
        } else {
            Err(VastParseError::quoting("ad type parsing error: ", s))
        }
    }

    /// The keyword of the value.
    pub fn keyword_str(&self) -> (r: &'static str)
        ensures
            r@ == self.keyword(),
    {
        match self {
            AdType::Video => "video",
            AdType::Audio => "audio",
            AdType::Hybrid => "hybrid",
        }
    }

    /// The keyword of the value, as an owned string.
    pub fn to_string(&self) -> (r: String)
        ensures
            r@ == self.keyword(),
    {
        String::from_str(self.keyword_str())
    }
}

/// Reading the keyword of a value gives the value back.
pub proof fn lemma_ad_type_round_trip(v: AdType)
    ensures
        AdType::parse_spec(v.keyword()) == Some(v),
{
    reveal_strlit("video");
    reveal_strlit("audio");
    reveal_strlit("hybrid");
    match v {
        AdType::Video => {
        },
        AdType::Audio => {
            assert("audio"@[0] != "video"@[0]);
        },
        AdType::Hybrid => {
            assert("hybrid"@.len() != "video"@.len());
            assert("hybrid"@.len() != "audio"@.len());
        },
    }
}

/// The payload of an ad, where it has at most one: the two payloads exclude
/// each other, though a document may hold both.
#[derive(Debug)]
pub enum AdPayload<'a> {
    InLine(&'a InLine),
    Wrapper(&'a Wrapper),
    Empty,
}

impl Ad {
    /// The ad's payload as one value; `None` where it holds both an inline ad
    /// and a wrapper.
    pub fn payload(&self) -> (r: Option<AdPayload<'_>>)
        ensures
            r is None <==> self.in_line is Some && self.wrapper is Some,
            r matches Some(AdPayload::InLine(x)) ==> self.in_line == Some(*x),
            r matches Some(AdPayload::Wrapper(x)) ==> self.wrapper == Some(*x) && self.in_line is None,
            r matches Some(AdPayload::Empty) ==> self.in_line is None && self.wrapper is None,
    {
        match (&self.in_line, &self.wrapper) {
            (Some(_), Some(_)) => None,
            (Some(x), None) => Some(AdPayload::InLine(x)),
            (None, Some(x)) => Some(AdPayload::Wrapper(x)),
            (None, None) => Some(AdPayload::Empty),
        }
    }
}

/// One ad of the response: an inline ad, or a wrapper that points to another
/// document.
#[derive(Debug, Clone, PartialEq, Default)]
pub struct Ad {
    /// An ad server-defined identifier of the ad.
    pub id: Option<String>,
    /// The place of the ad in an ad pod.
    pub sequence: Option<i32>,
    /// Whether the ad is conditional.
    pub conditional_ad: Option<bool>,
    /// The type of ad: video, audio or hybrid.
    pub ad_type: Option<String>,
    /// The ad's data, where it is an inline ad.
    pub in_line: Option<InLine>,
    /// The redirect, where it is a wrapper.
    pub wrapper: Option<Wrapper>,
}

impl XmlElement for Ad {
    open spec fn tag() -> Seq<char> {
        "Ad"@
    }

    open spec fn knows(key: Seq<char>) -> bool {
        key == "id"@ || key == "sequence"@ || key == "conditionalAd"@ || key == "adType"@
    }

    open spec fn attrs_read(&self, t: &Tokens, s: int, e: int) -> bool {
        (opt_view(self.id) == t.attr_text(s, e, "id"@))
            && (self.sequence == match t.attr_text(s, e, "sequence"@) {
            Some(v) => parse_i32_spec(v),
            None => None,
        })
            && (self.conditional_ad == match t.attr_text(s, e, "conditionalAd"@) {
            Some(v) => parse_bool_spec(v),
            None => None,
        })
            && (opt_view(self.ad_type) == t.attr_text(s, e, "adType"@))
    }

    open spec fn content_read(&self, t: &Tokens, e: int, q: int) -> bool {
        (self.in_line matches Some(c) ==> read_within(*t, c, e, q))
            && (self.wrapper matches Some(c) ==> read_within(*t, c, e, q))
            && exists|ws: Seq<(int, int, int)>|
                #[trigger] children_cover(*t, ws, e + 1, content_end(e, q), 2)
                && count_of(ws, 0) == (if self.in_line is Some { 1nat } else { 0nat })
                && count_of(ws, 1) == (if self.wrapper is Some { 1nat } else { 0nat })
                && count_of(ws, -1) == 0
    }

    open spec fn read_ok(t: &Tokens, pos: int) -> bool {
        false
    }

    open spec fn read_refused(t: &Tokens, pos: int) -> bool {
        t.start_malformed(pos, "Ad"@) || match t.till_start(pos, "Ad"@) {
            Some(a) => exists|i: int| a <= i < t.attrs_end(a) && !Self::knows(#[trigger] t.key(i)),
            None => false,
        }
    }

    open spec fn xml_spec(&self) -> Seq<char> {
        start_tag("Ad"@)
            + opt_attribute("id"@, opt_view(self.id))
            + opt_attribute("sequence"@, opt_i32_text(self.sequence))
            + opt_attribute("conditionalAd"@, opt_bool_text(self.conditional_ad))
            + opt_attribute("adType"@, opt_view(self.ad_type))
            + (if self.in_line is None && self.wrapper is None {
            seq!['/', '>']
        } else {
            seq!['>'] + opt_xml(self.in_line) + opt_xml(self.wrapper) + end_tag("Ad"@)
        })
    }

    fn read(t: &Tokens, pos: usize) -> (r: Result<(Self, usize), DecodeError>) {
        let n = t.items.len();
        let start = read_till_element_start(t, pos, "Ad")?;
        let mut p = start;
        let mut id: Option<String> = None;
        let mut sequence: Option<i32> = None;
        let mut conditional_ad: Option<bool> = None;
        let mut ad_type: Option<String> = None;
        let mut in_line: Option<InLine> = None;
        let mut wrapper: Option<Wrapper> = None;
        loop
            invariant
                n == t.len(),
                start <= p <= n,
                start == n || (pos < start && t.starts(start - 1, "Ad"@)),
                forall|i: int| start <= i < p ==> #[trigger] t.kind(i) == TokenKind::Attribute && Self::knows(t.key(i)),
                t.till_start(pos as int, "Ad"@) == Some(start as int),
                t.attrs_end(start as int) == t.attrs_end(p as int),
                forall|i: int| start <= i < p ==> #[trigger] t.attr_readable(i),
                opt_view(id) == t.attr_text(start - 1, p as int, "id"@),
                sequence == match t.attr_text(start - 1, p as int, "sequence"@) {
                    Some(v) => parse_i32_spec(v),
                    None => None,
                },
                conditional_ad == match t.attr_text(start - 1, p as int, "conditionalAd"@) {
                    Some(v) => parse_bool_spec(v),
                    None => None,
                },
                opt_view(ad_type) == t.attr_text(start - 1, p as int, "adType"@),
            ensures
                start <= p < n,
                pos < start && t.starts(start - 1, "Ad"@),
                forall|i: int| start <= i < p ==> #[trigger] t.kind(i) == TokenKind::Attribute && Self::knows(t.key(i)),
                t.kind(p as int) == TokenKind::ElementEnd && !is_close_end(t.span(p as int)),
                t.till_start(pos as int, "Ad"@) == Some(start as int),
                t.attrs_end(start as int) == p,
                forall|i: int| start <= i < p ==> #[trigger] t.attr_readable(i),
                opt_view(id) == t.attr_text(start - 1, p as int, "id"@),
                sequence == match t.attr_text(start - 1, p as int, "sequence"@) {
                    Some(v) => parse_i32_spec(v),
                    None => None,
                },
                conditional_ad == match t.attr_text(start - 1, p as int, "conditionalAd"@) {
                    Some(v) => parse_bool_spec(v),
                    None => None,
                },
                opt_view(ad_type) == t.attr_text(start - 1, p as int, "adType"@),
            decreases n - p,
        {
            proof {
                lemma_attrs_end_bounds(t, p as int);
            }
            let (found, q) = find_attribute(t, p)?;
            match found {
                None => {
                    break;
                },
                Some((key, value)) => {
                    p = q;
                    proof {
                        reveal_strlit("id");
                        reveal_strlit("sequence");
                        reveal_strlit("conditionalAd");
                        reveal_strlit("adType");
                        assert("id"@.len() == 2);
                        assert("sequence"@.len() == 8);
                        assert("conditionalAd"@.len() == 13);
                        assert("adType"@.len() == 6);
                    }
                    if str_eq(key.as_str(), "id") {
                        if id.is_some() {
                            return Err(duplicate_attribute("id"));
                        }
                        id = Some(value);
                    } else if str_eq(key.as_str(), "sequence") {
                        if sequence.is_some() {
                            return Err(duplicate_attribute("sequence"));
                        }
                        sequence = Some(parse_int(value.as_str())?);
                    } else if str_eq(key.as_str(), "conditionalAd") {
                        if conditional_ad.is_some() {
                            return Err(duplicate_attribute("conditionalAd"));
                        }
                        conditional_ad = Some(parse_bool(value.as_str())?);
                    } else if str_eq(key.as_str(), "adType") {
                        if ad_type.is_some() {
                            return Err(duplicate_attribute("adType"));
                        }
                        ad_type = Some(value);
                    } else {
                        return Err(unknown_field("Ad", key));
                    }
                },
            }
        }
        let ghost e = p as int;
        let empty = is_empty_end_of(&t.items[p]);
        p = p + 1;
        let ghost mut ws: Seq<(int, int, int)> = Seq::empty();
        proof {
            lemma_cover_empty(*t, e + 1, 2);
        }
        if !empty {
            loop
                invariant_except_break
                    children_cover(*t, ws, e + 1, p as int, 2),
                    prev_end(ws, e + 1, ws.len() as int) == p,
                invariant
                    n == t.len(),
                    pos < p <= n,
                    e < p,
                    (in_line matches Some(c) ==> read_within(*t, c, e, p as int)),
                    (wrapper matches Some(c) ==> read_within(*t, c, e, p as int)),
                    count_of(ws, 0) == (if in_line is Some { 1nat } else { 0nat }),
                    count_of(ws, 1) == (if wrapper is Some { 1nat } else { 0nat }),
                    count_of(ws, -1) == 0,
                ensures
                    pos < p <= n,
                    e < p,
                    children_cover(*t, ws, e + 1, content_end(e, p as int), 2),
                    (in_line matches Some(c) ==> read_within(*t, c, e, p as int)),
                    (wrapper matches Some(c) ==> read_within(*t, c, e, p as int)),
                    count_of(ws, 0) == (if in_line is Some { 1nat } else { 0nat }),
                    count_of(ws, 1) == (if wrapper is Some { 1nat } else { 0nat }),
                    count_of(ws, -1) == 0,

                decreases n - p,
            {
                let (found, q) = find_element_start(t, p, "Ad")?;
                match found {
                    None => {
                        proof {
                            lemma_cover_extend(*t, ws, e + 1, p as int, q as int - 1, 2);
                        }
                        p = q;
                        break;
                    },
                    Some(tag) => {
                        if str_eq(tag.as_str(), "InLine") {
                            if in_line.is_some() {
                                return Err(duplicate_element("InLine"));
                            }
                            let (v, q2) = InLine::read(t, q)?;
                            in_line = Some(v);
                            proof {
                                lemma_cover_push(*t, ws, e + 1, p as int, (q as int, q2 as int, 0), 2);
                                ws = ws.push((q as int, q2 as int, 0));
                            }
                            p = q2;
                        } else if str_eq(tag.as_str(), "Wrapper") {
                            if wrapper.is_some() {
                                return Err(duplicate_element("Wrapper"));
                            }
                            let (v, q2) = Wrapper::read(t, q)?;
                            wrapper = Some(v);
                            proof {
                                lemma_cover_push(*t, ws, e + 1, p as int, (q as int, q2 as int, 1), 2);
                                ws = ws.push((q as int, q2 as int, 1));
                            }
                            p = q2;
                        } else {
                            return Err(unknown_field("Ad", tag));
                        }
                    },
                }
            }
        }
        assert(children_cover(*t, ws, e + 1, content_end(e, p as int), 2));
        assert(t.start_tag(start - 1, e, "Ad"@));
        assert(t.till_start(pos as int, "Ad"@) == Some(start as int));
        assert forall|i: int| start - 1 < i < e implies Self::knows(#[trigger] t.key(i)) by {
            assert(t.kind(i) == TokenKind::Attribute);
        }
        assert forall|i: int| start <= i < e implies #[trigger] t.attr_readable(i) && Self::knows(t.key(i)) by {
            assert(t.kind(i) == TokenKind::Attribute);
        }
        let v = Ad { id, sequence, conditional_ad, ad_type, in_line, wrapper };
        assert(v.attrs_read(t, start - 1, e));
        assert(v.content_read(t, e, p as int));
        Ok((v, p))
    }

    fn write(&self, out: &mut String) {
        write_start(out, "Ad");
        let ghost mut head = start_tag("Ad"@);
        write_opt_attribute(out, "id", &self.id);
        proof {
            let piece = opt_attribute("id"@, opt_view(self.id));
            lemma_append(old(out)@, head, piece);
            head = head + piece;
        }
        write_opt_int_attribute(out, "sequence", self.sequence);
        proof {
            let piece = opt_attribute("sequence"@, opt_i32_text(self.sequence));
            lemma_append(old(out)@, head, piece);
            head = head + piece;
        }
        write_opt_bool_attribute(out, "conditionalAd", self.conditional_ad);
        proof {
            let piece = opt_attribute("conditionalAd"@, opt_bool_text(self.conditional_ad));
            lemma_append(old(out)@, head, piece);
            head = head + piece;
        }
        write_opt_attribute(out, "adType", &self.ad_type);
        proof {
            let piece = opt_attribute("adType"@, opt_view(self.ad_type));
            lemma_append(old(out)@, head, piece);
            head = head + piece;
        }
        if self.in_line.is_none() && self.wrapper.is_none() {
            write_empty_end(out);
        } else {
            let ghost mid = out@;
            let ghost mut body = seq!['>'];
            write_open_end(out);
            write_opt(out, &self.in_line);
            proof {
                let piece = opt_xml(self.in_line);
                lemma_append(mid, body, piece);
                body = body + piece;
            }
            write_opt(out, &self.wrapper);
            proof {
                let piece = opt_xml(self.wrapper);
                lemma_append(mid, body, piece);
                body = body + piece;
            }
            write_end(out, "Ad");
            proof {
                lemma_append(mid, body, end_tag("Ad"@));
                lemma_append(old(out)@, head, body + end_tag("Ad"@));
            }
        }
    }
}

} // verus!
