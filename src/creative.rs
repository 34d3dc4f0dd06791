//! `<Creatives>` and the creatives of an ad, with their verbatim extensions.
use vstd::prelude::*;
use crate::codec::{
    XmlElement, decoded_from, children_cover, count_of, content_end, prev_end, lemma_cover_push,
    lemma_cover_extend, lemma_cover_empty, lemma_ends_empty, read_within, read_in_order,
    lemma_read_within_widen, lemma_ends_push, ends_fit, part_start, lemma_append, seq_xml, opt_xml,
    opt_attribute, opt_view, opt_i32_text, parse_int, missing_field, unknown_field,
    duplicate_attribute, duplicate_element, write_all, write_opt, write_opt_attribute,
    write_opt_int_attribute, from_str, to_string,
};
use crate::reader::{
    is_close_end, lemma_attrs_end_bounds, read_till_element_start, find_attribute,
    find_element_start, read_text, is_empty_end_of,
};
use crate::writer::{
    start_tag, attribute, end_tag, write_start, write_attribute, write_open_end, write_empty_end,
    write_end, write_text,
};
use crate::xml::{DecodeError, TokenKind, Tokens, escape_spec, xml_tokens};
use crate::text::{str_eq, parse_i32_spec};
use crate::capture::{
    verbatim_ok, read_verbatim, write_verbatim, verbatim_spec, verbatim_start, captured,
    capture_end,
};
use crate::linear::{Linear};
use crate::non_linear::{NonLinearAds, NonLinear};
use crate::companion_ad::{CompanionAds};

verus! {


/// An extension of a creative: an optional `type` and content of any shape,
/// kept as the text it was written in. Any attribute but `type` is refused.
#[derive(Debug, Clone, PartialEq, Default)]
pub struct CreativeExtension {
    /// The MIME type of any code in the extension.
    pub mime_type: Option<String>,
    /// The content, as it was written.
    pub xml: String,
}

impl CreativeExtension {
    /// An extension that holds the text of `value`.
    pub fn from_struct<T: XmlElement>(mime_type: &str, value: &T) -> (r: Result<Self, DecodeError>)
        ensures
            r matches Ok(e) && e.mime_type matches Some(m) && m@ == mime_type@ && e.xml@
                == value.xml_spec(),
    {
        match to_string(value) {
            Ok(xml) => Ok(CreativeExtension { mime_type: Some(String::from_str(mime_type)), xml }),
            Err(e) => Err(e),
        }
    }

    /// Decodes the content as an element of type `T`.
    pub fn as_struct<T: XmlElement>(&self) -> (r: Result<T, DecodeError>)
        ensures
            exists|t: Tokens|
                #![trigger t.views()]
                t.views() == xml_tokens(self.xml@).0 && t.failure_view() == xml_tokens(self.xml@).1
                    && decoded_from(t, r),
    {
        from_str(self.xml.as_str())
    }
}

impl XmlElement for CreativeExtension {
    open spec fn tag() -> Seq<char> {
        "CreativeExtension"@
    }

    open spec fn knows(key: Seq<char>) -> bool {
        key == "type"@
    }

    open spec fn attrs_read(&self, t: &Tokens, s: int, e: int) -> bool {
        opt_view(self.mime_type) == t.attr_text(s, e, "type"@)
    }

    open spec fn content_read(&self, t: &Tokens, e: int, q: int) -> bool {
        self.xml@ == captured(t, e + 1, capture_end(t, e + 1, 0, "CreativeExtension"@))
    }

    open spec fn read_ok(t: &Tokens, pos: int) -> bool {
        verbatim_ok(t, pos, "CreativeExtension"@)
    }

    open spec fn read_refused(t: &Tokens, pos: int) -> bool {
        !verbatim_ok(t, pos, "CreativeExtension"@)
    }

    open spec fn xml_spec(&self) -> Seq<char> {
        verbatim_spec("CreativeExtension"@, opt_view(self.mime_type), self.xml@)
    }

    fn read(t: &Tokens, pos: usize) -> (r: Result<(Self, usize), DecodeError>) {
        let (mime_type, xml, q) = read_verbatim(t, pos, "CreativeExtension")?;
        let v = CreativeExtension { mime_type, xml };
        proof {
            let (s, e) = choose|s: int, e: int|
                pos <= s && e < q && #[trigger] verbatim_start(t, s, e, "CreativeExtension"@) && t.till_start(
                    pos as int,
                    "CreativeExtension"@,
                ) == Some(s + 1) && e == t.attrs_end(s + 1) && q == (if capture_end(t, e + 1, 0, "CreativeExtension"@)
                    < t.len() {
                    capture_end(t, e + 1, 0, "CreativeExtension"@) + 1
                } else {
                    t.len() as int
                }) && captured(t, e + 1, capture_end(t, e + 1, 0, "CreativeExtension"@)) == v.xml@ && opt_view(
                    v.mime_type,
                ) == t.attr_text(s, e, "type"@);
            assert(t.start_tag(s, e, "CreativeExtension"@));
            assert forall|i: int| s < i < e implies Self::knows(#[trigger] t.key(i)) by {
                assert(t.kind(i) == TokenKind::Attribute);
            }
            assert(v.attrs_read(t, s, e));
            assert(v.content_read(t, e, q as int));
        }
        Ok((v, q))
    }

    fn write(&self, out: &mut String) {
        write_verbatim(out, "CreativeExtension", &self.mime_type, self.xml.as_str());
        assert(opt_view(self.mime_type) == match self.mime_type {
            Some(m) => Some(m@),
            None => None,
        });
    }
}

/// The creatives of an ad.
#[derive(Debug, Clone, PartialEq, Default)]
pub struct Creatives {
    /// One or more creatives.
    pub creatives: Vec<Creative>,
}

impl XmlElement for Creatives {
    open spec fn tag() -> Seq<char> {
        "Creatives"@
    }

    open spec fn knows(key: Seq<char>) -> bool {
        false
    }

    open spec fn attrs_read(&self, t: &Tokens, s: int, e: int) -> bool {
        true
    }

    open spec fn content_read(&self, t: &Tokens, e: int, q: int) -> bool {
        (forall|k: int| 0 <= k < self.creatives@.len() ==> read_within(*t, #[trigger] self.creatives@[k], e, q))
            && read_in_order(*t, self.creatives@, e)
            && exists|ws: Seq<(int, int, int)>|
                #[trigger] children_cover(*t, ws, e + 1, content_end(e, q), 1)
                && count_of(ws, 0) == self.creatives@.len()
                && count_of(ws, -1) == 0
    }

    open spec fn read_ok(t: &Tokens, pos: int) -> bool {
        false
    }

    open spec fn read_refused(t: &Tokens, pos: int) -> bool {
        t.start_malformed(pos, "Creatives"@) || match t.till_start(pos, "Creatives"@) {
            Some(a) => exists|i: int| a <= i < t.attrs_end(a) && !Self::knows(#[trigger] t.key(i)),
            None => false,
        }
    }

    open spec fn xml_spec(&self) -> Seq<char> {
        start_tag("Creatives"@)
            + (if self.creatives@.len() == 0 {
            seq!['/', '>']
        } else {
            seq!['>'] + seq_xml(self.creatives@) + end_tag("Creatives"@)
        })
    }

    fn read(t: &Tokens, pos: usize) -> (r: Result<(Self, usize), DecodeError>) {
        let n = t.items.len();
        let start = read_till_element_start(t, pos, "Creatives")?;
        let mut p = start;
        let mut creatives: Vec<Creative> = Vec::new();
        loop
            invariant
                n == t.len(),
                start <= p <= n,
                start == n || (pos < start && t.starts(start - 1, "Creatives"@)),
                forall|i: int| start <= i < p ==> #[trigger] t.kind(i) == TokenKind::Attribute && Self::knows(t.key(i)),
                t.till_start(pos as int, "Creatives"@) == Some(start as int),
                t.attrs_end(start as int) == t.attrs_end(p as int),
                forall|i: int| start <= i < p ==> #[trigger] t.attr_readable(i),
            ensures
                start <= p < n,
                pos < start && t.starts(start - 1, "Creatives"@),
                forall|i: int| start <= i < p ==> #[trigger] t.kind(i) == TokenKind::Attribute && Self::knows(t.key(i)),
                t.kind(p as int) == TokenKind::ElementEnd && !is_close_end(t.span(p as int)),
                t.till_start(pos as int, "Creatives"@) == Some(start as int),
                t.attrs_end(start as int) == p,
                forall|i: int| start <= i < p ==> #[trigger] t.attr_readable(i),
            decreases n - p,
        {
            proof {
                lemma_attrs_end_bounds(t, p as int);
            }
            let (found, q) = find_attribute(t, p)?;
            match found {
                None => {
                    break;
                },
                Some((key, value)) => {
                    p = q;
                    return Err(unknown_field("Creatives", key));
                },
            }
        }
        let ghost e = p as int;
        let ghost mut ends_creatives: Seq<int> = Seq::empty();
        proof {
            lemma_ends_empty(*t, creatives@, e);
        }
        let empty = is_empty_end_of(&t.items[p]);
        p = p + 1;
        let ghost mut ws: Seq<(int, int, int)> = Seq::empty();
        proof {
            lemma_cover_empty(*t, e + 1, 1);
        }
        if !empty {
            loop
                invariant_except_break
                    children_cover(*t, ws, e + 1, p as int, 1),
                    prev_end(ws, e + 1, ws.len() as int) == p,
                invariant
                    n == t.len(),
                    pos < p <= n,
                    e < p,
                    (forall|k: int| 0 <= k < creatives@.len() ==> read_within(*t, #[trigger] creatives@[k], e, p as int)),
                    ends_fit(*t, creatives@, e, ends_creatives),
                    part_start(ends_creatives, e, creatives@.len() as int) <= p,
                    count_of(ws, 0) == creatives@.len(),
                    count_of(ws, -1) == 0,
                ensures
                    pos < p <= n,
                    e < p,
                    children_cover(*t, ws, e + 1, content_end(e, p as int), 1),
                    (forall|k: int| 0 <= k < creatives@.len() ==> read_within(*t, #[trigger] creatives@[k], e, p as int)),
                    ends_fit(*t, creatives@, e, ends_creatives),
                    part_start(ends_creatives, e, creatives@.len() as int) <= p,
                    count_of(ws, 0) == creatives@.len(),
                    count_of(ws, -1) == 0,

                decreases n - p,
            {
                let (found, q) = find_element_start(t, p, "Creatives")?;
                match found {
                    None => {
                        proof {
                            lemma_cover_extend(*t, ws, e + 1, p as int, q as int - 1, 1);
                        }
                        p = q;
                        break;
                    },
                    Some(tag) => {
                        if str_eq(tag.as_str(), "Creative") {
                            let (v, q2) = Creative::read(t, q)?;
                            proof {
                                assert(read_within(*t, v, q as int, q2 as int));
                                lemma_read_within_widen(*t, v, q as int, q2 as int, part_start(ends_creatives, e, creatives@.len() as int), q2 as int);
                                lemma_ends_push(*t, creatives@, v, e, ends_creatives, q2 as int);
                                ends_creatives = ends_creatives.push(q2 as int);
                            }
                            creatives.push(v);
                            proof {
                                lemma_cover_push(*t, ws, e + 1, p as int, (q as int, q2 as int, 0), 1);
                                ws = ws.push((q as int, q2 as int, 0));
                            }
                            p = q2;
                        } else {
                            return Err(unknown_field("Creatives", tag));
                        }
                    },
                }
            }
        }
        assert(children_cover(*t, ws, e + 1, content_end(e, p as int), 1));
        if creatives.len() == 0 {
            return Err(missing_field("Creatives", "creatives"));
        }
        assert(t.start_tag(start - 1, e, "Creatives"@));
        assert(t.till_start(pos as int, "Creatives"@) == Some(start as int));
        assert forall|i: int| start - 1 < i < e implies Self::knows(#[trigger] t.key(i)) by {
            assert(t.kind(i) == TokenKind::Attribute);
        }
        assert forall|i: int| start <= i < e implies #[trigger] t.attr_readable(i) && Self::knows(t.key(i)) by {
            assert(t.kind(i) == TokenKind::Attribute);
        }
        let v = Creatives { creatives };
        assert(v.content_read(t, e, p as int));
        Ok((v, p))
    }

    fn write(&self, out: &mut String) {
        write_start(out, "Creatives");
        let ghost mut head = start_tag("Creatives"@);
        if self.creatives.len() == 0 {
            write_empty_end(out);
        } else {
            let ghost mid = out@;
            let ghost mut body = seq!['>'];
            write_open_end(out);
            write_all(out, &self.creatives);
            proof {
                let piece = seq_xml(self.creatives@);
                lemma_append(mid, body, piece);
                body = body + piece;
            }
            write_end(out, "Creatives");
            proof {
                lemma_append(mid, body, end_tag("Creatives"@));
                lemma_append(old(out)@, head, body + end_tag("Creatives"@));
            }
        }
    }
}

/// One creative of an ad: its identifiers and at most one linear or non-linear
/// part, with companions.
#[derive(Debug, Clone, PartialEq, Default)]
pub struct Creative {
    /// The order in which the creative plays.
    pub sequence: Option<i32>,
    /// The API needed to run the creative.
    pub api_framework: Option<String>,
    /// An ad server id of the creative.
    pub id: Option<String>,
    /// The ad server's unique id of the creative.
    pub ad_id: Option<String>,
    /// The companion ads.
    pub companion_ads: Option<CompanionAds>,
    /// Creative extensions.
    pub creative_extensions: Option<CreativeExtensions>,
    /// The linear part.
    pub linear: Option<Linear>,
    /// The non-linear part.
    pub non_linear_ads: Option<NonLinearAds>,
    /// Identifiers kept across systems.
    pub universal_ad_id: Vec<UniversalAdId>,
}

impl XmlElement for Creative {
    open spec fn tag() -> Seq<char> {
        "Creative"@
    }

    open spec fn knows(key: Seq<char>) -> bool {
        key == "sequence"@ || key == "apiFramework"@ || key == "id"@ || key == "adId"@
    }

    open spec fn attrs_read(&self, t: &Tokens, s: int, e: int) -> bool {
        (self.sequence == match t.attr_text(s, e, "sequence"@) {
            Some(v) => parse_i32_spec(v),
            None => None,
        })
            && (opt_view(self.api_framework) == t.attr_text(s, e, "apiFramework"@))
            && (opt_view(self.id) == t.attr_text(s, e, "id"@))
            && (opt_view(self.ad_id) == t.attr_text(s, e, "adId"@))
    }

    open spec fn content_read(&self, t: &Tokens, e: int, q: int) -> bool {
        (self.companion_ads matches Some(c) ==> read_within(*t, c, e, q))
            && (self.creative_extensions matches Some(c) ==> read_within(*t, c, e, q))
            && (self.linear matches Some(c) ==> read_within(*t, c, e, q))
            && (self.non_linear_ads matches Some(c) ==> read_within(*t, c, e, q))
            && (forall|k: int| 0 <= k < self.universal_ad_id@.len() ==> read_within(*t, #[trigger] self.universal_ad_id@[k], e, q))
            && read_in_order(*t, self.universal_ad_id@, e)
            && exists|ws: Seq<(int, int, int)>|
                #[trigger] children_cover(*t, ws, e + 1, content_end(e, q), 5)
                && count_of(ws, 0) == (if self.companion_ads is Some { 1nat } else { 0nat })
                && count_of(ws, 1) == (if self.creative_extensions is Some { 1nat } else { 0nat })
                && count_of(ws, 2) == (if self.linear is Some { 1nat } else { 0nat })
                && count_of(ws, 3) == (if self.non_linear_ads is Some { 1nat } else { 0nat })
                && count_of(ws, 4) == self.universal_ad_id@.len()
                && count_of(ws, -1) == 0
    }

    open spec fn read_ok(t: &Tokens, pos: int) -> bool {
        false
    }

    open spec fn read_refused(t: &Tokens, pos: int) -> bool {
        t.start_malformed(pos, "Creative"@) || match t.till_start(pos, "Creative"@) {
            Some(a) => exists|i: int| a <= i < t.attrs_end(a) && !Self::knows(#[trigger] t.key(i)),
            None => false,
        }
    }

    open spec fn xml_spec(&self) -> Seq<char> {
        start_tag("Creative"@)
            + opt_attribute("sequence"@, opt_i32_text(self.sequence))
            + opt_attribute("apiFramework"@, opt_view(self.api_framework))
            + opt_attribute("id"@, opt_view(self.id))
            + opt_attribute("adId"@, opt_view(self.ad_id))
            + (if self.companion_ads is None && self.creative_extensions is None && self.linear is None && self.non_linear_ads is None && self.universal_ad_id@.len() == 0 {
            seq!['/', '>']
        } else {
            seq!['>'] + opt_xml(self.companion_ads) + opt_xml(self.creative_extensions) + opt_xml(self.linear) + opt_xml(self.non_linear_ads) + seq_xml(self.universal_ad_id@) + end_tag("Creative"@)
        })
    }

    #[verifier::rlimit(100)]
    #[verifier::spinoff_prover]
    fn read(t: &Tokens, pos: usize) -> (r: Result<(Self, usize), DecodeError>) {
        let n = t.items.len();
        let start = read_till_element_start(t, pos, "Creative")?;
        let mut p = start;
        let mut sequence: Option<i32> = None;
        let mut api_framework: Option<String> = None;
        let mut id: Option<String> = None;
        let mut ad_id: Option<String> = None;
        let mut companion_ads: Option<CompanionAds> = None;
        let mut creative_extensions: Option<CreativeExtensions> = None;
        let mut linear: Option<Linear> = None;
        let mut non_linear_ads: Option<NonLinearAds> = None;
        let mut universal_ad_id: Vec<UniversalAdId> = Vec::new();
        loop
            invariant
                n == t.len(),
                start <= p <= n,
                start == n || (pos < start && t.starts(start - 1, "Creative"@)),
                forall|i: int| start <= i < p ==> #[trigger] t.kind(i) == TokenKind::Attribute && Self::knows(t.key(i)),
                t.till_start(pos as int, "Creative"@) == Some(start as int),
                t.attrs_end(start as int) == t.attrs_end(p as int),
                forall|i: int| start <= i < p ==> #[trigger] t.attr_readable(i),
                sequence == match t.attr_text(start - 1, p as int, "sequence"@) {
                    Some(v) => parse_i32_spec(v),
                    None => None,
                },
                opt_view(api_framework) == t.attr_text(start - 1, p as int, "apiFramework"@),
                opt_view(id) == t.attr_text(start - 1, p as int, "id"@),
                opt_view(ad_id) == t.attr_text(start - 1, p as int, "adId"@),
            ensures
                start <= p < n,
                pos < start && t.starts(start - 1, "Creative"@),
                forall|i: int| start <= i < p ==> #[trigger] t.kind(i) == TokenKind::Attribute && Self::knows(t.key(i)),
                t.kind(p as int) == TokenKind::ElementEnd && !is_close_end(t.span(p as int)),
                t.till_start(pos as int, "Creative"@) == Some(start as int),
                t.attrs_end(start as int) == p,
                forall|i: int| start <= i < p ==> #[trigger] t.attr_readable(i),
                sequence == match t.attr_text(start - 1, p as int, "sequence"@) {
                    Some(v) => parse_i32_spec(v),
                    None => None,
                },
                opt_view(api_framework) == t.attr_text(start - 1, p as int, "apiFramework"@),
                opt_view(id) == t.attr_text(start - 1, p as int, "id"@),
                opt_view(ad_id) == t.attr_text(start - 1, p as int, "adId"@),
            decreases n - p,
        {
            proof {
                lemma_attrs_end_bounds(t, p as int);
            }
            let (found, q) = find_attribute(t, p)?;
            match found {
                None => {
                    break;
                },
                Some((key, value)) => {
                    p = q;
                    proof {
                        reveal_strlit("sequence");
                        reveal_strlit("apiFramework");
                        reveal_strlit("id");
                        reveal_strlit("adId");
                        assert("sequence"@.len() == 8);
                        assert("apiFramework"@.len() == 12);
                        assert("id"@.len() == 2);
                        assert("adId"@.len() == 4);
                    }
                    if str_eq(key.as_str(), "sequence") {
                        if sequence.is_some() {
                            return Err(duplicate_attribute("sequence"));
                        }
                        sequence = Some(parse_int(value.as_str())?);
                    } else if str_eq(key.as_str(), "apiFramework") {
                        if api_framework.is_some() {
                            return Err(duplicate_attribute("apiFramework"));
                        }
                        api_framework = Some(value);
                    } else if str_eq(key.as_str(), "id") {
                        if id.is_some() {
                            return Err(duplicate_attribute("id"));
                        }
                        id = Some(value);
                    } else if str_eq(key.as_str(), "adId") {
                        if ad_id.is_some() {
                            return Err(duplicate_attribute("adId"));
                        }
                        ad_id = Some(value);
                    } else {
                        return Err(unknown_field("Creative", key));
                    }
                },
            }
        }
        let ghost e = p as int;
        let ghost mut ends_universal_ad_id: Seq<int> = Seq::empty();
        proof {
            lemma_ends_empty(*t, universal_ad_id@, e);
        }
        let empty = is_empty_end_of(&t.items[p]);
        p = p + 1;
        let ghost mut ws: Seq<(int, int, int)> = Seq::empty();
        proof {
            lemma_cover_empty(*t, e + 1, 5);
        }
        if !empty {
            loop
                invariant_except_break
                    children_cover(*t, ws, e + 1, p as int, 5),
                    prev_end(ws, e + 1, ws.len() as int) == p,
                invariant
                    n == t.len(),
                    pos < p <= n,
                    e < p,
                    (companion_ads matches Some(c) ==> read_within(*t, c, e, p as int)),
                    (creative_extensions matches Some(c) ==> read_within(*t, c, e, p as int)),
                    (linear matches Some(c) ==> read_within(*t, c, e, p as int)),
                    (non_linear_ads matches Some(c) ==> read_within(*t, c, e, p as int)),
                    (forall|k: int| 0 <= k < universal_ad_id@.len() ==> read_within(*t, #[trigger] universal_ad_id@[k], e, p as int)),
                    ends_fit(*t, universal_ad_id@, e, ends_universal_ad_id),
                    part_start(ends_universal_ad_id, e, universal_ad_id@.len() as int) <= p,
                    count_of(ws, 0) == (if companion_ads is Some { 1nat } else { 0nat }),
                    count_of(ws, 1) == (if creative_extensions is Some { 1nat } else { 0nat }),
                    count_of(ws, 2) == (if linear is Some { 1nat } else { 0nat }),
                    count_of(ws, 3) == (if non_linear_ads is Some { 1nat } else { 0nat }),
                    count_of(ws, 4) == universal_ad_id@.len(),
                    count_of(ws, -1) == 0,
                ensures
                    pos < p <= n,
                    e < p,
                    children_cover(*t, ws, e + 1, content_end(e, p as int), 5),
                    (companion_ads matches Some(c) ==> read_within(*t, c, e, p as int)),
                    (creative_extensions matches Some(c) ==> read_within(*t, c, e, p as int)),
                    (linear matches Some(c) ==> read_within(*t, c, e, p as int)),
                    (non_linear_ads matches Some(c) ==> read_within(*t, c, e, p as int)),
                    (forall|k: int| 0 <= k < universal_ad_id@.len() ==> read_within(*t, #[trigger] universal_ad_id@[k], e, p as int)),
                    ends_fit(*t, universal_ad_id@, e, ends_universal_ad_id),
                    part_start(ends_universal_ad_id, e, universal_ad_id@.len() as int) <= p,
                    count_of(ws, 0) == (if companion_ads is Some { 1nat } else { 0nat }),
                    count_of(ws, 1) == (if creative_extensions is Some { 1nat } else { 0nat }),
                    count_of(ws, 2) == (if linear is Some { 1nat } else { 0nat }),
                    count_of(ws, 3) == (if non_linear_ads is Some { 1nat } else { 0nat }),
                    count_of(ws, 4) == universal_ad_id@.len(),
                    count_of(ws, -1) == 0,

                decreases n - p,
            {
                let (found, q) = find_element_start(t, p, "Creative")?;
                match found {
                    None => {
                        proof {
                            lemma_cover_extend(*t, ws, e + 1, p as int, q as int - 1, 5);
                        }
                        p = q;
                        break;
                    },
                    Some(tag) => {
                        if str_eq(tag.as_str(), "CompanionAds") {
                            if companion_ads.is_some() {
                                return Err(duplicate_element("CompanionAds"));
                            }
                            let (v, q2) = CompanionAds::read(t, q)?;
                            companion_ads = Some(v);
                            proof {
                                lemma_cover_push(*t, ws, e + 1, p as int, (q as int, q2 as int, 0), 5);
                                ws = ws.push((q as int, q2 as int, 0));
                            }
                            p = q2;
                        } else if str_eq(tag.as_str(), "CreativeExtensions") {
                            if creative_extensions.is_some() {
                                return Err(duplicate_element("CreativeExtensions"));
                            }
                            let (v, q2) = CreativeExtensions::read(t, q)?;
                            creative_extensions = Some(v);
                            proof {
                                lemma_cover_push(*t, ws, e + 1, p as int, (q as int, q2 as int, 1), 5);
                                ws = ws.push((q as int, q2 as int, 1));
                            }
                            p = q2;
                        } else if str_eq(tag.as_str(), "Linear") {
                            if linear.is_some() {
                                return Err(duplicate_element("Linear"));
                            }
                            let (v, q2) = Linear::read(t, q)?;
                            linear = Some(v);
                            proof {
                                lemma_cover_push(*t, ws, e + 1, p as int, (q as int, q2 as int, 2), 5);
                                ws = ws.push((q as int, q2 as int, 2));
                            }
                            p = q2;
                        } else if str_eq(tag.as_str(), "NonLinearAds") {
                            if non_linear_ads.is_some() {
                                return Err(duplicate_element("NonLinearAds"));
                            }
                            let (v, q2) = NonLinearAds::read(t, q)?;
                            non_linear_ads = Some(v);
                            proof {
                                lemma_cover_push(*t, ws, e + 1, p as int, (q as int, q2 as int, 3), 5);
                                ws = ws.push((q as int, q2 as int, 3));
                            }
                            p = q2;
                        } else if str_eq(tag.as_str(), "UniversalAdId") {
                            let (v, q2) = UniversalAdId::read(t, q)?;
                            proof {
                                assert(read_within(*t, v, q as int, q2 as int));
                                lemma_read_within_widen(*t, v, q as int, q2 as int, part_start(ends_universal_ad_id, e, universal_ad_id@.len() as int), q2 as int);
                                lemma_ends_push(*t, universal_ad_id@, v, e, ends_universal_ad_id, q2 as int);
                                ends_universal_ad_id = ends_universal_ad_id.push(q2 as int);
                            }
                            universal_ad_id.push(v);
                            proof {
                                lemma_cover_push(*t, ws, e + 1, p as int, (q as int, q2 as int, 4), 5);
                                ws = ws.push((q as int, q2 as int, 4));
                            }
                            p = q2;
                        } else {
                            return Err(unknown_field("Creative", tag));
                        }
                    },
                }
            }
        }
        assert(children_cover(*t, ws, e + 1, content_end(e, p as int), 5));
        assert(t.start_tag(start - 1, e, "Creative"@));
        assert(t.till_start(pos as int, "Creative"@) == Some(start as int));
        assert forall|i: int| start - 1 < i < e implies Self::knows(#[trigger] t.key(i)) by {
            assert(t.kind(i) == TokenKind::Attribute);
        }
        assert forall|i: int| start <= i < e implies #[trigger] t.attr_readable(i) && Self::knows(t.key(i)) by {
            assert(t.kind(i) == TokenKind::Attribute);
        }
        let v = Creative { sequence, api_framework, id, ad_id, companion_ads, creative_extensions, linear, non_linear_ads, universal_ad_id };
        assert(v.attrs_read(t, start - 1, e));
        assert(v.content_read(t, e, p as int));
        Ok((v, p))
    }

    #[verifier::rlimit(40)]
    fn write(&self, out: &mut String) {
        write_start(out, "Creative");
        let ghost mut head = start_tag("Creative"@);
        write_opt_int_attribute(out, "sequence", self.sequence);
        proof {
            let piece = opt_attribute("sequence"@, opt_i32_text(self.sequence));
            lemma_append(old(out)@, head, piece);
            head = head + piece;
        }
        write_opt_attribute(out, "apiFramework", &self.api_framework);
        proof {
            let piece = opt_attribute("apiFramework"@, opt_view(self.api_framework));
            lemma_append(old(out)@, head, piece);
            head = head + piece;
        }
        write_opt_attribute(out, "id", &self.id);
        proof {
            let piece = opt_attribute("id"@, opt_view(self.id));
            lemma_append(old(out)@, head, piece);
            head = head + piece;
        }
        write_opt_attribute(out, "adId", &self.ad_id);
        proof {
            let piece = opt_attribute("adId"@, opt_view(self.ad_id));
            lemma_append(old(out)@, head, piece);
            head = head + piece;
        }
        if self.companion_ads.is_none() && self.creative_extensions.is_none() && self.linear.is_none() && self.non_linear_ads.is_none() && self.universal_ad_id.len() == 0 {
            write_empty_end(out);
        } else {
            let ghost mid = out@;
            let ghost mut body = seq!['>'];
            write_open_end(out);
            write_opt(out, &self.companion_ads);
            proof {
                let piece = opt_xml(self.companion_ads);
                lemma_append(mid, body, piece);
                body = body + piece;
            }
            write_opt(out, &self.creative_extensions);
            proof {
                let piece = opt_xml(self.creative_extensions);
                lemma_append(mid, body, piece);
                body = body + piece;
            }
            write_opt(out, &self.linear);
            proof {
                let piece = opt_xml(self.linear);
                lemma_append(mid, body, piece);
                body = body + piece;
            }
            write_opt(out, &self.non_linear_ads);
            proof {
                let piece = opt_xml(self.non_linear_ads);
                lemma_append(mid, body, piece);
                body = body + piece;
            }
            write_all(out, &self.universal_ad_id);
            proof {
                let piece = seq_xml(self.universal_ad_id@);
                lemma_append(mid, body, piece);
                body = body + piece;
            }
            write_end(out, "Creative");
            proof {
                lemma_append(mid, body, end_tag("Creative"@));
                lemma_append(old(out)@, head, body + end_tag("Creative"@));
            }
        }
    }
}

/// An identifier of the creative that is kept across systems.
#[derive(Debug, Clone, PartialEq, Default)]
pub struct UniversalAdId {
    /// The registry of the id; "unknown" where absent.
    pub id_registry: String,
    /// The identifier.
    pub id: String,
}

impl XmlElement for UniversalAdId {
    open spec fn tag() -> Seq<char> {
        "UniversalAdId"@
    }

    open spec fn knows(key: Seq<char>) -> bool {
        key == "idRegistry"@
    }

    open spec fn attrs_read(&self, t: &Tokens, s: int, e: int) -> bool {
        (self.id_registry@ == match t.attr_text(s, e, "idRegistry"@) {
            Some(v) => v,
            None => "unknown"@,
        })
    }

    open spec fn content_read(&self, t: &Tokens, e: int, q: int) -> bool {
        self.id@ == t.text_of(e, q)
    }

    open spec fn read_ok(t: &Tokens, pos: int) -> bool {
        false
    }

    open spec fn read_refused(t: &Tokens, pos: int) -> bool {
        t.start_malformed(pos, "UniversalAdId"@) || match t.till_start(pos, "UniversalAdId"@) {
            Some(a) => exists|i: int| a <= i < t.attrs_end(a) && !Self::knows(#[trigger] t.key(i)),
            None => false,
        }
    }

    open spec fn xml_spec(&self) -> Seq<char> {
        start_tag("UniversalAdId"@)
            + attribute("idRegistry"@, self.id_registry@)
            + (seq!['>'] + escape_spec(self.id@) + end_tag("UniversalAdId"@))
    }

    fn read(t: &Tokens, pos: usize) -> (r: Result<(Self, usize), DecodeError>) {
        let n = t.items.len();
        let start = read_till_element_start(t, pos, "UniversalAdId")?;
        let mut p = start;
        let mut id_registry: Option<String> = None;
        loop
            invariant
                n == t.len(),
                start <= p <= n,
                start == n || (pos < start && t.starts(start - 1, "UniversalAdId"@)),
                forall|i: int| start <= i < p ==> #[trigger] t.kind(i) == TokenKind::Attribute && Self::knows(t.key(i)),
                t.till_start(pos as int, "UniversalAdId"@) == Some(start as int),
                t.attrs_end(start as int) == t.attrs_end(p as int),
                forall|i: int| start <= i < p ==> #[trigger] t.attr_readable(i),
                opt_view(id_registry) == t.attr_text(start - 1, p as int, "idRegistry"@),
            ensures
                start <= p < n,
                pos < start && t.starts(start - 1, "UniversalAdId"@),
                forall|i: int| start <= i < p ==> #[trigger] t.kind(i) == TokenKind::Attribute && Self::knows(t.key(i)),
                t.kind(p as int) == TokenKind::ElementEnd && !is_close_end(t.span(p as int)),
                t.till_start(pos as int, "UniversalAdId"@) == Some(start as int),
                t.attrs_end(start as int) == p,
                forall|i: int| start <= i < p ==> #[trigger] t.attr_readable(i),
                opt_view(id_registry) == t.attr_text(start - 1, p as int, "idRegistry"@),
            decreases n - p,
        {
            proof {
                lemma_attrs_end_bounds(t, p as int);
            }
            let (found, q) = find_attribute(t, p)?;
            match found {
                None => {
                    break;
                },
                Some((key, value)) => {
                    p = q;
                    proof {
                        reveal_strlit("idRegistry");
                        assert("idRegistry"@.len() == 10);
                    }
                    if str_eq(key.as_str(), "idRegistry") {
                        if id_registry.is_some() {
                            return Err(duplicate_attribute("idRegistry"));
                        }
                        id_registry = Some(value);
                    } else {
                        return Err(unknown_field("UniversalAdId", key));
                    }
                },
            }
        }
        let ghost e = p as int;
        let (text, q) = read_text(t, p, "UniversalAdId")?;
        p = q;
        let id_registry = match id_registry {
            Some(v) => v,
            None => String::from_str("unknown"),
        };
        assert(t.start_tag(start - 1, e, "UniversalAdId"@));
        assert(t.till_start(pos as int, "UniversalAdId"@) == Some(start as int));
        assert forall|i: int| start - 1 < i < e implies Self::knows(#[trigger] t.key(i)) by {
            assert(t.kind(i) == TokenKind::Attribute);
        }
        assert forall|i: int| start <= i < e implies #[trigger] t.attr_readable(i) && Self::knows(t.key(i)) by {
            assert(t.kind(i) == TokenKind::Attribute);
        }
        let v = UniversalAdId { id_registry, id: text };
        assert(v.attrs_read(t, start - 1, e));
        Ok((v, p))
    }

    fn write(&self, out: &mut String) {
        write_start(out, "UniversalAdId");
        let ghost mut head = start_tag("UniversalAdId"@);
        write_attribute(out, "idRegistry", self.id_registry.as_str());
        proof {
            let piece = attribute("idRegistry"@, self.id_registry@);
            lemma_append(old(out)@, head, piece);
            head = head + piece;
        }
        let ghost mid = out@;
        let ghost mut body = seq!['>'];
        write_open_end(out);
        write_text(out, self.id.as_str(), false);
        proof {
            let piece = escape_spec(self.id@);
            lemma_append(mid, body, piece);
            body = body + piece;
        }
        write_end(out, "UniversalAdId");
        proof {
            lemma_append(mid, body, end_tag("UniversalAdId"@));
            lemma_append(old(out)@, head, body + end_tag("UniversalAdId"@));
        }
    }
}

/// The extensions of a creative.
#[derive(Debug, Clone, PartialEq, Default)]
pub struct CreativeExtensions {
    /// Zero or more extensions.
    pub creative_extensions: Vec<CreativeExtension>,
}

impl XmlElement for CreativeExtensions {
    open spec fn tag() -> Seq<char> {
        "CreativeExtensions"@
    }

    open spec fn knows(key: Seq<char>) -> bool {
        false
    }

    open spec fn attrs_read(&self, t: &Tokens, s: int, e: int) -> bool {
        true
    }

    open spec fn content_read(&self, t: &Tokens, e: int, q: int) -> bool {
        (forall|k: int| 0 <= k < self.creative_extensions@.len() ==> read_within(*t, #[trigger] self.creative_extensions@[k], e, q))
            && read_in_order(*t, self.creative_extensions@, e)
            && exists|ws: Seq<(int, int, int)>|
                #[trigger] children_cover(*t, ws, e + 1, content_end(e, q), 1)
                && count_of(ws, 0) == self.creative_extensions@.len()
                && count_of(ws, -1) == 0
    }

    open spec fn read_ok(t: &Tokens, pos: int) -> bool {
        false
    }

    open spec fn read_refused(t: &Tokens, pos: int) -> bool {
        t.start_malformed(pos, "CreativeExtensions"@) || match t.till_start(pos, "CreativeExtensions"@) {
            Some(a) => exists|i: int| a <= i < t.attrs_end(a) && !Self::knows(#[trigger] t.key(i)),
            None => false,
        }
    }

    open spec fn xml_spec(&self) -> Seq<char> {
        start_tag("CreativeExtensions"@)
            + (if self.creative_extensions@.len() == 0 {
            seq!['/', '>']
        } else {
            seq!['>'] + seq_xml(self.creative_extensions@) + end_tag("CreativeExtensions"@)
        })
    }

    fn read(t: &Tokens, pos: usize) -> (r: Result<(Self, usize), DecodeError>) {
        let n = t.items.len();
        let start = read_till_element_start(t, pos, "CreativeExtensions")?;
        let mut p = start;
        let mut creative_extensions: Vec<CreativeExtension> = Vec::new();
        loop
            invariant
                n == t.len(),
                start <= p <= n,
                start == n || (pos < start && t.starts(start - 1, "CreativeExtensions"@)),
                forall|i: int| start <= i < p ==> #[trigger] t.kind(i) == TokenKind::Attribute && Self::knows(t.key(i)),
                t.till_start(pos as int, "CreativeExtensions"@) == Some(start as int),
                t.attrs_end(start as int) == t.attrs_end(p as int),
                forall|i: int| start <= i < p ==> #[trigger] t.attr_readable(i),
            ensures
                start <= p < n,
                pos < start && t.starts(start - 1, "CreativeExtensions"@),
                forall|i: int| start <= i < p ==> #[trigger] t.kind(i) == TokenKind::Attribute && Self::knows(t.key(i)),
                t.kind(p as int) == TokenKind::ElementEnd && !is_close_end(t.span(p as int)),
                t.till_start(pos as int, "CreativeExtensions"@) == Some(start as int),
                t.attrs_end(start as int) == p,
                forall|i: int| start <= i < p ==> #[trigger] t.attr_readable(i),
            decreases n - p,
        {
            proof {
                lemma_attrs_end_bounds(t, p as int);
            }
            let (found, q) = find_attribute(t, p)?;
            match found {
                None => {
                    break;
                },
                Some((key, value)) => {
                    p = q;
                    return Err(unknown_field("CreativeExtensions", key));
                },
            }
        }
        let ghost e = p as int;
        let ghost mut ends_creative_extensions: Seq<int> = Seq::empty();
        proof {
            lemma_ends_empty(*t, creative_extensions@, e);
        }
        let empty = is_empty_end_of(&t.items[p]);
        p = p + 1;
        let ghost mut ws: Seq<(int, int, int)> = Seq::empty();
        proof {
            lemma_cover_empty(*t, e + 1, 1);
        }
        if !empty {
            loop
                invariant_except_break
                    children_cover(*t, ws, e + 1, p as int, 1),
                    prev_end(ws, e + 1, ws.len() as int) == p,
                invariant
                    n == t.len(),
                    pos < p <= n,
                    e < p,
                    (forall|k: int| 0 <= k < creative_extensions@.len() ==> read_within(*t, #[trigger] creative_extensions@[k], e, p as int)),
                    ends_fit(*t, creative_extensions@, e, ends_creative_extensions),
                    part_start(ends_creative_extensions, e, creative_extensions@.len() as int) <= p,
                    count_of(ws, 0) == creative_extensions@.len(),
                    count_of(ws, -1) == 0,
                ensures
                    pos < p <= n,
                    e < p,
                    children_cover(*t, ws, e + 1, content_end(e, p as int), 1),
                    (forall|k: int| 0 <= k < creative_extensions@.len() ==> read_within(*t, #[trigger] creative_extensions@[k], e, p as int)),
                    ends_fit(*t, creative_extensions@, e, ends_creative_extensions),
                    part_start(ends_creative_extensions, e, creative_extensions@.len() as int) <= p,
                    count_of(ws, 0) == creative_extensions@.len(),
                    count_of(ws, -1) == 0,

                decreases n - p,
            {
                let (found, q) = find_element_start(t, p, "CreativeExtensions")?;
                match found {
                    None => {
                        proof {
                            lemma_cover_extend(*t, ws, e + 1, p as int, q as int - 1, 1);
                        }
                        p = q;
                        break;
                    },
                    Some(tag) => {
                        if str_eq(tag.as_str(), "CreativeExtension") {
                            let (v, q2) = CreativeExtension::read(t, q)?;
                            proof {
                                assert(read_within(*t, v, q as int, q2 as int));
                                lemma_read_within_widen(*t, v, q as int, q2 as int, part_start(ends_creative_extensions, e, creative_extensions@.len() as int), q2 as int);
                                lemma_ends_push(*t, creative_extensions@, v, e, ends_creative_extensions, q2 as int);
                                ends_creative_extensions = ends_creative_extensions.push(q2 as int);
                            }
                            creative_extensions.push(v);
                            proof {
                                lemma_cover_push(*t, ws, e + 1, p as int, (q as int, q2 as int, 0), 1);
                                ws = ws.push((q as int, q2 as int, 0));
                            }
                            p = q2;
                        } else {
                            return Err(unknown_field("CreativeExtensions", tag));
                        }
                    },
                }
            }
        }
        assert(children_cover(*t, ws, e + 1, content_end(e, p as int), 1));
        assert(t.start_tag(start - 1, e, "CreativeExtensions"@));
        assert(t.till_start(pos as int, "CreativeExtensions"@) == Some(start as int));
        assert forall|i: int| start - 1 < i < e implies Self::knows(#[trigger] t.key(i)) by {
            assert(t.kind(i) == TokenKind::Attribute);
        }
        assert forall|i: int| start <= i < e implies #[trigger] t.attr_readable(i) && Self::knows(t.key(i)) by {
            assert(t.kind(i) == TokenKind::Attribute);
        }
        let v = CreativeExtensions { creative_extensions };
        assert(v.content_read(t, e, p as int));
        Ok((v, p))
    }

    fn write(&self, out: &mut String) {
        write_start(out, "CreativeExtensions");
        let ghost mut head = start_tag("CreativeExtensions"@);
        if self.creative_extensions.len() == 0 {
            write_empty_end(out);
        } else {
            let ghost mid = out@;
            let ghost mut body = seq!['>'];
            write_open_end(out);
            write_all(out, &self.creative_extensions);
            proof {
                let piece = seq_xml(self.creative_extensions@);
                lemma_append(mid, body, piece);
                body = body + piece;
            }
            write_end(out, "CreativeExtensions");
            proof {
                lemma_append(mid, body, end_tag("CreativeExtensions"@));
                lemma_append(old(out)@, head, body + end_tag("CreativeExtensions"@));
            }
        }
    }
}

/// The part of a creative that decides how it plays, where it has at most
/// one: the linear and the non-linear part exclude each other, though a
/// document may hold both.
#[derive(Debug)]
pub enum CreativeKind<'a> {
    Linear(&'a Linear),
    NonLinear(&'a NonLinearAds),
    Neither,
}

impl Creative {
    /// The creative's kind as one value; `None` where it holds both a linear
    /// and a non-linear part.
    pub fn kind(&self) -> (r: Option<CreativeKind<'_>>)
        ensures
            r is None <==> self.linear is Some && self.non_linear_ads is Some,
            r matches Some(CreativeKind::Linear(x)) ==> self.linear == Some(*x),
            r matches Some(CreativeKind::NonLinear(x)) ==> self.non_linear_ads == Some(*x) && self.linear is None,
            r matches Some(CreativeKind::Neither) ==> self.linear is None && self.non_linear_ads is None,
    {
        match (&self.linear, &self.non_linear_ads) {
            (Some(_), Some(_)) => None,
            (Some(x), None) => Some(CreativeKind::Linear(x)),
            (None, Some(x)) => Some(CreativeKind::NonLinear(x)),
            (None, None) => Some(CreativeKind::Neither),
        }
    }
}

} // verus!
