//! `<InLine>`: an ad with all of its data, and the elements that only it holds.
use vstd::prelude::*;
use crate::codec::{
    XmlElement, lemma_ends_empty, lemma_text_ends_empty, read_within, read_in_order,
    texts_in_order, lemma_read_within_widen, lemma_ends_push, lemma_text_ends_push, ends_fit,
    text_ends_fit, part_start, text_within, int_within, lemma_append, seq_xml, opt_xml, seq_text,
    opt_text, opt_attribute, opt_view, opt_int_text, parse_int, scalar_error, missing_field,
    unknown_field, duplicate_attribute, duplicate_element, read_text_child, write_all, write_opt,
    write_text_elements, write_opt_text, write_opt_attribute, write_opt_int_text, from_str,
};
use crate::reader::{
    is_close_end, lemma_attrs_end_bounds, read_till_element_start, find_attribute,
    find_element_start, read_text, is_empty_end_of,
};
use crate::writer::{
    start_tag, attribute, end_tag, cdata, text_element, write_start, write_attribute,
    write_open_end, write_end, write_text, write_text_element,
};
use crate::xml::{DecodeError, TokenKind, Tokens, escape_spec};
use crate::viewable::{ViewableImpression};
use crate::creative::{Creatives};
use crate::verification::{AdVerifications, Verification};
use crate::extension::{Extensions};
use crate::error::{VastParseError, quoted_error};
use crate::text::{str_eq, eq_ignore_ascii_case, lower_ascii, lemma_lower_ascii_idempotent};

verus! {

/// The pricing model of an ad; read without regard to case, written in lower case.
#[derive(Debug, Clone, Copy, PartialEq, Eq, Structural, Default)]
pub enum PriceModel {
    /// Cost per mille.
    #[default]
    Cpm,
    /// Cost per click.
    Cpc,
    /// Cost per engagement.
    Cpe,
    /// Cost per view.
    Cpv,
}

impl PriceModel {
    /// The keyword that stands for the value in a document.
    pub open spec fn keyword(self) -> Seq<char> {
        match self {
            PriceModel::Cpm => "cpm"@,
            PriceModel::Cpc => "cpc"@,
            PriceModel::Cpe => "cpe"@,
            PriceModel::Cpv => "cpv"@,
        }
    }

    /// The value whose keyword equals `s` but for the case of ASCII letters.
    pub open spec fn parse_spec(s: Seq<char>) -> Option<PriceModel> {
        if lower_ascii(s) == lower_ascii("cpm"@) {
            Some(PriceModel::Cpm)
        } else if lower_ascii(s) == lower_ascii("cpc"@) {
            Some(PriceModel::Cpc)
        } else if lower_ascii(s) == lower_ascii("cpe"@) {
            Some(PriceModel::Cpe)
        } else if lower_ascii(s) == lower_ascii("cpv"@) {
            Some(PriceModel::Cpv)
        } else {
            None
        }
    }

    /// Reads a keyword.
    pub fn from_str(s: &str) -> (r: Result<Self, VastParseError>)
        ensures
            r matches Ok(v) ==> Self::parse_spec(s@) == Some(v),
            r matches Err(e) ==> Self::parse_spec(s@) is None && e.input@ == quoted_error(
                "price model parsing error: "@,
                s@,
            ),
    {
        if eq_ignore_ascii_case(s, "cpm") {
            Ok(PriceModel::Cpm)
        } else if eq_ignore_ascii_case(s, "cpc") {
            Ok(PriceModel::Cpc)
        } else if eq_ignore_ascii_case(s, "cpe") {
            Ok(PriceModel::Cpe)
        } else if eq_ignore_ascii_case(s, "cpv") {
            Ok(PriceModel::Cpv)
        } else {
            Err(VastParseError::quoting("price model parsing error: ", s))
        }
    }

    /// The keyword of the value.
    pub fn keyword_str(&self) -> (r: &'static str)
        ensures
            r@ == self.keyword(),
    {
        match self {
            PriceModel::Cpm => "cpm",
            PriceModel::Cpc => "cpc",
            PriceModel::Cpe => "cpe",
            PriceModel::Cpv => "cpv",
        }
    }

    /// The keyword of the value, as an owned string.
    pub fn to_string(&self) -> (r: String)
        ensures
            r@ == self.keyword(),
    {
        String::from_str(self.keyword_str())
    }
}

/// Reading a price model does not depend on the case of ASCII letters: a
/// text and its lower-case form read as the same value, or both fail.
pub proof fn lemma_price_model_ignores_case(s: Seq<char>)
    ensures
        PriceModel::parse_spec(lower_ascii(s)) == PriceModel::parse_spec(s),
{
    lemma_lower_ascii_idempotent(s);
}

/// Reading the keyword of a value gives the value back.
pub proof fn lemma_price_model_round_trip(v: PriceModel)
    ensures
        PriceModel::parse_spec(v.keyword()) == Some(v),
{
    reveal_strlit("cpm");
    reveal_strlit("cpc");
    reveal_strlit("cpe");
    reveal_strlit("cpv");
    match v {
        PriceModel::Cpm => {
        },
        PriceModel::Cpc => {
            assert(lower_ascii("cpc"@)[2] != lower_ascii("cpm"@)[2]);
        },
        PriceModel::Cpe => {
            assert(lower_ascii("cpe"@)[2] != lower_ascii("cpm"@)[2]);
            assert(lower_ascii("cpe"@)[2] != lower_ascii("cpc"@)[2]);
        },
        PriceModel::Cpv => {
            assert(lower_ascii("cpv"@)[2] != lower_ascii("cpm"@)[2]);
            assert(lower_ascii("cpv"@)[2] != lower_ascii("cpc"@)[2]);
            assert(lower_ascii("cpv"@)[2] != lower_ascii("cpe"@)[2]);
        },
    }
}

/// An ad with all of the data the player needs to show it.
#[derive(Debug, Clone, PartialEq, Default)]
pub struct InLine {
    /// The ad server that returned the ad.
    pub ad_system: AdSystem,
    /// URIs to request on errors.
    pub errors: Vec<String>,
    /// Custom extensions.
    pub extensions: Option<Extensions>,
    /// URIs to request on an impression.
    pub impressions: Vec<Impression>,
    /// The price of the ad.
    pub pricing: Option<Pricing>,
    /// Viewability tracking.
    pub viewable_impression: Option<ViewableImpression>,
    /// An identifier of this serving of the ad.
    pub ad_serving_id: String,
    /// The common name of the ad.
    pub ad_title: String,
    /// Verification resources.
    pub ad_verifications: Option<AdVerifications>,
    /// The advertiser's name.
    pub advertiser: Option<String>,
    /// The categories of the ad's content.
    pub categories: Vec<Category>,
    /// The creatives of the ad.
    pub creatives: Creatives,
    /// A description of the ad.
    pub description: Option<String>,
    /// Seconds for which the ad stays valid.
    pub expires: Option<i32>,
    /// A survey URI.
    pub surveys: Option<Survey>,
}

impl XmlElement for InLine {
    open spec fn tag() -> Seq<char> {
        "InLine"@
    }

    open spec fn knows(key: Seq<char>) -> bool {
        false
    }

    open spec fn attrs_read(&self, t: &Tokens, s: int, e: int) -> bool {
        true
    }

    open spec fn content_read(&self, t: &Tokens, e: int, q: int) -> bool {
        read_within(*t, self.ad_system, e, q)
            && (self.extensions matches Some(c) ==> read_within(*t, c, e, q))
            && (forall|k: int| 0 <= k < self.impressions@.len() ==> read_within(*t, #[trigger] self.impressions@[k], e, q))
            && read_in_order(*t, self.impressions@, e)
            && (self.pricing matches Some(c) ==> read_within(*t, c, e, q))
            && (self.viewable_impression matches Some(c) ==> read_within(*t, c, e, q))
            && (self.ad_verifications matches Some(c) ==> read_within(*t, c, e, q))
            && (forall|k: int| 0 <= k < self.categories@.len() ==> read_within(*t, #[trigger] self.categories@[k], e, q))
            && read_in_order(*t, self.categories@, e)
            && read_within(*t, self.creatives, e, q)
            && (self.surveys matches Some(c) ==> read_within(*t, c, e, q))
            && (forall|k: int| 0 <= k < self.errors@.len() ==> text_within(*t, "Error"@, #[trigger] self.errors@[k]@, e, q))
            && texts_in_order(*t, "Error"@, self.errors@, e)
            && text_within(*t, "AdServingId"@, self.ad_serving_id@, e, q)
            && text_within(*t, "AdTitle"@, self.ad_title@, e, q)
            && (self.advertiser matches Some(x) ==> text_within(*t, "Advertiser"@, x@, e, q))
            && (self.description matches Some(x) ==> text_within(*t, "Description"@, x@, e, q))
            && (self.expires matches Some(x) ==> int_within(*t, "Expires"@, x, e, q))
    }

    open spec fn read_ok(t: &Tokens, pos: int) -> bool {
        false
    }

    open spec fn read_refused(t: &Tokens, pos: int) -> bool {
        t.start_malformed(pos, "InLine"@) || match t.till_start(pos, "InLine"@) {
            Some(a) => exists|i: int| a <= i < t.attrs_end(a) && !Self::knows(#[trigger] t.key(i)),
            None => false,
        }
    }

    open spec fn xml_spec(&self) -> Seq<char> {
        start_tag("InLine"@)
            + (seq!['>'] + self.ad_system.xml_spec() + opt_xml(self.extensions) + seq_xml(self.impressions@) + opt_xml(self.pricing) + opt_xml(self.viewable_impression) + opt_xml(self.ad_verifications) + seq_xml(self.categories@) + self.creatives.xml_spec() + opt_xml(self.surveys) + seq_text("Error"@, self.errors@, true) + text_element("AdServingId"@, self.ad_serving_id@, false) + text_element("AdTitle"@, self.ad_title@, false) + opt_text("Advertiser"@, self.advertiser, false) + opt_text("Description"@, self.description, false) + opt_int_text("Expires"@, self.expires) + end_tag("InLine"@))
    }

    #[verifier::rlimit(100)]
    #[verifier::spinoff_prover]
    fn read(t: &Tokens, pos: usize) -> (r: Result<(Self, usize), DecodeError>) {
        let n = t.items.len();
        let start = read_till_element_start(t, pos, "InLine")?;
        let mut p = start;
        let mut ad_system: Option<AdSystem> = None;
        let mut extensions: Option<Extensions> = None;
        let mut impressions: Vec<Impression> = Vec::new();
        let mut pricing: Option<Pricing> = None;
        let mut viewable_impression: Option<ViewableImpression> = None;
        let mut ad_verifications: Option<AdVerifications> = None;
        let mut categories: Vec<Category> = Vec::new();
        let mut creatives: Option<Creatives> = None;
        let mut surveys: Option<Survey> = None;
        let mut errors: Vec<String> = Vec::new();
        let mut ad_serving_id: Option<String> = None;
        let mut ad_title: Option<String> = None;
        let mut advertiser: Option<String> = None;
        let mut description: Option<String> = None;
        let mut expires: Option<i32> = None;
        loop
            invariant
                n == t.len(),
                start <= p <= n,
                start == n || (pos < start && t.starts(start - 1, "InLine"@)),
                forall|i: int| start <= i < p ==> #[trigger] t.kind(i) == TokenKind::Attribute && Self::knows(t.key(i)),
                t.till_start(pos as int, "InLine"@) == Some(start as int),
                t.attrs_end(start as int) == t.attrs_end(p as int),
                forall|i: int| start <= i < p ==> #[trigger] t.attr_readable(i),
            ensures
                start <= p < n,
                pos < start && t.starts(start - 1, "InLine"@),
                forall|i: int| start <= i < p ==> #[trigger] t.kind(i) == TokenKind::Attribute && Self::knows(t.key(i)),
                t.kind(p as int) == TokenKind::ElementEnd && !is_close_end(t.span(p as int)),
                t.till_start(pos as int, "InLine"@) == Some(start as int),
                t.attrs_end(start as int) == p,
                forall|i: int| start <= i < p ==> #[trigger] t.attr_readable(i),
            decreases n - p,
        {
            proof {
                lemma_attrs_end_bounds(t, p as int);
            }
            let (found, q) = find_attribute(t, p)?;
            match found {
                None => {
                    break;
                },
                Some((key, value)) => {
                    p = q;
                    return Err(unknown_field("InLine", key));
                },
            }
        }
        let ghost e = p as int;
        let ghost mut ends_impressions: Seq<int> = Seq::empty();
        proof {
            lemma_ends_empty(*t, impressions@, e);
        }
        let ghost mut ends_categories: Seq<int> = Seq::empty();
        proof {
            lemma_ends_empty(*t, categories@, e);
        }
        let ghost mut ends_errors: Seq<int> = Seq::empty();
        proof {
            lemma_text_ends_empty(*t, "Error"@, errors@, e);
        }
        let empty = is_empty_end_of(&t.items[p]);
        p = p + 1;
        if !empty {
            loop
                invariant
                    n == t.len(),
                    pos < p <= n,
                    e < p,
                    (ad_system matches Some(c) ==> read_within(*t, c, e, p as int)),
                    (extensions matches Some(c) ==> read_within(*t, c, e, p as int)),
                    (forall|k: int| 0 <= k < impressions@.len() ==> read_within(*t, #[trigger] impressions@[k], e, p as int)),
                    (pricing matches Some(c) ==> read_within(*t, c, e, p as int)),
                    (viewable_impression matches Some(c) ==> read_within(*t, c, e, p as int)),
                    (ad_verifications matches Some(c) ==> read_within(*t, c, e, p as int)),
                    (forall|k: int| 0 <= k < categories@.len() ==> read_within(*t, #[trigger] categories@[k], e, p as int)),
                    (creatives matches Some(c) ==> read_within(*t, c, e, p as int)),
                    (surveys matches Some(c) ==> read_within(*t, c, e, p as int)),
                    (forall|k: int| 0 <= k < errors@.len() ==> text_within(*t, "Error"@, #[trigger] errors@[k]@, e, p as int)),
                    (ad_serving_id matches Some(x) ==> text_within(*t, "AdServingId"@, x@, e, p as int)),
                    (ad_title matches Some(x) ==> text_within(*t, "AdTitle"@, x@, e, p as int)),
                    (advertiser matches Some(x) ==> text_within(*t, "Advertiser"@, x@, e, p as int)),
                    (description matches Some(x) ==> text_within(*t, "Description"@, x@, e, p as int)),
                    (expires matches Some(x) ==> int_within(*t, "Expires"@, x, e, p as int)),
                    ends_fit(*t, impressions@, e, ends_impressions),
                    part_start(ends_impressions, e, impressions@.len() as int) <= p,
                    ends_fit(*t, categories@, e, ends_categories),
                    part_start(ends_categories, e, categories@.len() as int) <= p,
                    text_ends_fit(*t, "Error"@, errors@, e, ends_errors),
                    part_start(ends_errors, e, errors@.len() as int) <= p,
                ensures
                    pos < p <= n,
                    e < p,
                    (ad_system matches Some(c) ==> read_within(*t, c, e, p as int)),
                    (extensions matches Some(c) ==> read_within(*t, c, e, p as int)),
                    (forall|k: int| 0 <= k < impressions@.len() ==> read_within(*t, #[trigger] impressions@[k], e, p as int)),
                    (pricing matches Some(c) ==> read_within(*t, c, e, p as int)),
                    (viewable_impression matches Some(c) ==> read_within(*t, c, e, p as int)),
                    (ad_verifications matches Some(c) ==> read_within(*t, c, e, p as int)),
                    (forall|k: int| 0 <= k < categories@.len() ==> read_within(*t, #[trigger] categories@[k], e, p as int)),
                    (creatives matches Some(c) ==> read_within(*t, c, e, p as int)),
                    (surveys matches Some(c) ==> read_within(*t, c, e, p as int)),
                    (forall|k: int| 0 <= k < errors@.len() ==> text_within(*t, "Error"@, #[trigger] errors@[k]@, e, p as int)),
                    (ad_serving_id matches Some(x) ==> text_within(*t, "AdServingId"@, x@, e, p as int)),
                    (ad_title matches Some(x) ==> text_within(*t, "AdTitle"@, x@, e, p as int)),
                    (advertiser matches Some(x) ==> text_within(*t, "Advertiser"@, x@, e, p as int)),
                    (description matches Some(x) ==> text_within(*t, "Description"@, x@, e, p as int)),
                    (expires matches Some(x) ==> int_within(*t, "Expires"@, x, e, p as int)),
                    ends_fit(*t, impressions@, e, ends_impressions),
                    part_start(ends_impressions, e, impressions@.len() as int) <= p,
                    ends_fit(*t, categories@, e, ends_categories),
                    part_start(ends_categories, e, categories@.len() as int) <= p,
                    text_ends_fit(*t, "Error"@, errors@, e, ends_errors),
                    part_start(ends_errors, e, errors@.len() as int) <= p,

                decreases n - p,
            {
                let (found, q) = find_element_start(t, p, "InLine")?;
                match found {
                    None => {
                        p = q;
                        break;
                    },
                    Some(tag) => {
                        if str_eq(tag.as_str(), "AdSystem") {
                            if ad_system.is_some() {
                                return Err(duplicate_element("AdSystem"));
                            }
                            let (v, q2) = AdSystem::read(t, q)?;
                            ad_system = Some(v);
                            p = q2;
                        } else if str_eq(tag.as_str(), "Extensions") {
                            if extensions.is_some() {
                                return Err(duplicate_element("Extensions"));
                            }
                            let (v, q2) = Extensions::read(t, q)?;
                            extensions = Some(v);
                            p = q2;
                        } else if str_eq(tag.as_str(), "Impression") {
                            let (v, q2) = Impression::read(t, q)?;
                            proof {
                                assert(read_within(*t, v, q as int, q2 as int));
                                lemma_read_within_widen(*t, v, q as int, q2 as int, part_start(ends_impressions, e, impressions@.len() as int), q2 as int);
                                lemma_ends_push(*t, impressions@, v, e, ends_impressions, q2 as int);
                                ends_impressions = ends_impressions.push(q2 as int);
                            }
                            impressions.push(v);
                            p = q2;
                        } else if str_eq(tag.as_str(), "Pricing") {
                            if pricing.is_some() {
                                return Err(duplicate_element("Pricing"));
                            }
                            let (v, q2) = Pricing::read(t, q)?;
                            pricing = Some(v);
                            p = q2;
                        } else if str_eq(tag.as_str(), "ViewableImpression") {
                            if viewable_impression.is_some() {
                                return Err(duplicate_element("ViewableImpression"));
                            }
                            let (v, q2) = ViewableImpression::read(t, q)?;
                            viewable_impression = Some(v);
                            p = q2;
                        } else if str_eq(tag.as_str(), "AdVerifications") {
                            if ad_verifications.is_some() {
                                return Err(duplicate_element("AdVerifications"));
                            }
                            let (v, q2) = AdVerifications::read(t, q)?;
                            ad_verifications = Some(v);
                            p = q2;
                        } else if str_eq(tag.as_str(), "Category") {
                            let (v, q2) = Category::read(t, q)?;
                            proof {
                                assert(read_within(*t, v, q as int, q2 as int));
                                lemma_read_within_widen(*t, v, q as int, q2 as int, part_start(ends_categories, e, categories@.len() as int), q2 as int);
                                lemma_ends_push(*t, categories@, v, e, ends_categories, q2 as int);
                                ends_categories = ends_categories.push(q2 as int);
                            }
                            categories.push(v);
                            p = q2;
                        } else if str_eq(tag.as_str(), "Creatives") {
                            if creatives.is_some() {
                                return Err(duplicate_element("Creatives"));
                            }
                            let (v, q2) = Creatives::read(t, q)?;
                            creatives = Some(v);
                            p = q2;
                        } else if str_eq(tag.as_str(), "Survey") {
                            if surveys.is_some() {
                                return Err(duplicate_element("Survey"));
                            }
                            let (v, q2) = Survey::read(t, q)?;
                            surveys = Some(v);
                            p = q2;
                        } else if str_eq(tag.as_str(), "Error") {
                            let (s, q2) = read_text_child(t, q, "Error")?;
                            let v = s;
                            proof {
                                assert(text_within(*t, "Error"@, v@, q as int, q2 as int));
                                assert(text_within(*t, "Error"@, v@, part_start(ends_errors, e, errors@.len() as int), q2 as int));
                                lemma_text_ends_push(*t, "Error"@, errors@, v, e, ends_errors, q2 as int);
                                ends_errors = ends_errors.push(q2 as int);
                            }
                            errors.push(v);
                            p = q2;
                        } else if str_eq(tag.as_str(), "AdServingId") {
                            if ad_serving_id.is_some() {
                                return Err(duplicate_element("AdServingId"));
                            }
                            let (s, q2) = read_text_child(t, q, "AdServingId")?;
                            let v = s;
                            ad_serving_id = Some(v);
                            p = q2;
                        } else if str_eq(tag.as_str(), "AdTitle") {
                            if ad_title.is_some() {
                                return Err(duplicate_element("AdTitle"));
                            }
                            let (s, q2) = read_text_child(t, q, "AdTitle")?;
                            let v = s;
                            ad_title = Some(v);
                            p = q2;
                        } else if str_eq(tag.as_str(), "Advertiser") {
                            if advertiser.is_some() {
                                return Err(duplicate_element("Advertiser"));
                            }
                            let (s, q2) = read_text_child(t, q, "Advertiser")?;
                            let v = s;
                            advertiser = Some(v);
                            p = q2;
                        } else if str_eq(tag.as_str(), "Description") {
                            if description.is_some() {
                                return Err(duplicate_element("Description"));
                            }
                            let (s, q2) = read_text_child(t, q, "Description")?;
                            let v = s;
                            description = Some(v);
                            p = q2;
                        } else if str_eq(tag.as_str(), "Expires") {
                            if expires.is_some() {
                                return Err(duplicate_element("Expires"));
                            }
                            let (s, q2) = read_text_child(t, q, "Expires")?;
                            let v = parse_int(s.as_str())?;
                            expires = Some(v);
                            p = q2;
                        } else {
                            return Err(unknown_field("InLine", tag));
                        }
                    },
                }
            }
        }
        let ad_system = match ad_system {
            Some(v) => v,
            None => return Err(missing_field("InLine", "ad_system")),
        };
        if impressions.len() == 0 {
            return Err(missing_field("InLine", "impressions"));
        }
        let ad_serving_id = match ad_serving_id {
            Some(v) => v,
            None => return Err(missing_field("InLine", "ad_serving_id")),
        };
        let ad_title = match ad_title {
            Some(v) => v,
            None => return Err(missing_field("InLine", "ad_title")),
        };
        let creatives = match creatives {
            Some(v) => v,
            None => return Err(missing_field("InLine", "creatives")),
        };
        assert(t.start_tag(start - 1, e, "InLine"@));
        assert(t.till_start(pos as int, "InLine"@) == Some(start as int));
        assert forall|i: int| start - 1 < i < e implies Self::knows(#[trigger] t.key(i)) by {
            assert(t.kind(i) == TokenKind::Attribute);
        }
        assert forall|i: int| start <= i < e implies #[trigger] t.attr_readable(i) && Self::knows(t.key(i)) by {
            assert(t.kind(i) == TokenKind::Attribute);
        }
        let v = InLine { ad_system, errors, extensions, impressions, pricing, viewable_impression, ad_serving_id, ad_title, ad_verifications, advertiser, categories, creatives, description, expires, surveys };
        assert(v.content_read(t, e, p as int));
        Ok((v, p))
    }

    #[verifier::rlimit(40)]
    fn write(&self, out: &mut String) {
        write_start(out, "InLine");
        let ghost mut head = start_tag("InLine"@);
        let ghost mid = out@;
        let ghost mut body = seq!['>'];
        write_open_end(out);
        self.ad_system.write(out);
        proof {
            let piece = self.ad_system.xml_spec();
            lemma_append(mid, body, piece);
            body = body + piece;
        }
        write_opt(out, &self.extensions);
        proof {
            let piece = opt_xml(self.extensions);
            lemma_append(mid, body, piece);
            body = body + piece;
        }
        write_all(out, &self.impressions);
        proof {
            let piece = seq_xml(self.impressions@);
            lemma_append(mid, body, piece);
            body = body + piece;
        }
        write_opt(out, &self.pricing);
        proof {
            let piece = opt_xml(self.pricing);
            lemma_append(mid, body, piece);
            body = body + piece;
        }
        write_opt(out, &self.viewable_impression);
        proof {
            let piece = opt_xml(self.viewable_impression);
            lemma_append(mid, body, piece);
            body = body + piece;
        }
        write_opt(out, &self.ad_verifications);
        proof {
            let piece = opt_xml(self.ad_verifications);
            lemma_append(mid, body, piece);
            body = body + piece;
        }
        write_all(out, &self.categories);
        proof {
            let piece = seq_xml(self.categories@);
            lemma_append(mid, body, piece);
            body = body + piece;
        }
        self.creatives.write(out);
        proof {
            let piece = self.creatives.xml_spec();
            lemma_append(mid, body, piece);
            body = body + piece;
        }
        write_opt(out, &self.surveys);
        proof {
            let piece = opt_xml(self.surveys);
            lemma_append(mid, body, piece);
            body = body + piece;
        }
        write_text_elements(out, "Error", &self.errors, true);
        proof {
            let piece = seq_text("Error"@, self.errors@, true);
            lemma_append(mid, body, piece);
            body = body + piece;
        }
        write_text_element(out, "AdServingId", self.ad_serving_id.as_str(), false);
        proof {
            let piece = text_element("AdServingId"@, self.ad_serving_id@, false);
            lemma_append(mid, body, piece);
            body = body + piece;
        }
        write_text_element(out, "AdTitle", self.ad_title.as_str(), false);
        proof {
            let piece = text_element("AdTitle"@, self.ad_title@, false);
            lemma_append(mid, body, piece);
            body = body + piece;
        }
        write_opt_text(out, "Advertiser", &self.advertiser, false);
        proof {
            let piece = opt_text("Advertiser"@, self.advertiser, false);
            lemma_append(mid, body, piece);
            body = body + piece;
        }
        write_opt_text(out, "Description", &self.description, false);
        proof {
            let piece = opt_text("Description"@, self.description, false);
            lemma_append(mid, body, piece);
            body = body + piece;
        }
        write_opt_int_text(out, "Expires", self.expires);
        proof {
            let piece = opt_int_text("Expires"@, self.expires);
            lemma_append(mid, body, piece);
            body = body + piece;
        }
        write_end(out, "InLine");
        proof {
            lemma_append(mid, body, end_tag("InLine"@));
            lemma_append(old(out)@, head, body + end_tag("InLine"@));
        }
    }
}

/// The ad server that returned the ad.
#[derive(Debug, Clone, PartialEq, Default)]
pub struct AdSystem {
    /// The version of the ad server.
    pub version: Option<String>,
    /// The name of the ad server.
    pub name: String,
}

impl XmlElement for AdSystem {
    open spec fn tag() -> Seq<char> {
        "AdSystem"@
    }

    open spec fn knows(key: Seq<char>) -> bool {
        key == "version"@
    }

    open spec fn attrs_read(&self, t: &Tokens, s: int, e: int) -> bool {
        (opt_view(self.version) == t.attr_text(s, e, "version"@))
    }

    open spec fn content_read(&self, t: &Tokens, e: int, q: int) -> bool {
        self.name@ == t.text_of(e, q)
    }

    open spec fn read_ok(t: &Tokens, pos: int) -> bool {
        false
    }

    open spec fn read_refused(t: &Tokens, pos: int) -> bool {
        t.start_malformed(pos, "AdSystem"@) || match t.till_start(pos, "AdSystem"@) {
            Some(a) => exists|i: int| a <= i < t.attrs_end(a) && !Self::knows(#[trigger] t.key(i)),
            None => false,
        }
    }

    open spec fn xml_spec(&self) -> Seq<char> {
        start_tag("AdSystem"@)
            + opt_attribute("version"@, opt_view(self.version))
            + (seq!['>'] + escape_spec(self.name@) + end_tag("AdSystem"@))
    }

    fn read(t: &Tokens, pos: usize) -> (r: Result<(Self, usize), DecodeError>) {
        let n = t.items.len();
        let start = read_till_element_start(t, pos, "AdSystem")?;
        let mut p = start;
        let mut version: Option<String> = None;
        loop
            invariant
                n == t.len(),
                start <= p <= n,
                start == n || (pos < start && t.starts(start - 1, "AdSystem"@)),
                forall|i: int| start <= i < p ==> #[trigger] t.kind(i) == TokenKind::Attribute && Self::knows(t.key(i)),
                t.till_start(pos as int, "AdSystem"@) == Some(start as int),
                t.attrs_end(start as int) == t.attrs_end(p as int),
                forall|i: int| start <= i < p ==> #[trigger] t.attr_readable(i),
                opt_view(version) == t.attr_text(start - 1, p as int, "version"@),
            ensures
                start <= p < n,
                pos < start && t.starts(start - 1, "AdSystem"@),
                forall|i: int| start <= i < p ==> #[trigger] t.kind(i) == TokenKind::Attribute && Self::knows(t.key(i)),
                t.kind(p as int) == TokenKind::ElementEnd && !is_close_end(t.span(p as int)),
                t.till_start(pos as int, "AdSystem"@) == Some(start as int),
                t.attrs_end(start as int) == p,
                forall|i: int| start <= i < p ==> #[trigger] t.attr_readable(i),
                opt_view(version) == t.attr_text(start - 1, p as int, "version"@),
            decreases n - p,
        {
            proof {
                lemma_attrs_end_bounds(t, p as int);
            }
            let (found, q) = find_attribute(t, p)?;
            match found {
                None => {
                    break;
                },
                Some((key, value)) => {
                    p = q;
                    proof {
                        reveal_strlit("version");
                        assert("version"@.len() == 7);
                    }
                    if str_eq(key.as_str(), "version") {
                        if version.is_some() {
                            return Err(duplicate_attribute("version"));
                        }
                        version = Some(value);
                    } else {
                        return Err(unknown_field("AdSystem", key));
                    }
                },
            }
        }
        let ghost e = p as int;
        let (text, q) = read_text(t, p, "AdSystem")?;
        p = q;
        assert(t.start_tag(start - 1, e, "AdSystem"@));
        assert(t.till_start(pos as int, "AdSystem"@) == Some(start as int));
        assert forall|i: int| start - 1 < i < e implies Self::knows(#[trigger] t.key(i)) by {
            assert(t.kind(i) == TokenKind::Attribute);
        }
        assert forall|i: int| start <= i < e implies #[trigger] t.attr_readable(i) && Self::knows(t.key(i)) by {
            assert(t.kind(i) == TokenKind::Attribute);
        }
        let v = AdSystem { version, name: text };
        assert(v.attrs_read(t, start - 1, e));
        Ok((v, p))
    }

    fn write(&self, out: &mut String) {
        write_start(out, "AdSystem");
        let ghost mut head = start_tag("AdSystem"@);
        write_opt_attribute(out, "version", &self.version);
        proof {
            let piece = opt_attribute("version"@, opt_view(self.version));
            lemma_append(old(out)@, head, piece);
            head = head + piece;
        }
        let ghost mid = out@;
        let ghost mut body = seq!['>'];
        write_open_end(out);
        write_text(out, self.name.as_str(), false);
        proof {
            let piece = escape_spec(self.name@);
            lemma_append(mid, body, piece);
            body = body + piece;
        }
        write_end(out, "AdSystem");
        proof {
            lemma_append(mid, body, end_tag("AdSystem"@));
            lemma_append(old(out)@, head, body + end_tag("AdSystem"@));
        }
    }
}

/// A URI to request when the ad is shown.
#[derive(Debug, Clone, PartialEq, Default)]
pub struct Impression {
    /// An ad server id for the impression.
    pub id: Option<String>,
    /// The URI to request.
    pub uri: String,
}

impl XmlElement for Impression {
    open spec fn tag() -> Seq<char> {
        "Impression"@
    }

    open spec fn knows(key: Seq<char>) -> bool {
        key == "id"@
    }

    open spec fn attrs_read(&self, t: &Tokens, s: int, e: int) -> bool {
        (opt_view(self.id) == t.attr_text(s, e, "id"@))
    }

    open spec fn content_read(&self, t: &Tokens, e: int, q: int) -> bool {
        self.uri@ == t.text_of(e, q)
    }

    open spec fn read_ok(t: &Tokens, pos: int) -> bool {
        false
    }

    open spec fn read_refused(t: &Tokens, pos: int) -> bool {
        t.start_malformed(pos, "Impression"@) || match t.till_start(pos, "Impression"@) {
            Some(a) => exists|i: int| a <= i < t.attrs_end(a) && !Self::knows(#[trigger] t.key(i)),
            None => false,
        }
    }

    open spec fn xml_spec(&self) -> Seq<char> {
        start_tag("Impression"@)
            + opt_attribute("id"@, opt_view(self.id))
            + (seq!['>'] + cdata(self.uri@) + end_tag("Impression"@))
    }

    fn read(t: &Tokens, pos: usize) -> (r: Result<(Self, usize), DecodeError>) {
        let n = t.items.len();
        let start = read_till_element_start(t, pos, "Impression")?;
        let mut p = start;
        let mut id: Option<String> = None;
        loop
            invariant
                n == t.len(),
                start <= p <= n,
                start == n || (pos < start && t.starts(start - 1, "Impression"@)),
                forall|i: int| start <= i < p ==> #[trigger] t.kind(i) == TokenKind::Attribute && Self::knows(t.key(i)),
                t.till_start(pos as int, "Impression"@) == Some(start as int),
                t.attrs_end(start as int) == t.attrs_end(p as int),
                forall|i: int| start <= i < p ==> #[trigger] t.attr_readable(i),
                opt_view(id) == t.attr_text(start - 1, p as int, "id"@),
            ensures
                start <= p < n,
                pos < start && t.starts(start - 1, "Impression"@),
                forall|i: int| start <= i < p ==> #[trigger] t.kind(i) == TokenKind::Attribute && Self::knows(t.key(i)),
                t.kind(p as int) == TokenKind::ElementEnd && !is_close_end(t.span(p as int)),
                t.till_start(pos as int, "Impression"@) == Some(start as int),
                t.attrs_end(start as int) == p,
                forall|i: int| start <= i < p ==> #[trigger] t.attr_readable(i),
                opt_view(id) == t.attr_text(start - 1, p as int, "id"@),
            decreases n - p,
        {
            proof {
                lemma_attrs_end_bounds(t, p as int);
            }
            let (found, q) = find_attribute(t, p)?;
            match found {
                None => {
                    break;
                },
                Some((key, value)) => {
                    p = q;
                    proof {
                        reveal_strlit("id");
                        assert("id"@.len() == 2);
                    }
                    if str_eq(key.as_str(), "id") {
                        if id.is_some() {
                            return Err(duplicate_attribute("id"));
                        }
                        id = Some(value);
                    } else {
                        return Err(unknown_field("Impression", key));
                    }
                },
            }
        }
        let ghost e = p as int;
        let (text, q) = read_text(t, p, "Impression")?;
        p = q;
        assert(t.start_tag(start - 1, e, "Impression"@));
        assert(t.till_start(pos as int, "Impression"@) == Some(start as int));
        assert forall|i: int| start - 1 < i < e implies Self::knows(#[trigger] t.key(i)) by {
            assert(t.kind(i) == TokenKind::Attribute);
        }
        assert forall|i: int| start <= i < e implies #[trigger] t.attr_readable(i) && Self::knows(t.key(i)) by {
            assert(t.kind(i) == TokenKind::Attribute);
        }
        let v = Impression { id, uri: text };
        assert(v.attrs_read(t, start - 1, e));
        Ok((v, p))
    }

    fn write(&self, out: &mut String) {
        write_start(out, "Impression");
        let ghost mut head = start_tag("Impression"@);
        write_opt_attribute(out, "id", &self.id);
        proof {
            let piece = opt_attribute("id"@, opt_view(self.id));
            lemma_append(old(out)@, head, piece);
            head = head + piece;
        }
        let ghost mid = out@;
        let ghost mut body = seq!['>'];
        write_open_end(out);
        write_text(out, self.uri.as_str(), true);
        proof {
            let piece = cdata(self.uri@);
            lemma_append(mid, body, piece);
            body = body + piece;
        }
        write_end(out, "Impression");
        proof {
            lemma_append(mid, body, end_tag("Impression"@));
            lemma_append(old(out)@, head, body + end_tag("Impression"@));
        }
    }
}

/// A category of the ad's content, as an authority defines it.
#[derive(Debug, Clone, PartialEq, Default)]
pub struct Category {
    /// The URI of the authority of the category codes.
    pub authority: String,
    /// The category code.
    pub code: String,
}

impl XmlElement for Category {
    open spec fn tag() -> Seq<char> {
        "Category"@
    }

    open spec fn knows(key: Seq<char>) -> bool {
        key == "authority"@
    }

    open spec fn attrs_read(&self, t: &Tokens, s: int, e: int) -> bool {
        (t.attr_text(s, e, "authority"@) == Some(self.authority@))
    }

    open spec fn content_read(&self, t: &Tokens, e: int, q: int) -> bool {
        self.code@ == t.text_of(e, q)
    }

    open spec fn read_ok(t: &Tokens, pos: int) -> bool {
        false
    }

    open spec fn read_refused(t: &Tokens, pos: int) -> bool {
        t.start_malformed(pos, "Category"@) || match t.till_start(pos, "Category"@) {
            Some(a) => exists|i: int| a <= i < t.attrs_end(a) && !Self::knows(#[trigger] t.key(i)),
            None => false,
        }
    }

    open spec fn xml_spec(&self) -> Seq<char> {
        start_tag("Category"@)
            + attribute("authority"@, self.authority@)
            + (seq!['>'] + escape_spec(self.code@) + end_tag("Category"@))
    }

    fn read(t: &Tokens, pos: usize) -> (r: Result<(Self, usize), DecodeError>) {
        let n = t.items.len();
        let start = read_till_element_start(t, pos, "Category")?;
        let mut p = start;
        let mut authority: Option<String> = None;
        loop
            invariant
                n == t.len(),
                start <= p <= n,
                start == n || (pos < start && t.starts(start - 1, "Category"@)),
                forall|i: int| start <= i < p ==> #[trigger] t.kind(i) == TokenKind::Attribute && Self::knows(t.key(i)),
                t.till_start(pos as int, "Category"@) == Some(start as int),
                t.attrs_end(start as int) == t.attrs_end(p as int),
                forall|i: int| start <= i < p ==> #[trigger] t.attr_readable(i),
                opt_view(authority) == t.attr_text(start - 1, p as int, "authority"@),
            ensures
                start <= p < n,
                pos < start && t.starts(start - 1, "Category"@),
                forall|i: int| start <= i < p ==> #[trigger] t.kind(i) == TokenKind::Attribute && Self::knows(t.key(i)),
                t.kind(p as int) == TokenKind::ElementEnd && !is_close_end(t.span(p as int)),
                t.till_start(pos as int, "Category"@) == Some(start as int),
                t.attrs_end(start as int) == p,
                forall|i: int| start <= i < p ==> #[trigger] t.attr_readable(i),
                opt_view(authority) == t.attr_text(start - 1, p as int, "authority"@),
            decreases n - p,
        {
            proof {
                lemma_attrs_end_bounds(t, p as int);
            }
            let (found, q) = find_attribute(t, p)?;
            match found {
                None => {
                    break;
                },
                Some((key, value)) => {
                    p = q;
                    proof {
                        reveal_strlit("authority");
                        assert("authority"@.len() == 9);
                    }
                    if str_eq(key.as_str(), "authority") {
                        if authority.is_some() {
                            return Err(duplicate_attribute("authority"));
                        }
                        authority = Some(value);
                    } else {
                        return Err(unknown_field("Category", key));
                    }
                },
            }
        }
        let ghost e = p as int;
        let (text, q) = read_text(t, p, "Category")?;
        p = q;
        let authority = match authority {
            Some(v) => v,
            None => return Err(missing_field("Category", "authority")),
        };
        assert(t.start_tag(start - 1, e, "Category"@));
        assert(t.till_start(pos as int, "Category"@) == Some(start as int));
        assert forall|i: int| start - 1 < i < e implies Self::knows(#[trigger] t.key(i)) by {
            assert(t.kind(i) == TokenKind::Attribute);
        }
        assert forall|i: int| start <= i < e implies #[trigger] t.attr_readable(i) && Self::knows(t.key(i)) by {
            assert(t.kind(i) == TokenKind::Attribute);
        }
        let v = Category { authority, code: text };
        assert(v.attrs_read(t, start - 1, e));
        Ok((v, p))
    }

    fn write(&self, out: &mut String) {
        write_start(out, "Category");
        let ghost mut head = start_tag("Category"@);
        write_attribute(out, "authority", self.authority.as_str());
        proof {
            let piece = attribute("authority"@, self.authority@);
            lemma_append(old(out)@, head, piece);
            head = head + piece;
        }
        let ghost mid = out@;
        let ghost mut body = seq!['>'];
        write_open_end(out);
        write_text(out, self.code.as_str(), false);
        proof {
            let piece = escape_spec(self.code@);
            lemma_append(mid, body, piece);
            body = body + piece;
        }
        write_end(out, "Category");
        proof {
            lemma_append(mid, body, end_tag("Category"@));
            lemma_append(old(out)@, head, body + end_tag("Category"@));
        }
    }
}

/// The price of the ad: a model, a currency, and the price in decimal text.
#[derive(Debug, Clone, PartialEq, Default)]
pub struct Pricing {
    /// The pricing model.
    pub model: PriceModel,
    /// The three-letter currency code.
    pub currency: String,
    /// The price, as the decimal text it is written in.
    pub price: String,
}

impl XmlElement for Pricing {
    open spec fn tag() -> Seq<char> {
        "Pricing"@
    }

    open spec fn knows(key: Seq<char>) -> bool {
        key == "model"@ || key == "currency"@
    }

    open spec fn attrs_read(&self, t: &Tokens, s: int, e: int) -> bool {
        (match t.attr_text(s, e, "model"@) {
            Some(v) => PriceModel::parse_spec(v) == Some(self.model),
            None => false,
        })
            && (t.attr_text(s, e, "currency"@) == Some(self.currency@))
    }

    open spec fn content_read(&self, t: &Tokens, e: int, q: int) -> bool {
        self.price@ == t.text_of(e, q)
    }

    open spec fn read_ok(t: &Tokens, pos: int) -> bool {
        false
    }

    open spec fn read_refused(t: &Tokens, pos: int) -> bool {
        t.start_malformed(pos, "Pricing"@) || match t.till_start(pos, "Pricing"@) {
            Some(a) => exists|i: int| a <= i < t.attrs_end(a) && !Self::knows(#[trigger] t.key(i)),
            None => false,
        }
    }

    open spec fn xml_spec(&self) -> Seq<char> {
        start_tag("Pricing"@)
            + attribute("model"@, self.model.keyword())
            + attribute("currency"@, self.currency@)
            + (seq!['>'] + escape_spec(self.price@) + end_tag("Pricing"@))
    }

    fn read(t: &Tokens, pos: usize) -> (r: Result<(Self, usize), DecodeError>) {
        let n = t.items.len();
        let start = read_till_element_start(t, pos, "Pricing")?;
        let mut p = start;
        let mut model: Option<PriceModel> = None;
        let mut currency: Option<String> = None;
        loop
            invariant
                n == t.len(),
                start <= p <= n,
                start == n || (pos < start && t.starts(start - 1, "Pricing"@)),
                forall|i: int| start <= i < p ==> #[trigger] t.kind(i) == TokenKind::Attribute && Self::knows(t.key(i)),
                t.till_start(pos as int, "Pricing"@) == Some(start as int),
                t.attrs_end(start as int) == t.attrs_end(p as int),
                forall|i: int| start <= i < p ==> #[trigger] t.attr_readable(i),
                model == match t.attr_text(start - 1, p as int, "model"@) {
                    Some(v) => PriceModel::parse_spec(v),
                    None => None,
                },
                opt_view(currency) == t.attr_text(start - 1, p as int, "currency"@),
            ensures
                start <= p < n,
                pos < start && t.starts(start - 1, "Pricing"@),
                forall|i: int| start <= i < p ==> #[trigger] t.kind(i) == TokenKind::Attribute && Self::knows(t.key(i)),
                t.kind(p as int) == TokenKind::ElementEnd && !is_close_end(t.span(p as int)),
                t.till_start(pos as int, "Pricing"@) == Some(start as int),
                t.attrs_end(start as int) == p,
                forall|i: int| start <= i < p ==> #[trigger] t.attr_readable(i),
                model == match t.attr_text(start - 1, p as int, "model"@) {
                    Some(v) => PriceModel::parse_spec(v),
                    None => None,
                },
                opt_view(currency) == t.attr_text(start - 1, p as int, "currency"@),
            decreases n - p,
        {
            proof {
                lemma_attrs_end_bounds(t, p as int);
            }
            let (found, q) = find_attribute(t, p)?;
            match found {
                None => {
                    break;
                },
                Some((key, value)) => {
                    p = q;
                    proof {
                        reveal_strlit("model");
                        reveal_strlit("currency");
                        assert("model"@.len() == 5);
                        assert("currency"@.len() == 8);
                    }
                    if str_eq(key.as_str(), "model") {
                        if model.is_some() {
                            return Err(duplicate_attribute("model"));
                        }
                        model = Some(match PriceModel::from_str(value.as_str()) {
                            Ok(v) => v,
                            Err(e) => return Err(scalar_error(e)),
                        });
                    } else if str_eq(key.as_str(), "currency") {
                        if currency.is_some() {
                            return Err(duplicate_attribute("currency"));
                        }
                        currency = Some(value);
                    } else {
                        return Err(unknown_field("Pricing", key));
                    }
                },
            }
        }
        let ghost e = p as int;
        let (text, q) = read_text(t, p, "Pricing")?;
        p = q;
        let model = match model {
            Some(v) => v,
            None => return Err(missing_field("Pricing", "model")),
        };
        let currency = match currency {
            Some(v) => v,
            None => return Err(missing_field("Pricing", "currency")),
        };
        assert(t.start_tag(start - 1, e, "Pricing"@));
        assert(t.till_start(pos as int, "Pricing"@) == Some(start as int));
        assert forall|i: int| start - 1 < i < e implies Self::knows(#[trigger] t.key(i)) by {
            assert(t.kind(i) == TokenKind::Attribute);
        }
        assert forall|i: int| start <= i < e implies #[trigger] t.attr_readable(i) && Self::knows(t.key(i)) by {
            assert(t.kind(i) == TokenKind::Attribute);
        }
        let v = Pricing { model, currency, price: text };
        assert(v.attrs_read(t, start - 1, e));
        Ok((v, p))
    }

    fn write(&self, out: &mut String) {
        write_start(out, "Pricing");
        let ghost mut head = start_tag("Pricing"@);
        write_attribute(out, "model", self.model.keyword_str());
        proof {
            let piece = attribute("model"@, self.model.keyword());
            lemma_append(old(out)@, head, piece);
            head = head + piece;
        }
        write_attribute(out, "currency", self.currency.as_str());
        proof {
            let piece = attribute("currency"@, self.currency@);
            lemma_append(old(out)@, head, piece);
            head = head + piece;
        }
        let ghost mid = out@;
        let ghost mut body = seq!['>'];
        write_open_end(out);
        write_text(out, self.price.as_str(), false);
        proof {
            let piece = escape_spec(self.price@);
            lemma_append(mid, body, piece);
            body = body + piece;
        }
        write_end(out, "Pricing");
        proof {
            lemma_append(mid, body, end_tag("Pricing"@));
            lemma_append(old(out)@, head, body + end_tag("Pricing"@));
        }
    }
}

/// A URI to a survey vendor.
#[derive(Debug, Clone, PartialEq, Default)]
pub struct Survey {
    /// The MIME type of the resource.
    pub mime_type: Option<String>,
    /// The survey URI.
    pub uri: String,
}

impl XmlElement for Survey {
    open spec fn tag() -> Seq<char> {
        "Survey"@
    }

    open spec fn knows(key: Seq<char>) -> bool {
        key == "type"@
    }

    open spec fn attrs_read(&self, t: &Tokens, s: int, e: int) -> bool {
        (opt_view(self.mime_type) == t.attr_text(s, e, "type"@))
    }

    open spec fn content_read(&self, t: &Tokens, e: int, q: int) -> bool {
        self.uri@ == t.text_of(e, q)
    }

    open spec fn read_ok(t: &Tokens, pos: int) -> bool {
        false
    }

    open spec fn read_refused(t: &Tokens, pos: int) -> bool {
        t.start_malformed(pos, "Survey"@) || match t.till_start(pos, "Survey"@) {
            Some(a) => exists|i: int| a <= i < t.attrs_end(a) && !Self::knows(#[trigger] t.key(i)),
            None => false,
        }
    }

    open spec fn xml_spec(&self) -> Seq<char> {
        start_tag("Survey"@)
            + opt_attribute("type"@, opt_view(self.mime_type))
            + (seq!['>'] + cdata(self.uri@) + end_tag("Survey"@))
    }

    fn read(t: &Tokens, pos: usize) -> (r: Result<(Self, usize), DecodeError>) {
        let n = t.items.len();
        let start = read_till_element_start(t, pos, "Survey")?;
        let mut p = start;
        let mut mime_type: Option<String> = None;
        loop
            invariant
                n == t.len(),
                start <= p <= n,
                start == n || (pos < start && t.starts(start - 1, "Survey"@)),
                forall|i: int| start <= i < p ==> #[trigger] t.kind(i) == TokenKind::Attribute && Self::knows(t.key(i)),
                t.till_start(pos as int, "Survey"@) == Some(start as int),
                t.attrs_end(start as int) == t.attrs_end(p as int),
                forall|i: int| start <= i < p ==> #[trigger] t.attr_readable(i),
                opt_view(mime_type) == t.attr_text(start - 1, p as int, "type"@),
            ensures
                start <= p < n,
                pos < start && t.starts(start - 1, "Survey"@),
                forall|i: int| start <= i < p ==> #[trigger] t.kind(i) == TokenKind::Attribute && Self::knows(t.key(i)),
                t.kind(p as int) == TokenKind::ElementEnd && !is_close_end(t.span(p as int)),
                t.till_start(pos as int, "Survey"@) == Some(start as int),
                t.attrs_end(start as int) == p,
                forall|i: int| start <= i < p ==> #[trigger] t.attr_readable(i),
                opt_view(mime_type) == t.attr_text(start - 1, p as int, "type"@),
            decreases n - p,
        {
            proof {
                lemma_attrs_end_bounds(t, p as int);
            }
            let (found, q) = find_attribute(t, p)?;
            match found {
                None => {
                    break;
                },
                Some((key, value)) => {
                    p = q;
                    proof {
                        reveal_strlit("type");
                        assert("type"@.len() == 4);
                    }
                    if str_eq(key.as_str(), "type") {
                        if mime_type.is_some() {
                            return Err(duplicate_attribute("type"));
                        }
                        mime_type = Some(value);
                    } else {
                        return Err(unknown_field("Survey", key));
                    }
                },
            }
        }
        let ghost e = p as int;
        let (text, q) = read_text(t, p, "Survey")?;
        p = q;
        assert(t.start_tag(start - 1, e, "Survey"@));
        assert(t.till_start(pos as int, "Survey"@) == Some(start as int));
        assert forall|i: int| start - 1 < i < e implies Self::knows(#[trigger] t.key(i)) by {
            assert(t.kind(i) == TokenKind::Attribute);
        }
        assert forall|i: int| start <= i < e implies #[trigger] t.attr_readable(i) && Self::knows(t.key(i)) by {
            assert(t.kind(i) == TokenKind::Attribute);
        }
        let v = Survey { mime_type, uri: text };
        assert(v.attrs_read(t, start - 1, e));
        Ok((v, p))
    }

    fn write(&self, out: &mut String) {
        write_start(out, "Survey");
        let ghost mut head = start_tag("Survey"@);
        write_opt_attribute(out, "type", &self.mime_type);
        proof {
            let piece = opt_attribute("type"@, opt_view(self.mime_type));
            lemma_append(old(out)@, head, piece);
            head = head + piece;
        }
        let ghost mid = out@;
        let ghost mut body = seq!['>'];
        write_open_end(out);
        write_text(out, self.uri.as_str(), true);
        proof {
            let piece = cdata(self.uri@);
            lemma_append(mid, body, piece);
            body = body + piece;
        }
        write_end(out, "Survey");
        proof {
            lemma_append(mid, body, end_tag("Survey"@));
            lemma_append(old(out)@, head, body + end_tag("Survey"@));
        }
    }
}

} // verus!
