//! `<Wrapper>`: an ad that points to another document.
use vstd::prelude::*;
use crate::codec::{
    XmlElement, children_cover, count_of, content_end, prev_end, lemma_cover_push,
    lemma_cover_extend, lemma_cover_empty, lemma_ends_empty, lemma_text_ends_empty, read_within,
    read_in_order, texts_in_order, lemma_read_within_widen, lemma_ends_push, lemma_text_ends_push,
    ends_fit, text_ends_fit, part_start, text_within, lemma_append, parse_bool_spec, seq_xml,
    opt_xml, seq_text, opt_attribute, opt_view, opt_bool_text, parse_bool, missing_field,
    unknown_field, duplicate_attribute, duplicate_element, read_text_child, write_all, write_opt,
    write_text_elements, write_opt_attribute, write_opt_bool_attribute,
};
use crate::reader::{
    is_close_end, lemma_attrs_end_bounds, read_till_element_start, find_attribute,
    find_element_start, read_text, is_empty_end_of,
};
use crate::writer::{
    start_tag, end_tag, text_element, write_start, write_open_end, write_end, write_text,
    write_text_element,
};
use crate::xml::{DecodeError, TokenKind, Tokens, escape_spec};
use crate::text::{str_eq};
use crate::in_line::{AdSystem, Impression, Pricing};
use crate::viewable::{ViewableImpression};
use crate::creative::{Creatives};
use crate::verification::{AdVerifications, Verification};
use crate::extension::{Extensions};

verus! {


/// An ad that points to another VAST document for its data.
#[derive(Debug, Clone, PartialEq, Default)]
pub struct Wrapper {
    /// Whether further wrappers may follow.
    pub follow_additional_wrappers: Option<bool>,
    /// Whether the response may hold several ads.
    pub allow_multiple_ads: Option<bool>,
    /// Whether to use another ad when none comes.
    pub fallback_on_no_ad: Option<bool>,
    /// The ad server that returned the ad.
    pub ad_system: AdSystem,
    /// URIs to request on errors.
    pub errors: Vec<String>,
    /// Custom extensions.
    pub extensions: Option<Extensions>,
    /// URIs to request on an impression.
    pub impressions: Vec<Impression>,
    /// The price of the ad.
    pub pricing: Option<Pricing>,
    /// Viewability tracking.
    pub viewable_impression: Option<ViewableImpression>,
    /// Verification resources.
    pub ad_verifications: Option<AdVerifications>,
    /// Categories that must not play.
    pub blocked_ad_categories: Vec<BlockedAdCategories>,
    /// The creatives.
    pub creatives: Option<Creatives>,
    /// The URI of the next VAST document.
    pub vast_ad_tag_uri: String,
}

impl XmlElement for Wrapper {
    open spec fn tag() -> Seq<char> {
        "Wrapper"@
    }

    open spec fn knows(key: Seq<char>) -> bool {
        key == "followAdditionalWrappers"@ || key == "allowMultipleAds"@ || key == "fallbackOnNoAd"@
    }

    open spec fn attrs_read(&self, t: &Tokens, s: int, e: int) -> bool {
        (self.follow_additional_wrappers == match t.attr_text(s, e, "followAdditionalWrappers"@) {
            Some(v) => parse_bool_spec(v),
            None => None,
        })
            && (self.allow_multiple_ads == match t.attr_text(s, e, "allowMultipleAds"@) {
            Some(v) => parse_bool_spec(v),
            None => None,
        })
            && (self.fallback_on_no_ad == match t.attr_text(s, e, "fallbackOnNoAd"@) {
            Some(v) => parse_bool_spec(v),
            None => None,
        })
    }

    open spec fn content_read(&self, t: &Tokens, e: int, q: int) -> bool {
        read_within(*t, self.ad_system, e, q)
            && (self.extensions matches Some(c) ==> read_within(*t, c, e, q))
            && (forall|k: int| 0 <= k < self.impressions@.len() ==> read_within(*t, #[trigger] self.impressions@[k], e, q))
            && read_in_order(*t, self.impressions@, e)
            && (self.pricing matches Some(c) ==> read_within(*t, c, e, q))
            && (self.viewable_impression matches Some(c) ==> read_within(*t, c, e, q))
            && (self.ad_verifications matches Some(c) ==> read_within(*t, c, e, q))
            && (forall|k: int| 0 <= k < self.blocked_ad_categories@.len() ==> read_within(*t, #[trigger] self.blocked_ad_categories@[k], e, q))
            && read_in_order(*t, self.blocked_ad_categories@, e)
            && (self.creatives matches Some(c) ==> read_within(*t, c, e, q))
            && (forall|k: int| 0 <= k < self.errors@.len() ==> text_within(*t, "Error"@, #[trigger] self.errors@[k]@, e, q))
            && texts_in_order(*t, "Error"@, self.errors@, e)
            && text_within(*t, "VASTAdTagURI"@, self.vast_ad_tag_uri@, e, q)
            && exists|ws: Seq<(int, int, int)>|
                #[trigger] children_cover(*t, ws, e + 1, content_end(e, q), 10)
                && count_of(ws, 0) == 1nat
                && count_of(ws, 1) == (if self.extensions is Some { 1nat } else { 0nat })
                && count_of(ws, 2) == self.impressions@.len()
                && count_of(ws, 3) == (if self.pricing is Some { 1nat } else { 0nat })
                && count_of(ws, 4) == (if self.viewable_impression is Some { 1nat } else { 0nat })
                && count_of(ws, 5) == (if self.ad_verifications is Some { 1nat } else { 0nat })
                && count_of(ws, 6) == self.blocked_ad_categories@.len()
                && count_of(ws, 7) == (if self.creatives is Some { 1nat } else { 0nat })
                && count_of(ws, 8) == self.errors@.len()
                && count_of(ws, 9) == 1nat
                && count_of(ws, -1) == 0
    }

    open spec fn read_ok(t: &Tokens, pos: int) -> bool {
        false
    }

    open spec fn read_refused(t: &Tokens, pos: int) -> bool {
        t.start_malformed(pos, "Wrapper"@) || match t.till_start(pos, "Wrapper"@) {
            Some(a) => exists|i: int| a <= i < t.attrs_end(a) && !Self::knows(#[trigger] t.key(i)),
            None => false,
        }
    }

    open spec fn xml_spec(&self) -> Seq<char> {
        start_tag("Wrapper"@)
            + opt_attribute("followAdditionalWrappers"@, opt_bool_text(self.follow_additional_wrappers))
            + opt_attribute("allowMultipleAds"@, opt_bool_text(self.allow_multiple_ads))
            + opt_attribute("fallbackOnNoAd"@, opt_bool_text(self.fallback_on_no_ad))
            + (seq!['>'] + self.ad_system.xml_spec() + opt_xml(self.extensions) + seq_xml(self.impressions@) + opt_xml(self.pricing) + opt_xml(self.viewable_impression) + opt_xml(self.ad_verifications) + seq_xml(self.blocked_ad_categories@) + opt_xml(self.creatives) + seq_text("Error"@, self.errors@, true) + text_element("VASTAdTagURI"@, self.vast_ad_tag_uri@, false) + end_tag("Wrapper"@))
    }

    #[verifier::rlimit(100)]
    #[verifier::spinoff_prover]
    fn read(t: &Tokens, pos: usize) -> (r: Result<(Self, usize), DecodeError>) {
        let n = t.items.len();
        let start = read_till_element_start(t, pos, "Wrapper")?;
        let mut p = start;
        let mut follow_additional_wrappers: Option<bool> = None;
        let mut allow_multiple_ads: Option<bool> = None;
        let mut fallback_on_no_ad: Option<bool> = None;
        let mut ad_system: Option<AdSystem> = None;
        let mut extensions: Option<Extensions> = None;
        let mut impressions: Vec<Impression> = Vec::new();
        let mut pricing: Option<Pricing> = None;
        let mut viewable_impression: Option<ViewableImpression> = None;
        let mut ad_verifications: Option<AdVerifications> = None;
        let mut blocked_ad_categories: Vec<BlockedAdCategories> = Vec::new();
        let mut creatives: Option<Creatives> = None;
        let mut errors: Vec<String> = Vec::new();
        let mut vast_ad_tag_uri: Option<String> = None;
        loop
            invariant
                n == t.len(),
                start <= p <= n,
                start == n || (pos < start && t.starts(start - 1, "Wrapper"@)),
                forall|i: int| start <= i < p ==> #[trigger] t.kind(i) == TokenKind::Attribute && Self::knows(t.key(i)),
                t.till_start(pos as int, "Wrapper"@) == Some(start as int),
                t.attrs_end(start as int) == t.attrs_end(p as int),
                forall|i: int| start <= i < p ==> #[trigger] t.attr_readable(i),
                follow_additional_wrappers == match t.attr_text(start - 1, p as int, "followAdditionalWrappers"@) {
                    Some(v) => parse_bool_spec(v),
                    None => None,
                },
                allow_multiple_ads == match t.attr_text(start - 1, p as int, "allowMultipleAds"@) {
                    Some(v) => parse_bool_spec(v),
                    None => None,
                },
                fallback_on_no_ad == match t.attr_text(start - 1, p as int, "fallbackOnNoAd"@) {
                    Some(v) => parse_bool_spec(v),
                    None => None,
                },
            ensures
                start <= p < n,
                pos < start && t.starts(start - 1, "Wrapper"@),
                forall|i: int| start <= i < p ==> #[trigger] t.kind(i) == TokenKind::Attribute && Self::knows(t.key(i)),
                t.kind(p as int) == TokenKind::ElementEnd && !is_close_end(t.span(p as int)),
                t.till_start(pos as int, "Wrapper"@) == Some(start as int),
                t.attrs_end(start as int) == p,
                forall|i: int| start <= i < p ==> #[trigger] t.attr_readable(i),
                follow_additional_wrappers == match t.attr_text(start - 1, p as int, "followAdditionalWrappers"@) {
                    Some(v) => parse_bool_spec(v),
                    None => None,
                },
                allow_multiple_ads == match t.attr_text(start - 1, p as int, "allowMultipleAds"@) {
                    Some(v) => parse_bool_spec(v),
                    None => None,
                },
                fallback_on_no_ad == match t.attr_text(start - 1, p as int, "fallbackOnNoAd"@) {
                    Some(v) => parse_bool_spec(v),
                    None => None,
                },
            decreases n - p,
        {
            proof {
                lemma_attrs_end_bounds(t, p as int);
            }
            let (found, q) = find_attribute(t, p)?;
            match found {
                None => {
                    break;
                },
                Some((key, value)) => {
                    p = q;
                    proof {
                        reveal_strlit("followAdditionalWrappers");
                        reveal_strlit("allowMultipleAds");
                        reveal_strlit("fallbackOnNoAd");
                        assert("followAdditionalWrappers"@.len() == 24);
                        assert("allowMultipleAds"@.len() == 16);
                        assert("fallbackOnNoAd"@.len() == 14);
                    }
                    if str_eq(key.as_str(), "followAdditionalWrappers") {
                        if follow_additional_wrappers.is_some() {
                            return Err(duplicate_attribute("followAdditionalWrappers"));
                        }
                        follow_additional_wrappers = Some(parse_bool(value.as_str())?);
                    } else if str_eq(key.as_str(), "allowMultipleAds") {
                        if allow_multiple_ads.is_some() {
                            return Err(duplicate_attribute("allowMultipleAds"));
                        }
                        allow_multiple_ads = Some(parse_bool(value.as_str())?);
                    } else if str_eq(key.as_str(), "fallbackOnNoAd") {
                        if fallback_on_no_ad.is_some() {
                            return Err(duplicate_attribute("fallbackOnNoAd"));
                        }
                        fallback_on_no_ad = Some(parse_bool(value.as_str())?);
                    } else {
                        return Err(unknown_field("Wrapper", key));
                    }
                },
            }
        }
        let ghost e = p as int;
        let ghost mut ends_impressions: Seq<int> = Seq::empty();
        proof {
            lemma_ends_empty(*t, impressions@, e);
        }
        let ghost mut ends_blocked_ad_categories: Seq<int> = Seq::empty();
        proof {
            lemma_ends_empty(*t, blocked_ad_categories@, e);
        }
        let ghost mut ends_errors: Seq<int> = Seq::empty();
        proof {
            lemma_text_ends_empty(*t, "Error"@, errors@, e);
        }
        let empty = is_empty_end_of(&t.items[p]);
        p = p + 1;
        let ghost mut ws: Seq<(int, int, int)> = Seq::empty();
        proof {
            lemma_cover_empty(*t, e + 1, 10);
        }
        if !empty {
            loop
                invariant_except_break
                    children_cover(*t, ws, e + 1, p as int, 10),
                    prev_end(ws, e + 1, ws.len() as int) == p,
                invariant
                    n == t.len(),
                    pos < p <= n,
                    e < p,
                    (ad_system matches Some(c) ==> read_within(*t, c, e, p as int)),
                    (extensions matches Some(c) ==> read_within(*t, c, e, p as int)),
                    (forall|k: int| 0 <= k < impressions@.len() ==> read_within(*t, #[trigger] impressions@[k], e, p as int)),
                    (pricing matches Some(c) ==> read_within(*t, c, e, p as int)),
                    (viewable_impression matches Some(c) ==> read_within(*t, c, e, p as int)),
                    (ad_verifications matches Some(c) ==> read_within(*t, c, e, p as int)),
                    (forall|k: int| 0 <= k < blocked_ad_categories@.len() ==> read_within(*t, #[trigger] blocked_ad_categories@[k], e, p as int)),
                    (creatives matches Some(c) ==> read_within(*t, c, e, p as int)),
                    (forall|k: int| 0 <= k < errors@.len() ==> text_within(*t, "Error"@, #[trigger] errors@[k]@, e, p as int)),
                    (vast_ad_tag_uri matches Some(x) ==> text_within(*t, "VASTAdTagURI"@, x@, e, p as int)),
                    ends_fit(*t, impressions@, e, ends_impressions),
                    part_start(ends_impressions, e, impressions@.len() as int) <= p,
                    ends_fit(*t, blocked_ad_categories@, e, ends_blocked_ad_categories),
                    part_start(ends_blocked_ad_categories, e, blocked_ad_categories@.len() as int) <= p,
                    text_ends_fit(*t, "Error"@, errors@, e, ends_errors),
                    part_start(ends_errors, e, errors@.len() as int) <= p,
                    count_of(ws, 0) == (if ad_system is Some { 1nat } else { 0nat }),
                    count_of(ws, 1) == (if extensions is Some { 1nat } else { 0nat }),
                    count_of(ws, 2) == impressions@.len(),
                    count_of(ws, 3) == (if pricing is Some { 1nat } else { 0nat }),
                    count_of(ws, 4) == (if viewable_impression is Some { 1nat } else { 0nat }),
                    count_of(ws, 5) == (if ad_verifications is Some { 1nat } else { 0nat }),
                    count_of(ws, 6) == blocked_ad_categories@.len(),
                    count_of(ws, 7) == (if creatives is Some { 1nat } else { 0nat }),
                    count_of(ws, 8) == errors@.len(),
                    count_of(ws, 9) == (if vast_ad_tag_uri is Some { 1nat } else { 0nat }),
                    count_of(ws, -1) == 0,
                ensures
                    pos < p <= n,
                    e < p,
                    children_cover(*t, ws, e + 1, content_end(e, p as int), 10),
                    (ad_system matches Some(c) ==> read_within(*t, c, e, p as int)),
                    (extensions matches Some(c) ==> read_within(*t, c, e, p as int)),
                    (forall|k: int| 0 <= k < impressions@.len() ==> read_within(*t, #[trigger] impressions@[k], e, p as int)),
                    (pricing matches Some(c) ==> read_within(*t, c, e, p as int)),
                    (viewable_impression matches Some(c) ==> read_within(*t, c, e, p as int)),
                    (ad_verifications matches Some(c) ==> read_within(*t, c, e, p as int)),
                    (forall|k: int| 0 <= k < blocked_ad_categories@.len() ==> read_within(*t, #[trigger] blocked_ad_categories@[k], e, p as int)),
                    (creatives matches Some(c) ==> read_within(*t, c, e, p as int)),
                    (forall|k: int| 0 <= k < errors@.len() ==> text_within(*t, "Error"@, #[trigger] errors@[k]@, e, p as int)),
                    (vast_ad_tag_uri matches Some(x) ==> text_within(*t, "VASTAdTagURI"@, x@, e, p as int)),
                    ends_fit(*t, impressions@, e, ends_impressions),
                    part_start(ends_impressions, e, impressions@.len() as int) <= p,
                    ends_fit(*t, blocked_ad_categories@, e, ends_blocked_ad_categories),
                    part_start(ends_blocked_ad_categories, e, blocked_ad_categories@.len() as int) <= p,
                    text_ends_fit(*t, "Error"@, errors@, e, ends_errors),
                    part_start(ends_errors, e, errors@.len() as int) <= p,
                    count_of(ws, 0) == (if ad_system is Some { 1nat } else { 0nat }),
                    count_of(ws, 1) == (if extensions is Some { 1nat } else { 0nat }),
                    count_of(ws, 2) == impressions@.len(),
                    count_of(ws, 3) == (if pricing is Some { 1nat } else { 0nat }),
                    count_of(ws, 4) == (if viewable_impression is Some { 1nat } else { 0nat }),
                    count_of(ws, 5) == (if ad_verifications is Some { 1nat } else { 0nat }),
                    count_of(ws, 6) == blocked_ad_categories@.len(),
                    count_of(ws, 7) == (if creatives is Some { 1nat } else { 0nat }),
                    count_of(ws, 8) == errors@.len(),
                    count_of(ws, 9) == (if vast_ad_tag_uri is Some { 1nat } else { 0nat }),
                    count_of(ws, -1) == 0,

                decreases n - p,
            {
                let (found, q) = find_element_start(t, p, "Wrapper")?;
                match found {
                    None => {
                        proof {
                            lemma_cover_extend(*t, ws, e + 1, p as int, q as int - 1, 10);
                        }
                        p = q;
                        break;
                    },
                    Some(tag) => {
                        if str_eq(tag.as_str(), "AdSystem") {
                            if ad_system.is_some() {
                                return Err(duplicate_element("AdSystem"));
                            }
                            let (v, q2) = AdSystem::read(t, q)?;
                            ad_system = Some(v);
                            proof {
                                lemma_cover_push(*t, ws, e + 1, p as int, (q as int, q2 as int, 0), 10);
                                ws = ws.push((q as int, q2 as int, 0));
                            }
                            p = q2;
                        } else if str_eq(tag.as_str(), "Extensions") {
                            if extensions.is_some() {
                                return Err(duplicate_element("Extensions"));
                            }
                            let (v, q2) = Extensions::read(t, q)?;
                            extensions = Some(v);
                            proof {
                                lemma_cover_push(*t, ws, e + 1, p as int, (q as int, q2 as int, 1), 10);
                                ws = ws.push((q as int, q2 as int, 1));
                            }
                            p = q2;
                        } else if str_eq(tag.as_str(), "Impression") {
                            let (v, q2) = Impression::read(t, q)?;
                            proof {
                                assert(read_within(*t, v, q as int, q2 as int));
                                lemma_read_within_widen(*t, v, q as int, q2 as int, part_start(ends_impressions, e, impressions@.len() as int), q2 as int);
                                lemma_ends_push(*t, impressions@, v, e, ends_impressions, q2 as int);
                                ends_impressions = ends_impressions.push(q2 as int);
                            }
                            impressions.push(v);
                            proof {
                                lemma_cover_push(*t, ws, e + 1, p as int, (q as int, q2 as int, 2), 10);
                                ws = ws.push((q as int, q2 as int, 2));
                            }
                            p = q2;
                        } else if str_eq(tag.as_str(), "Pricing") {
                            if pricing.is_some() {
                                return Err(duplicate_element("Pricing"));
                            }
                            let (v, q2) = Pricing::read(t, q)?;
                            pricing = Some(v);
                            proof {
                                lemma_cover_push(*t, ws, e + 1, p as int, (q as int, q2 as int, 3), 10);
                                ws = ws.push((q as int, q2 as int, 3));
                            }
                            p = q2;
                        } else if str_eq(tag.as_str(), "ViewableImpression") {
                            if viewable_impression.is_some() {
                                return Err(duplicate_element("ViewableImpression"));
                            }
                            let (v, q2) = ViewableImpression::read(t, q)?;
                            viewable_impression = Some(v);
                            proof {
                                lemma_cover_push(*t, ws, e + 1, p as int, (q as int, q2 as int, 4), 10);
                                ws = ws.push((q as int, q2 as int, 4));
                            }
                            p = q2;
                        } else if str_eq(tag.as_str(), "AdVerifications") {
                            if ad_verifications.is_some() {
                                return Err(duplicate_element("AdVerifications"));
                            }
                            let (v, q2) = AdVerifications::read(t, q)?;
                            ad_verifications = Some(v);
                            proof {
                                lemma_cover_push(*t, ws, e + 1, p as int, (q as int, q2 as int, 5), 10);
                                ws = ws.push((q as int, q2 as int, 5));
                            }
                            p = q2;
                        } else if str_eq(tag.as_str(), "BlockedAdCategories") {
                            let (v, q2) = BlockedAdCategories::read(t, q)?;
                            proof {
                                assert(read_within(*t, v, q as int, q2 as int));
                                lemma_read_within_widen(*t, v, q as int, q2 as int, part_start(ends_blocked_ad_categories, e, blocked_ad_categories@.len() as int), q2 as int);
                                lemma_ends_push(*t, blocked_ad_categories@, v, e, ends_blocked_ad_categories, q2 as int);
                                ends_blocked_ad_categories = ends_blocked_ad_categories.push(q2 as int);
                            }
                            blocked_ad_categories.push(v);
                            proof {
                                lemma_cover_push(*t, ws, e + 1, p as int, (q as int, q2 as int, 6), 10);
                                ws = ws.push((q as int, q2 as int, 6));
                            }
                            p = q2;
                        } else if str_eq(tag.as_str(), "Creatives") {
                            if creatives.is_some() {
                                return Err(duplicate_element("Creatives"));
                            }
                            let (v, q2) = Creatives::read(t, q)?;
                            creatives = Some(v);
                            proof {
                                lemma_cover_push(*t, ws, e + 1, p as int, (q as int, q2 as int, 7), 10);
                                ws = ws.push((q as int, q2 as int, 7));
                            }
                            p = q2;
                        } else if str_eq(tag.as_str(), "Error") {
                            let (s, q2) = read_text_child(t, q, "Error")?;
                            let v = s;
                            proof {
                                assert(text_within(*t, "Error"@, v@, q as int, q2 as int));
                                assert(text_within(*t, "Error"@, v@, part_start(ends_errors, e, errors@.len() as int), q2 as int));
                                lemma_text_ends_push(*t, "Error"@, errors@, v, e, ends_errors, q2 as int);
                                ends_errors = ends_errors.push(q2 as int);
                            }
                            errors.push(v);
                            proof {
                                lemma_cover_push(*t, ws, e + 1, p as int, (q as int, q2 as int, 8), 10);
                                ws = ws.push((q as int, q2 as int, 8));
                            }
                            p = q2;
                        } else if str_eq(tag.as_str(), "VASTAdTagURI") {
                            if vast_ad_tag_uri.is_some() {
                                return Err(duplicate_element("VASTAdTagURI"));
                            }
                            let (s, q2) = read_text_child(t, q, "VASTAdTagURI")?;
                            let v = s;
                            vast_ad_tag_uri = Some(v);
                            proof {
                                lemma_cover_push(*t, ws, e + 1, p as int, (q as int, q2 as int, 9), 10);
                                ws = ws.push((q as int, q2 as int, 9));
                            }
                            p = q2;
                        } else {
                            return Err(unknown_field("Wrapper", tag));
                        }
                    },
                }
            }
        }
        assert(children_cover(*t, ws, e + 1, content_end(e, p as int), 10));
        let ad_system = match ad_system {
            Some(v) => v,
            None => return Err(missing_field("Wrapper", "ad_system")),
        };
        if impressions.len() == 0 {
            return Err(missing_field("Wrapper", "impressions"));
        }
        let vast_ad_tag_uri = match vast_ad_tag_uri {
            Some(v) => v,
            None => return Err(missing_field("Wrapper", "vast_ad_tag_uri")),
        };
        assert(t.start_tag(start - 1, e, "Wrapper"@));
        assert(t.till_start(pos as int, "Wrapper"@) == Some(start as int));
        assert forall|i: int| start - 1 < i < e implies Self::knows(#[trigger] t.key(i)) by {
            assert(t.kind(i) == TokenKind::Attribute);
        }
        assert forall|i: int| start <= i < e implies #[trigger] t.attr_readable(i) && Self::knows(t.key(i)) by {
            assert(t.kind(i) == TokenKind::Attribute);
        }
        let v = Wrapper { follow_additional_wrappers, allow_multiple_ads, fallback_on_no_ad, ad_system, errors, extensions, impressions, pricing, viewable_impression, ad_verifications, blocked_ad_categories, creatives, vast_ad_tag_uri };
        assert(v.attrs_read(t, start - 1, e));
        assert(v.content_read(t, e, p as int));
        Ok((v, p))
    }

    #[verifier::rlimit(40)]
    fn write(&self, out: &mut String) {
        write_start(out, "Wrapper");
        let ghost mut head = start_tag("Wrapper"@);
        write_opt_bool_attribute(out, "followAdditionalWrappers", self.follow_additional_wrappers);
        proof {
            let piece = opt_attribute("followAdditionalWrappers"@, opt_bool_text(self.follow_additional_wrappers));
            lemma_append(old(out)@, head, piece);
            head = head + piece;
        }
        write_opt_bool_attribute(out, "allowMultipleAds", self.allow_multiple_ads);
        proof {
            let piece = opt_attribute("allowMultipleAds"@, opt_bool_text(self.allow_multiple_ads));
            lemma_append(old(out)@, head, piece);
            head = head + piece;
        }
        write_opt_bool_attribute(out, "fallbackOnNoAd", self.fallback_on_no_ad);
        proof {
            let piece = opt_attribute("fallbackOnNoAd"@, opt_bool_text(self.fallback_on_no_ad));
            lemma_append(old(out)@, head, piece);
            head = head + piece;
        }
        let ghost mid = out@;
        let ghost mut body = seq!['>'];
        write_open_end(out);
        self.ad_system.write(out);
        proof {
            let piece = self.ad_system.xml_spec();
            lemma_append(mid, body, piece);
            body = body + piece;
        }
        write_opt(out, &self.extensions);
        proof {
            let piece = opt_xml(self.extensions);
            lemma_append(mid, body, piece);
            body = body + piece;
        }
        write_all(out, &self.impressions);
        proof {
            let piece = seq_xml(self.impressions@);
            lemma_append(mid, body, piece);
            body = body + piece;
        }
        write_opt(out, &self.pricing);
        proof {
            let piece = opt_xml(self.pricing);
            lemma_append(mid, body, piece);
            body = body + piece;
        }
        write_opt(out, &self.viewable_impression);
        proof {
            let piece = opt_xml(self.viewable_impression);
            lemma_append(mid, body, piece);
            body = body + piece;
        }
        write_opt(out, &self.ad_verifications);
        proof {
            let piece = opt_xml(self.ad_verifications);
            lemma_append(mid, body, piece);
            body = body + piece;
        }
        write_all(out, &self.blocked_ad_categories);
        proof {
            let piece = seq_xml(self.blocked_ad_categories@);
            lemma_append(mid, body, piece);
            body = body + piece;
        }
        write_opt(out, &self.creatives);
        proof {
            let piece = opt_xml(self.creatives);
            lemma_append(mid, body, piece);
            body = body + piece;
        }
        write_text_elements(out, "Error", &self.errors, true);
        proof {
            let piece = seq_text("Error"@, self.errors@, true);
            lemma_append(mid, body, piece);
            body = body + piece;
        }
        write_text_element(out, "VASTAdTagURI", self.vast_ad_tag_uri.as_str(), false);
        proof {
            let piece = text_element("VASTAdTagURI"@, self.vast_ad_tag_uri@, false);
            lemma_append(mid, body, piece);
            body = body + piece;
        }
        write_end(out, "Wrapper");
        proof {
            lemma_append(mid, body, end_tag("Wrapper"@));
            lemma_append(old(out)@, head, body + end_tag("Wrapper"@));
        }
    }
}

/// Categories of ads that must not play.
#[derive(Debug, Clone, PartialEq, Default)]
pub struct BlockedAdCategories {
    /// The authority of the codes.
    pub authority: Option<String>,
    /// Comma-separated category codes.
    pub codes: String,
}

impl XmlElement for BlockedAdCategories {
    open spec fn tag() -> Seq<char> {
        "BlockedAdCategories"@
    }

    open spec fn knows(key: Seq<char>) -> bool {
        key == "authority"@
    }

    open spec fn attrs_read(&self, t: &Tokens, s: int, e: int) -> bool {
        (opt_view(self.authority) == t.attr_text(s, e, "authority"@))
    }

    open spec fn content_read(&self, t: &Tokens, e: int, q: int) -> bool {
        self.codes@ == t.text_of(e, q)
    }

    open spec fn read_ok(t: &Tokens, pos: int) -> bool {
        false
    }

    open spec fn read_refused(t: &Tokens, pos: int) -> bool {
        t.start_malformed(pos, "BlockedAdCategories"@) || match t.till_start(pos, "BlockedAdCategories"@) {
            Some(a) => exists|i: int| a <= i < t.attrs_end(a) && !Self::knows(#[trigger] t.key(i)),
            None => false,
        }
    }

    open spec fn xml_spec(&self) -> Seq<char> {
        start_tag("BlockedAdCategories"@)
            + opt_attribute("authority"@, opt_view(self.authority))
            + (seq!['>'] + escape_spec(self.codes@) + end_tag("BlockedAdCategories"@))
    }

    fn read(t: &Tokens, pos: usize) -> (r: Result<(Self, usize), DecodeError>) {
        let n = t.items.len();
        let start = read_till_element_start(t, pos, "BlockedAdCategories")?;
        let mut p = start;
        let mut authority: Option<String> = None;
        loop
            invariant
                n == t.len(),
                start <= p <= n,
                start == n || (pos < start && t.starts(start - 1, "BlockedAdCategories"@)),
                forall|i: int| start <= i < p ==> #[trigger] t.kind(i) == TokenKind::Attribute && Self::knows(t.key(i)),
                t.till_start(pos as int, "BlockedAdCategories"@) == Some(start as int),
                t.attrs_end(start as int) == t.attrs_end(p as int),
                forall|i: int| start <= i < p ==> #[trigger] t.attr_readable(i),
                opt_view(authority) == t.attr_text(start - 1, p as int, "authority"@),
            ensures
                start <= p < n,
                pos < start && t.starts(start - 1, "BlockedAdCategories"@),
                forall|i: int| start <= i < p ==> #[trigger] t.kind(i) == TokenKind::Attribute && Self::knows(t.key(i)),
                t.kind(p as int) == TokenKind::ElementEnd && !is_close_end(t.span(p as int)),
                t.till_start(pos as int, "BlockedAdCategories"@) == Some(start as int),
                t.attrs_end(start as int) == p,
                forall|i: int| start <= i < p ==> #[trigger] t.attr_readable(i),
                opt_view(authority) == t.attr_text(start - 1, p as int, "authority"@),
            decreases n - p,
        {
            proof {
                lemma_attrs_end_bounds(t, p as int);
            }
            let (found, q) = find_attribute(t, p)?;
            match found {
                None => {
                    break;
                },
                Some((key, value)) => {
                    p = q;
                    proof {
                        reveal_strlit("authority");
                        assert("authority"@.len() == 9);
                    }
                    if str_eq(key.as_str(), "authority") {
                        if authority.is_some() {
                            return Err(duplicate_attribute("authority"));
                        }
                        authority = Some(value);
                    } else {
                        return Err(unknown_field("BlockedAdCategories", key));
                    }
                },
            }
        }
        let ghost e = p as int;
        let (text, q) = read_text(t, p, "BlockedAdCategories")?;
        p = q;
        assert(t.start_tag(start - 1, e, "BlockedAdCategories"@));
        assert(t.till_start(pos as int, "BlockedAdCategories"@) == Some(start as int));
        assert forall|i: int| start - 1 < i < e implies Self::knows(#[trigger] t.key(i)) by {
            assert(t.kind(i) == TokenKind::Attribute);
        }
        assert forall|i: int| start <= i < e implies #[trigger] t.attr_readable(i) && Self::knows(t.key(i)) by {
            assert(t.kind(i) == TokenKind::Attribute);
        }
        let v = BlockedAdCategories { authority, codes: text };
        assert(v.attrs_read(t, start - 1, e));
        Ok((v, p))
    }

    fn write(&self, out: &mut String) {
        write_start(out, "BlockedAdCategories");
        let ghost mut head = start_tag("BlockedAdCategories"@);
        write_opt_attribute(out, "authority", &self.authority);
        proof {
            let piece = opt_attribute("authority"@, opt_view(self.authority));
            lemma_append(old(out)@, head, piece);
            head = head + piece;
        }
        let ghost mid = out@;
        let ghost mut body = seq!['>'];
        write_open_end(out);
        write_text(out, self.codes.as_str(), false);
        proof {
            let piece = escape_spec(self.codes@);
            lemma_append(mid, body, piece);
            body = body + piece;
        }
        write_end(out, "BlockedAdCategories");
        proof {
            lemma_append(mid, body, end_tag("BlockedAdCategories"@));
            lemma_append(old(out)@, head, body + end_tag("BlockedAdCategories"@));
        }
    }
}

} // verus!
