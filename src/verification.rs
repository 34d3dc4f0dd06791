//! `<AdVerifications>`: code that verifies the playback of an ad.
use vstd::prelude::*;
use crate::codec::{
    XmlElement, children_cover, count_of, content_end, prev_end, lemma_cover_push,
    lemma_cover_extend, lemma_cover_empty, lemma_ends_empty, read_within, read_in_order,
    lemma_read_within_widen, lemma_ends_push, ends_fit, part_start, text_within, lemma_append,
    parse_bool_spec, seq_xml, opt_xml, opt_text, opt_attribute, opt_view, opt_bool_text,
    parse_bool, missing_field, unknown_field, duplicate_attribute, duplicate_element,
    read_text_child, write_all, write_opt, write_opt_text, write_opt_attribute,
    write_opt_bool_attribute,
};
use crate::reader::{
    is_close_end, lemma_attrs_end_bounds, read_till_element_start, find_attribute,
    find_element_start, read_text, is_empty_end_of,
};
use crate::writer::{
    start_tag, attribute, end_tag, cdata, write_start, write_attribute, write_open_end,
    write_empty_end, write_end, write_text,
};
use crate::xml::{DecodeError, TokenKind, Tokens};
use crate::text::{str_eq};
use crate::tracking::{TrackingEvents, Tracking};

verus! {


/// The resources that verify the ad's playback.
#[derive(Debug, Clone, PartialEq, Default)]
pub struct AdVerifications {
    /// Zero or more vendors.
    pub verifications: Vec<Verification>,
}

impl XmlElement for AdVerifications {
    open spec fn tag() -> Seq<char> {
        "AdVerifications"@
    }

    open spec fn knows(key: Seq<char>) -> bool {
        false
    }

    open spec fn attrs_read(&self, t: &Tokens, s: int, e: int) -> bool {
        true
    }

    open spec fn content_read(&self, t: &Tokens, e: int, q: int) -> bool {
        (forall|k: int| 0 <= k < self.verifications@.len() ==> read_within(*t, #[trigger] self.verifications@[k], e, q))
            && read_in_order(*t, self.verifications@, e)
            && exists|ws: Seq<(int, int, int)>|
                #[trigger] children_cover(*t, ws, e + 1, content_end(e, q), 1)
                && count_of(ws, 0) == self.verifications@.len()
                && count_of(ws, -1) == 0
    }

    open spec fn read_ok(t: &Tokens, pos: int) -> bool {
        false
    }

    open spec fn read_refused(t: &Tokens, pos: int) -> bool {
        t.start_malformed(pos, "AdVerifications"@) || match t.till_start(pos, "AdVerifications"@) {
            Some(a) => exists|i: int| a <= i < t.attrs_end(a) && !Self::knows(#[trigger] t.key(i)),
            None => false,
        }
    }

    open spec fn xml_spec(&self) -> Seq<char> {
        start_tag("AdVerifications"@)
            + (if self.verifications@.len() == 0 {
            seq!['/', '>']
        } else {
            seq!['>'] + seq_xml(self.verifications@) + end_tag("AdVerifications"@)
        })
    }

    fn read(t: &Tokens, pos: usize) -> (r: Result<(Self, usize), DecodeError>) {
        let n = t.items.len();
        let start = read_till_element_start(t, pos, "AdVerifications")?;
        let mut p = start;
        let mut verifications: Vec<Verification> = Vec::new();
        loop
            invariant
                n == t.len(),
                start <= p <= n,
                start == n || (pos < start && t.starts(start - 1, "AdVerifications"@)),
                forall|i: int| start <= i < p ==> #[trigger] t.kind(i) == TokenKind::Attribute && Self::knows(t.key(i)),
                t.till_start(pos as int, "AdVerifications"@) == Some(start as int),
                t.attrs_end(start as int) == t.attrs_end(p as int),
                forall|i: int| start <= i < p ==> #[trigger] t.attr_readable(i),
            ensures
                start <= p < n,
                pos < start && t.starts(start - 1, "AdVerifications"@),
                forall|i: int| start <= i < p ==> #[trigger] t.kind(i) == TokenKind::Attribute && Self::knows(t.key(i)),
                t.kind(p as int) == TokenKind::ElementEnd && !is_close_end(t.span(p as int)),
                t.till_start(pos as int, "AdVerifications"@) == Some(start as int),
                t.attrs_end(start as int) == p,
                forall|i: int| start <= i < p ==> #[trigger] t.attr_readable(i),
            decreases n - p,
        {
            proof {
                lemma_attrs_end_bounds(t, p as int);
            }
            let (found, q) = find_attribute(t, p)?;
            match found {
                None => {
                    break;
                },
                Some((key, value)) => {
                    p = q;
                    return Err(unknown_field("AdVerifications", key));
                },
            }
        }
        let ghost e = p as int;
        let ghost mut ends_verifications: Seq<int> = Seq::empty();
        proof {
            lemma_ends_empty(*t, verifications@, e);
        }
        let empty = is_empty_end_of(&t.items[p]);
        p = p + 1;
        let ghost mut ws: Seq<(int, int, int)> = Seq::empty();
        proof {
            lemma_cover_empty(*t, e + 1, 1);
        }
        if !empty {
            loop
                invariant_except_break
                    children_cover(*t, ws, e + 1, p as int, 1),
                    prev_end(ws, e + 1, ws.len() as int) == p,
                invariant
                    n == t.len(),
                    pos < p <= n,
                    e < p,
                    (forall|k: int| 0 <= k < verifications@.len() ==> read_within(*t, #[trigger] verifications@[k], e, p as int)),
                    ends_fit(*t, verifications@, e, ends_verifications),
                    part_start(ends_verifications, e, verifications@.len() as int) <= p,
                    count_of(ws, 0) == verifications@.len(),
                    count_of(ws, -1) == 0,
                ensures
                    pos < p <= n,
                    e < p,
                    children_cover(*t, ws, e + 1, content_end(e, p as int), 1),
                    (forall|k: int| 0 <= k < verifications@.len() ==> read_within(*t, #[trigger] verifications@[k], e, p as int)),
                    ends_fit(*t, verifications@, e, ends_verifications),
                    part_start(ends_verifications, e, verifications@.len() as int) <= p,
                    count_of(ws, 0) == verifications@.len(),
                    count_of(ws, -1) == 0,

                decreases n - p,
            {
                let (found, q) = find_element_start(t, p, "AdVerifications")?;
                match found {
                    None => {
                        proof {
                            lemma_cover_extend(*t, ws, e + 1, p as int, q as int - 1, 1);
                        }
                        p = q;
                        break;
                    },
                    Some(tag) => {
                        if str_eq(tag.as_str(), "Verification") {
                            let (v, q2) = Verification::read(t, q)?;
                            proof {
                                assert(read_within(*t, v, q as int, q2 as int));
                                lemma_read_within_widen(*t, v, q as int, q2 as int, part_start(ends_verifications, e, verifications@.len() as int), q2 as int);
                                lemma_ends_push(*t, verifications@, v, e, ends_verifications, q2 as int);
                                ends_verifications = ends_verifications.push(q2 as int);
                            }
                            verifications.push(v);
                            proof {
                                lemma_cover_push(*t, ws, e + 1, p as int, (q as int, q2 as int, 0), 1);
                                ws = ws.push((q as int, q2 as int, 0));
                            }
                            p = q2;
                        } else {
                            return Err(unknown_field("AdVerifications", tag));
                        }
                    },
                }
            }
        }
        assert(children_cover(*t, ws, e + 1, content_end(e, p as int), 1));
        assert(t.start_tag(start - 1, e, "AdVerifications"@));
        assert(t.till_start(pos as int, "AdVerifications"@) == Some(start as int));
        assert forall|i: int| start - 1 < i < e implies Self::knows(#[trigger] t.key(i)) by {
            assert(t.kind(i) == TokenKind::Attribute);
        }
        assert forall|i: int| start <= i < e implies #[trigger] t.attr_readable(i) && Self::knows(t.key(i)) by {
            assert(t.kind(i) == TokenKind::Attribute);
        }
        let v = AdVerifications { verifications };
        assert(v.content_read(t, e, p as int));
        Ok((v, p))
    }

    fn write(&self, out: &mut String) {
        write_start(out, "AdVerifications");
        let ghost mut head = start_tag("AdVerifications"@);
        if self.verifications.len() == 0 {
            write_empty_end(out);
        } else {
            let ghost mid = out@;
            let ghost mut body = seq!['>'];
            write_open_end(out);
            write_all(out, &self.verifications);
            proof {
                let piece = seq_xml(self.verifications@);
                lemma_append(mid, body, piece);
                body = body + piece;
            }
            write_end(out, "AdVerifications");
            proof {
                lemma_append(mid, body, end_tag("AdVerifications"@));
                lemma_append(old(out)@, head, body + end_tag("AdVerifications"@));
            }
        }
    }
}

/// The code and data of one verification vendor.
#[derive(Debug, Clone, PartialEq, Default)]
pub struct Verification {
    /// The vendor, as `domain-useCase`.
    pub vendor: Option<String>,
    /// Executable resources.
    pub executable_resources: Vec<ExecutableResource>,
    /// JavaScript resources.
    pub javascript_resources: Vec<JavaScriptResource>,
    /// Tracking events.
    pub tracking_events: Option<VerificationTrackingEvents>,
    /// Data for the vendor's code.
    pub verification_parameters: Option<String>,
}

impl XmlElement for Verification {
    open spec fn tag() -> Seq<char> {
        "Verification"@
    }

    open spec fn knows(key: Seq<char>) -> bool {
        key == "vendor"@
    }

    open spec fn attrs_read(&self, t: &Tokens, s: int, e: int) -> bool {
        (opt_view(self.vendor) == t.attr_text(s, e, "vendor"@))
    }

    open spec fn content_read(&self, t: &Tokens, e: int, q: int) -> bool {
        (forall|k: int| 0 <= k < self.executable_resources@.len() ==> read_within(*t, #[trigger] self.executable_resources@[k], e, q))
            && read_in_order(*t, self.executable_resources@, e)
            && (forall|k: int| 0 <= k < self.javascript_resources@.len() ==> read_within(*t, #[trigger] self.javascript_resources@[k], e, q))
            && read_in_order(*t, self.javascript_resources@, e)
            && (self.tracking_events matches Some(c) ==> read_within(*t, c, e, q))
            && (self.verification_parameters matches Some(x) ==> text_within(*t, "VerificationParameters"@, x@, e, q))
            && exists|ws: Seq<(int, int, int)>|
                #[trigger] children_cover(*t, ws, e + 1, content_end(e, q), 4)
                && count_of(ws, 0) == self.executable_resources@.len()
                && count_of(ws, 1) == self.javascript_resources@.len()
                && count_of(ws, 2) == (if self.tracking_events is Some { 1nat } else { 0nat })
                && count_of(ws, 3) == (if self.verification_parameters is Some { 1nat } else { 0nat })
                && count_of(ws, -1) == 0
    }

    open spec fn read_ok(t: &Tokens, pos: int) -> bool {
        false
    }

    open spec fn read_refused(t: &Tokens, pos: int) -> bool {
        t.start_malformed(pos, "Verification"@) || match t.till_start(pos, "Verification"@) {
            Some(a) => exists|i: int| a <= i < t.attrs_end(a) && !Self::knows(#[trigger] t.key(i)),
            None => false,
        }
    }

    open spec fn xml_spec(&self) -> Seq<char> {
        start_tag("Verification"@)
            + opt_attribute("vendor"@, opt_view(self.vendor))
            + (if self.executable_resources@.len() == 0 && self.javascript_resources@.len() == 0 && self.tracking_events is None && self.verification_parameters is None {
            seq!['/', '>']
        } else {
            seq!['>'] + seq_xml(self.executable_resources@) + seq_xml(self.javascript_resources@) + opt_xml(self.tracking_events) + opt_text("VerificationParameters"@, self.verification_parameters, true) + end_tag("Verification"@)
        })
    }

    fn read(t: &Tokens, pos: usize) -> (r: Result<(Self, usize), DecodeError>) {
        let n = t.items.len();
        let start = read_till_element_start(t, pos, "Verification")?;
        let mut p = start;
        let mut vendor: Option<String> = None;
        let mut executable_resources: Vec<ExecutableResource> = Vec::new();
        let mut javascript_resources: Vec<JavaScriptResource> = Vec::new();
        let mut tracking_events: Option<VerificationTrackingEvents> = None;
        let mut verification_parameters: Option<String> = None;
        loop
            invariant
                n == t.len(),
                start <= p <= n,
                start == n || (pos < start && t.starts(start - 1, "Verification"@)),
                forall|i: int| start <= i < p ==> #[trigger] t.kind(i) == TokenKind::Attribute && Self::knows(t.key(i)),
                t.till_start(pos as int, "Verification"@) == Some(start as int),
                t.attrs_end(start as int) == t.attrs_end(p as int),
                forall|i: int| start <= i < p ==> #[trigger] t.attr_readable(i),
                opt_view(vendor) == t.attr_text(start - 1, p as int, "vendor"@),
            ensures
                start <= p < n,
                pos < start && t.starts(start - 1, "Verification"@),
                forall|i: int| start <= i < p ==> #[trigger] t.kind(i) == TokenKind::Attribute && Self::knows(t.key(i)),
                t.kind(p as int) == TokenKind::ElementEnd && !is_close_end(t.span(p as int)),
                t.till_start(pos as int, "Verification"@) == Some(start as int),
                t.attrs_end(start as int) == p,
                forall|i: int| start <= i < p ==> #[trigger] t.attr_readable(i),
                opt_view(vendor) == t.attr_text(start - 1, p as int, "vendor"@),
            decreases n - p,
        {
            proof {
                lemma_attrs_end_bounds(t, p as int);
            }
            let (found, q) = find_attribute(t, p)?;
            match found {
                None => {
                    break;
                },
                Some((key, value)) => {
                    p = q;
                    proof {
                        reveal_strlit("vendor");
                        assert("vendor"@.len() == 6);
                    }
                    if str_eq(key.as_str(), "vendor") {
                        if vendor.is_some() {
                            return Err(duplicate_attribute("vendor"));
                        }
                        vendor = Some(value);
                    } else {
                        return Err(unknown_field("Verification", key));
                    }
                },
            }
        }
        let ghost e = p as int;
        let ghost mut ends_executable_resources: Seq<int> = Seq::empty();
        proof {
            lemma_ends_empty(*t, executable_resources@, e);
        }
        let ghost mut ends_javascript_resources: Seq<int> = Seq::empty();
        proof {
            lemma_ends_empty(*t, javascript_resources@, e);
        }
        let empty = is_empty_end_of(&t.items[p]);
        p = p + 1;
        let ghost mut ws: Seq<(int, int, int)> = Seq::empty();
        proof {
            lemma_cover_empty(*t, e + 1, 4);
        }
        if !empty {
            loop
                invariant_except_break
                    children_cover(*t, ws, e + 1, p as int, 4),
                    prev_end(ws, e + 1, ws.len() as int) == p,
                invariant
                    n == t.len(),
                    pos < p <= n,
                    e < p,
                    (forall|k: int| 0 <= k < executable_resources@.len() ==> read_within(*t, #[trigger] executable_resources@[k], e, p as int)),
                    (forall|k: int| 0 <= k < javascript_resources@.len() ==> read_within(*t, #[trigger] javascript_resources@[k], e, p as int)),
                    (tracking_events matches Some(c) ==> read_within(*t, c, e, p as int)),
                    (verification_parameters matches Some(x) ==> text_within(*t, "VerificationParameters"@, x@, e, p as int)),
                    ends_fit(*t, executable_resources@, e, ends_executable_resources),
                    part_start(ends_executable_resources, e, executable_resources@.len() as int) <= p,
                    ends_fit(*t, javascript_resources@, e, ends_javascript_resources),
                    part_start(ends_javascript_resources, e, javascript_resources@.len() as int) <= p,
                    count_of(ws, 0) == executable_resources@.len(),
                    count_of(ws, 1) == javascript_resources@.len(),
                    count_of(ws, 2) == (if tracking_events is Some { 1nat } else { 0nat }),
                    count_of(ws, 3) == (if verification_parameters is Some { 1nat } else { 0nat }),
                    count_of(ws, -1) == 0,
                ensures
                    pos < p <= n,
                    e < p,
                    children_cover(*t, ws, e + 1, content_end(e, p as int), 4),
                    (forall|k: int| 0 <= k < executable_resources@.len() ==> read_within(*t, #[trigger] executable_resources@[k], e, p as int)),
                    (forall|k: int| 0 <= k < javascript_resources@.len() ==> read_within(*t, #[trigger] javascript_resources@[k], e, p as int)),
                    (tracking_events matches Some(c) ==> read_within(*t, c, e, p as int)),
                    (verification_parameters matches Some(x) ==> text_within(*t, "VerificationParameters"@, x@, e, p as int)),
                    ends_fit(*t, executable_resources@, e, ends_executable_resources),
                    part_start(ends_executable_resources, e, executable_resources@.len() as int) <= p,
                    ends_fit(*t, javascript_resources@, e, ends_javascript_resources),
                    part_start(ends_javascript_resources, e, javascript_resources@.len() as int) <= p,
                    count_of(ws, 0) == executable_resources@.len(),
                    count_of(ws, 1) == javascript_resources@.len(),
                    count_of(ws, 2) == (if tracking_events is Some { 1nat } else { 0nat }),
                    count_of(ws, 3) == (if verification_parameters is Some { 1nat } else { 0nat }),
                    count_of(ws, -1) == 0,

                decreases n - p,
            {
                let (found, q) = find_element_start(t, p, "Verification")?;
                match found {
                    None => {
                        proof {
                            lemma_cover_extend(*t, ws, e + 1, p as int, q as int - 1, 4);
                        }
                        p = q;
                        break;
                    },
                    Some(tag) => {
                        if str_eq(tag.as_str(), "ExecutableResource") {
                            let (v, q2) = ExecutableResource::read(t, q)?;
                            proof {
                                assert(read_within(*t, v, q as int, q2 as int));
                                lemma_read_within_widen(*t, v, q as int, q2 as int, part_start(ends_executable_resources, e, executable_resources@.len() as int), q2 as int);
                                lemma_ends_push(*t, executable_resources@, v, e, ends_executable_resources, q2 as int);
                                ends_executable_resources = ends_executable_resources.push(q2 as int);
                            }
                            executable_resources.push(v);
                            proof {
                                lemma_cover_push(*t, ws, e + 1, p as int, (q as int, q2 as int, 0), 4);
                                ws = ws.push((q as int, q2 as int, 0));
                            }
                            p = q2;
                        } else if str_eq(tag.as_str(), "JavaScriptResource") {
                            let (v, q2) = JavaScriptResource::read(t, q)?;
                            proof {
                                assert(read_within(*t, v, q as int, q2 as int));
                                lemma_read_within_widen(*t, v, q as int, q2 as int, part_start(ends_javascript_resources, e, javascript_resources@.len() as int), q2 as int);
                                lemma_ends_push(*t, javascript_resources@, v, e, ends_javascript_resources, q2 as int);
                                ends_javascript_resources = ends_javascript_resources.push(q2 as int);
                            }
                            javascript_resources.push(v);
                            proof {
                                lemma_cover_push(*t, ws, e + 1, p as int, (q as int, q2 as int, 1), 4);
                                ws = ws.push((q as int, q2 as int, 1));
                            }
                            p = q2;
                        } else if str_eq(tag.as_str(), "TrackingEvents") {
                            if tracking_events.is_some() {
                                return Err(duplicate_element("TrackingEvents"));
                            }
                            let (v, q2) = VerificationTrackingEvents::read(t, q)?;
                            tracking_events = Some(v);
                            proof {
                                lemma_cover_push(*t, ws, e + 1, p as int, (q as int, q2 as int, 2), 4);
                                ws = ws.push((q as int, q2 as int, 2));
                            }
                            p = q2;
                        } else if str_eq(tag.as_str(), "VerificationParameters") {
                            if verification_parameters.is_some() {
                                return Err(duplicate_element("VerificationParameters"));
                            }
                            let (s, q2) = read_text_child(t, q, "VerificationParameters")?;
                            let v = s;
                            verification_parameters = Some(v);
                            proof {
                                lemma_cover_push(*t, ws, e + 1, p as int, (q as int, q2 as int, 3), 4);
                                ws = ws.push((q as int, q2 as int, 3));
                            }
                            p = q2;
                        } else {
                            return Err(unknown_field("Verification", tag));
                        }
                    },
                }
            }
        }
        assert(children_cover(*t, ws, e + 1, content_end(e, p as int), 4));
        assert(t.start_tag(start - 1, e, "Verification"@));
        assert(t.till_start(pos as int, "Verification"@) == Some(start as int));
        assert forall|i: int| start - 1 < i < e implies Self::knows(#[trigger] t.key(i)) by {
            assert(t.kind(i) == TokenKind::Attribute);
        }
        assert forall|i: int| start <= i < e implies #[trigger] t.attr_readable(i) && Self::knows(t.key(i)) by {
            assert(t.kind(i) == TokenKind::Attribute);
        }
        let v = Verification { vendor, executable_resources, javascript_resources, tracking_events, verification_parameters };
        assert(v.attrs_read(t, start - 1, e));
        assert(v.content_read(t, e, p as int));
        Ok((v, p))
    }

    fn write(&self, out: &mut String) {
        write_start(out, "Verification");
        let ghost mut head = start_tag("Verification"@);
        write_opt_attribute(out, "vendor", &self.vendor);
        proof {
            let piece = opt_attribute("vendor"@, opt_view(self.vendor));
            lemma_append(old(out)@, head, piece);
            head = head + piece;
        }
        if self.executable_resources.len() == 0 && self.javascript_resources.len() == 0 && self.tracking_events.is_none() && self.verification_parameters.is_none() {
            write_empty_end(out);
        } else {
            let ghost mid = out@;
            let ghost mut body = seq!['>'];
            write_open_end(out);
            write_all(out, &self.executable_resources);
            proof {
                let piece = seq_xml(self.executable_resources@);
                lemma_append(mid, body, piece);
                body = body + piece;
            }
            write_all(out, &self.javascript_resources);
            proof {
                let piece = seq_xml(self.javascript_resources@);
                lemma_append(mid, body, piece);
                body = body + piece;
            }
            write_opt(out, &self.tracking_events);
            proof {
                let piece = opt_xml(self.tracking_events);
                lemma_append(mid, body, piece);
                body = body + piece;
            }
            write_opt_text(out, "VerificationParameters", &self.verification_parameters, true);
            proof {
                let piece = opt_text("VerificationParameters"@, self.verification_parameters, true);
                lemma_append(mid, body, piece);
                body = body + piece;
            }
            write_end(out, "Verification");
            proof {
                lemma_append(mid, body, end_tag("Verification"@));
                lemma_append(old(out)@, head, body + end_tag("Verification"@));
            }
        }
    }
}

/// A JavaScript file that collects verification data.
#[derive(Debug, Clone, PartialEq, Default)]
pub struct JavaScriptResource {
    /// The API of the code.
    pub api_framework: Option<String>,
    /// Whether it runs without a browser.
    pub browser_optional: Option<bool>,
    /// The URI of the file.
    pub uri: String,
}

impl XmlElement for JavaScriptResource {
    open spec fn tag() -> Seq<char> {
        "JavaScriptResource"@
    }

    open spec fn knows(key: Seq<char>) -> bool {
        key == "apiFramework"@ || key == "browserOptional"@
    }

    open spec fn attrs_read(&self, t: &Tokens, s: int, e: int) -> bool {
        (opt_view(self.api_framework) == t.attr_text(s, e, "apiFramework"@))
            && (self.browser_optional == match t.attr_text(s, e, "browserOptional"@) {
            Some(v) => parse_bool_spec(v),
            None => None,
        })
    }

    open spec fn content_read(&self, t: &Tokens, e: int, q: int) -> bool {
        self.uri@ == t.text_of(e, q)
    }

    open spec fn read_ok(t: &Tokens, pos: int) -> bool {
        false
    }

    open spec fn read_refused(t: &Tokens, pos: int) -> bool {
        t.start_malformed(pos, "JavaScriptResource"@) || match t.till_start(pos, "JavaScriptResource"@) {
            Some(a) => exists|i: int| a <= i < t.attrs_end(a) && !Self::knows(#[trigger] t.key(i)),
            None => false,
        }
    }

    open spec fn xml_spec(&self) -> Seq<char> {
        start_tag("JavaScriptResource"@)
            + opt_attribute("apiFramework"@, opt_view(self.api_framework))
            + opt_attribute("browserOptional"@, opt_bool_text(self.browser_optional))
            + (seq!['>'] + cdata(self.uri@) + end_tag("JavaScriptResource"@))
    }

    fn read(t: &Tokens, pos: usize) -> (r: Result<(Self, usize), DecodeError>) {
        let n = t.items.len();
        let start = read_till_element_start(t, pos, "JavaScriptResource")?;
        let mut p = start;
        let mut api_framework: Option<String> = None;
        let mut browser_optional: Option<bool> = None;
        loop
            invariant
                n == t.len(),
                start <= p <= n,
                start == n || (pos < start && t.starts(start - 1, "JavaScriptResource"@)),
                forall|i: int| start <= i < p ==> #[trigger] t.kind(i) == TokenKind::Attribute && Self::knows(t.key(i)),
                t.till_start(pos as int, "JavaScriptResource"@) == Some(start as int),
                t.attrs_end(start as int) == t.attrs_end(p as int),
                forall|i: int| start <= i < p ==> #[trigger] t.attr_readable(i),
                opt_view(api_framework) == t.attr_text(start - 1, p as int, "apiFramework"@),
                browser_optional == match t.attr_text(start - 1, p as int, "browserOptional"@) {
                    Some(v) => parse_bool_spec(v),
                    None => None,
                },
            ensures
                start <= p < n,
                pos < start && t.starts(start - 1, "JavaScriptResource"@),
                forall|i: int| start <= i < p ==> #[trigger] t.kind(i) == TokenKind::Attribute && Self::knows(t.key(i)),
                t.kind(p as int) == TokenKind::ElementEnd && !is_close_end(t.span(p as int)),
                t.till_start(pos as int, "JavaScriptResource"@) == Some(start as int),
                t.attrs_end(start as int) == p,
                forall|i: int| start <= i < p ==> #[trigger] t.attr_readable(i),
                opt_view(api_framework) == t.attr_text(start - 1, p as int, "apiFramework"@),
                browser_optional == match t.attr_text(start - 1, p as int, "browserOptional"@) {
                    Some(v) => parse_bool_spec(v),
                    None => None,
                },
            decreases n - p,
        {
            proof {
                lemma_attrs_end_bounds(t, p as int);
            }
            let (found, q) = find_attribute(t, p)?;
            match found {
                None => {
                    break;
                },
                Some((key, value)) => {
                    p = q;
                    proof {
                        reveal_strlit("apiFramework");
                        reveal_strlit("browserOptional");
                        assert("apiFramework"@.len() == 12);
                        assert("browserOptional"@.len() == 15);
                    }
                    if str_eq(key.as_str(), "apiFramework") {
                        if api_framework.is_some() {
                            return Err(duplicate_attribute("apiFramework"));
                        }
                        api_framework = Some(value);
                    } else if str_eq(key.as_str(), "browserOptional") {
                        if browser_optional.is_some() {
                            return Err(duplicate_attribute("browserOptional"));
                        }
                        browser_optional = Some(parse_bool(value.as_str())?);
                    } else {
                        return Err(unknown_field("JavaScriptResource", key));
                    }
                },
            }
        }
        let ghost e = p as int;
        let (text, q) = read_text(t, p, "JavaScriptResource")?;
        p = q;
        assert(t.start_tag(start - 1, e, "JavaScriptResource"@));
        assert(t.till_start(pos as int, "JavaScriptResource"@) == Some(start as int));
        assert forall|i: int| start - 1 < i < e implies Self::knows(#[trigger] t.key(i)) by {
            assert(t.kind(i) == TokenKind::Attribute);
        }
        assert forall|i: int| start <= i < e implies #[trigger] t.attr_readable(i) && Self::knows(t.key(i)) by {
            assert(t.kind(i) == TokenKind::Attribute);
        }
        let v = JavaScriptResource { api_framework, browser_optional, uri: text };
        assert(v.attrs_read(t, start - 1, e));
        Ok((v, p))
    }

    fn write(&self, out: &mut String) {
        write_start(out, "JavaScriptResource");
        let ghost mut head = start_tag("JavaScriptResource"@);
        write_opt_attribute(out, "apiFramework", &self.api_framework);
        proof {
            let piece = opt_attribute("apiFramework"@, opt_view(self.api_framework));
            lemma_append(old(out)@, head, piece);
            head = head + piece;
        }
        write_opt_bool_attribute(out, "browserOptional", self.browser_optional);
        proof {
            let piece = opt_attribute("browserOptional"@, opt_bool_text(self.browser_optional));
            lemma_append(old(out)@, head, piece);
            head = head + piece;
        }
        let ghost mid = out@;
        let ghost mut body = seq!['>'];
        write_open_end(out);
        write_text(out, self.uri.as_str(), true);
        proof {
            let piece = cdata(self.uri@);
            lemma_append(mid, body, piece);
            body = body + piece;
        }
        write_end(out, "JavaScriptResource");
        proof {
            lemma_append(mid, body, end_tag("JavaScriptResource"@));
            lemma_append(old(out)@, head, body + end_tag("JavaScriptResource"@));
        }
    }
}

/// Non-JavaScript verification code.
#[derive(Debug, Clone, PartialEq, Default)]
pub struct ExecutableResource {
    /// The API of the code.
    pub api_framework: String,
    /// The type of the resource.
    pub resource_type: Option<String>,
    /// The reference to the resource.
    pub uri: String,
}

impl XmlElement for ExecutableResource {
    open spec fn tag() -> Seq<char> {
        "ExecutableResource"@
    }

    open spec fn knows(key: Seq<char>) -> bool {
        key == "apiFramework"@ || key == "type"@
    }

    open spec fn attrs_read(&self, t: &Tokens, s: int, e: int) -> bool {
        (t.attr_text(s, e, "apiFramework"@) == Some(self.api_framework@))
            && (opt_view(self.resource_type) == t.attr_text(s, e, "type"@))
    }

    open spec fn content_read(&self, t: &Tokens, e: int, q: int) -> bool {
        self.uri@ == t.text_of(e, q)
    }

    open spec fn read_ok(t: &Tokens, pos: int) -> bool {
        false
    }

    open spec fn read_refused(t: &Tokens, pos: int) -> bool {
        t.start_malformed(pos, "ExecutableResource"@) || match t.till_start(pos, "ExecutableResource"@) {
            Some(a) => exists|i: int| a <= i < t.attrs_end(a) && !Self::knows(#[trigger] t.key(i)),
            None => false,
        }
    }

    open spec fn xml_spec(&self) -> Seq<char> {
        start_tag("ExecutableResource"@)
            + attribute("apiFramework"@, self.api_framework@)
            + opt_attribute("type"@, opt_view(self.resource_type))
            + (seq!['>'] + cdata(self.uri@) + end_tag("ExecutableResource"@))
    }

    fn read(t: &Tokens, pos: usize) -> (r: Result<(Self, usize), DecodeError>) {
        let n = t.items.len();
        let start = read_till_element_start(t, pos, "ExecutableResource")?;
        let mut p = start;
        let mut api_framework: Option<String> = None;
        let mut resource_type: Option<String> = None;
        loop
            invariant
                n == t.len(),
                start <= p <= n,
                start == n || (pos < start && t.starts(start - 1, "ExecutableResource"@)),
                forall|i: int| start <= i < p ==> #[trigger] t.kind(i) == TokenKind::Attribute && Self::knows(t.key(i)),
                t.till_start(pos as int, "ExecutableResource"@) == Some(start as int),
                t.attrs_end(start as int) == t.attrs_end(p as int),
                forall|i: int| start <= i < p ==> #[trigger] t.attr_readable(i),
                opt_view(api_framework) == t.attr_text(start - 1, p as int, "apiFramework"@),
                opt_view(resource_type) == t.attr_text(start - 1, p as int, "type"@),
            ensures
                start <= p < n,
                pos < start && t.starts(start - 1, "ExecutableResource"@),
                forall|i: int| start <= i < p ==> #[trigger] t.kind(i) == TokenKind::Attribute && Self::knows(t.key(i)),
                t.kind(p as int) == TokenKind::ElementEnd && !is_close_end(t.span(p as int)),
                t.till_start(pos as int, "ExecutableResource"@) == Some(start as int),
                t.attrs_end(start as int) == p,
                forall|i: int| start <= i < p ==> #[trigger] t.attr_readable(i),
                opt_view(api_framework) == t.attr_text(start - 1, p as int, "apiFramework"@),
                opt_view(resource_type) == t.attr_text(start - 1, p as int, "type"@),
            decreases n - p,
        {
            proof {
                lemma_attrs_end_bounds(t, p as int);
            }
            let (found, q) = find_attribute(t, p)?;
            match found {
                None => {
                    break;
                },
                Some((key, value)) => {
                    p = q;
                    proof {
                        reveal_strlit("apiFramework");
                        reveal_strlit("type");
                        assert("apiFramework"@.len() == 12);
                        assert("type"@.len() == 4);
                    }
                    if str_eq(key.as_str(), "apiFramework") {
                        if api_framework.is_some() {
                            return Err(duplicate_attribute("apiFramework"));
                        }
                        api_framework = Some(value);
                    } else if str_eq(key.as_str(), "type") {
                        if resource_type.is_some() {
                            return Err(duplicate_attribute("type"));
                        }
                        resource_type = Some(value);
                    } else {
                        return Err(unknown_field("ExecutableResource", key));
                    }
                },
            }
        }
        let ghost e = p as int;
        let (text, q) = read_text(t, p, "ExecutableResource")?;
        p = q;
        let api_framework = match api_framework {
            Some(v) => v,
            None => return Err(missing_field("ExecutableResource", "api_framework")),
        };
        assert(t.start_tag(start - 1, e, "ExecutableResource"@));
        assert(t.till_start(pos as int, "ExecutableResource"@) == Some(start as int));
        assert forall|i: int| start - 1 < i < e implies Self::knows(#[trigger] t.key(i)) by {
            assert(t.kind(i) == TokenKind::Attribute);
        }
        assert forall|i: int| start <= i < e implies #[trigger] t.attr_readable(i) && Self::knows(t.key(i)) by {
            assert(t.kind(i) == TokenKind::Attribute);
        }
        let v = ExecutableResource { api_framework, resource_type, uri: text };
        assert(v.attrs_read(t, start - 1, e));
        Ok((v, p))
    }

    fn write(&self, out: &mut String) {
        write_start(out, "ExecutableResource");
        let ghost mut head = start_tag("ExecutableResource"@);
        write_attribute(out, "apiFramework", self.api_framework.as_str());
        proof {
            let piece = attribute("apiFramework"@, self.api_framework@);
            lemma_append(old(out)@, head, piece);
            head = head + piece;
        }
        write_opt_attribute(out, "type", &self.resource_type);
        proof {
            let piece = opt_attribute("type"@, opt_view(self.resource_type));
            lemma_append(old(out)@, head, piece);
            head = head + piece;
        }
        let ghost mid = out@;
        let ghost mut body = seq!['>'];
        write_open_end(out);
        write_text(out, self.uri.as_str(), true);
        proof {
            let piece = cdata(self.uri@);
            lemma_append(mid, body, piece);
            body = body + piece;
        }
        write_end(out, "ExecutableResource");
        proof {
            lemma_append(mid, body, end_tag("ExecutableResource"@));
            lemma_append(old(out)@, head, body + end_tag("ExecutableResource"@));
        }
    }
}

/// The tracking events of a verification vendor.
#[derive(Debug, Clone, PartialEq, Default)]
pub struct VerificationTrackingEvents {
    /// Zero or more events.
    pub trackings: Vec<VerificationTracking>,
}

impl XmlElement for VerificationTrackingEvents {
    open spec fn tag() -> Seq<char> {
        "TrackingEvents"@
    }

    open spec fn knows(key: Seq<char>) -> bool {
        false
    }

    open spec fn attrs_read(&self, t: &Tokens, s: int, e: int) -> bool {
        true
    }

    open spec fn content_read(&self, t: &Tokens, e: int, q: int) -> bool {
        (forall|k: int| 0 <= k < self.trackings@.len() ==> read_within(*t, #[trigger] self.trackings@[k], e, q))
            && read_in_order(*t, self.trackings@, e)
            && exists|ws: Seq<(int, int, int)>|
                #[trigger] children_cover(*t, ws, e + 1, content_end(e, q), 1)
                && count_of(ws, 0) == self.trackings@.len()
                && count_of(ws, -1) == 0
    }

    open spec fn read_ok(t: &Tokens, pos: int) -> bool {
        false
    }

    open spec fn read_refused(t: &Tokens, pos: int) -> bool {
        t.start_malformed(pos, "TrackingEvents"@) || match t.till_start(pos, "TrackingEvents"@) {
            Some(a) => exists|i: int| a <= i < t.attrs_end(a) && !Self::knows(#[trigger] t.key(i)),
            None => false,
        }
    }

    open spec fn xml_spec(&self) -> Seq<char> {
        start_tag("TrackingEvents"@)
            + (if self.trackings@.len() == 0 {
            seq!['/', '>']
        } else {
            seq!['>'] + seq_xml(self.trackings@) + end_tag("TrackingEvents"@)
        })
    }

    fn read(t: &Tokens, pos: usize) -> (r: Result<(Self, usize), DecodeError>) {
        let n = t.items.len();
        let start = read_till_element_start(t, pos, "TrackingEvents")?;
        let mut p = start;
        let mut trackings: Vec<VerificationTracking> = Vec::new();
        loop
            invariant
                n == t.len(),
                start <= p <= n,
                start == n || (pos < start && t.starts(start - 1, "TrackingEvents"@)),
                forall|i: int| start <= i < p ==> #[trigger] t.kind(i) == TokenKind::Attribute && Self::knows(t.key(i)),
                t.till_start(pos as int, "TrackingEvents"@) == Some(start as int),
                t.attrs_end(start as int) == t.attrs_end(p as int),
                forall|i: int| start <= i < p ==> #[trigger] t.attr_readable(i),
            ensures
                start <= p < n,
                pos < start && t.starts(start - 1, "TrackingEvents"@),
                forall|i: int| start <= i < p ==> #[trigger] t.kind(i) == TokenKind::Attribute && Self::knows(t.key(i)),
                t.kind(p as int) == TokenKind::ElementEnd && !is_close_end(t.span(p as int)),
                t.till_start(pos as int, "TrackingEvents"@) == Some(start as int),
                t.attrs_end(start as int) == p,
                forall|i: int| start <= i < p ==> #[trigger] t.attr_readable(i),
            decreases n - p,
        {
            proof {
                lemma_attrs_end_bounds(t, p as int);
            }
            let (found, q) = find_attribute(t, p)?;
            match found {
                None => {
                    break;
                },
                Some((key, value)) => {
                    p = q;
                    return Err(unknown_field("VerificationTrackingEvents", key));
                },
            }
        }
        let ghost e = p as int;
        let ghost mut ends_trackings: Seq<int> = Seq::empty();
        proof {
            lemma_ends_empty(*t, trackings@, e);
        }
        let empty = is_empty_end_of(&t.items[p]);
        p = p + 1;
        let ghost mut ws: Seq<(int, int, int)> = Seq::empty();
        proof {
            lemma_cover_empty(*t, e + 1, 1);
        }
        if !empty {
            loop
                invariant_except_break
                    children_cover(*t, ws, e + 1, p as int, 1),
                    prev_end(ws, e + 1, ws.len() as int) == p,
                invariant
                    n == t.len(),
                    pos < p <= n,
                    e < p,
                    (forall|k: int| 0 <= k < trackings@.len() ==> read_within(*t, #[trigger] trackings@[k], e, p as int)),
                    ends_fit(*t, trackings@, e, ends_trackings),
                    part_start(ends_trackings, e, trackings@.len() as int) <= p,
                    count_of(ws, 0) == trackings@.len(),
                    count_of(ws, -1) == 0,
                ensures
                    pos < p <= n,
                    e < p,
                    children_cover(*t, ws, e + 1, content_end(e, p as int), 1),
                    (forall|k: int| 0 <= k < trackings@.len() ==> read_within(*t, #[trigger] trackings@[k], e, p as int)),
                    ends_fit(*t, trackings@, e, ends_trackings),
                    part_start(ends_trackings, e, trackings@.len() as int) <= p,
                    count_of(ws, 0) == trackings@.len(),
                    count_of(ws, -1) == 0,

                decreases n - p,
            {
                let (found, q) = find_element_start(t, p, "TrackingEvents")?;
                match found {
                    None => {
                        proof {
                            lemma_cover_extend(*t, ws, e + 1, p as int, q as int - 1, 1);
                        }
                        p = q;
                        break;
                    },
                    Some(tag) => {
                        if str_eq(tag.as_str(), "Tracking") {
                            let (v, q2) = VerificationTracking::read(t, q)?;
                            proof {
                                assert(read_within(*t, v, q as int, q2 as int));
                                lemma_read_within_widen(*t, v, q as int, q2 as int, part_start(ends_trackings, e, trackings@.len() as int), q2 as int);
                                lemma_ends_push(*t, trackings@, v, e, ends_trackings, q2 as int);
                                ends_trackings = ends_trackings.push(q2 as int);
                            }
                            trackings.push(v);
                            proof {
                                lemma_cover_push(*t, ws, e + 1, p as int, (q as int, q2 as int, 0), 1);
                                ws = ws.push((q as int, q2 as int, 0));
                            }
                            p = q2;
                        } else {
                            return Err(unknown_field("VerificationTrackingEvents", tag));
                        }
                    },
                }
            }
        }
        assert(children_cover(*t, ws, e + 1, content_end(e, p as int), 1));
        assert(t.start_tag(start - 1, e, "TrackingEvents"@));
        assert(t.till_start(pos as int, "TrackingEvents"@) == Some(start as int));
        assert forall|i: int| start - 1 < i < e implies Self::knows(#[trigger] t.key(i)) by {
            assert(t.kind(i) == TokenKind::Attribute);
        }
        assert forall|i: int| start <= i < e implies #[trigger] t.attr_readable(i) && Self::knows(t.key(i)) by {
            assert(t.kind(i) == TokenKind::Attribute);
        }
        let v = VerificationTrackingEvents { trackings };
        assert(v.content_read(t, e, p as int));
        Ok((v, p))
    }

    fn write(&self, out: &mut String) {
        write_start(out, "TrackingEvents");
        let ghost mut head = start_tag("TrackingEvents"@);
        if self.trackings.len() == 0 {
            write_empty_end(out);
        } else {
            let ghost mid = out@;
            let ghost mut body = seq!['>'];
            write_open_end(out);
            write_all(out, &self.trackings);
            proof {
                let piece = seq_xml(self.trackings@);
                lemma_append(mid, body, piece);
                body = body + piece;
            }
            write_end(out, "TrackingEvents");
            proof {
                lemma_append(mid, body, end_tag("TrackingEvents"@));
                lemma_append(old(out)@, head, body + end_tag("TrackingEvents"@));
            }
        }
    }
}

/// A URI to request on a verification event.
#[derive(Debug, Clone, PartialEq, Default)]
pub struct VerificationTracking {
    /// The event.
    pub event: String,
    /// The URI.
    pub uri: String,
}

impl XmlElement for VerificationTracking {
    open spec fn tag() -> Seq<char> {
        "Tracking"@
    }

    open spec fn knows(key: Seq<char>) -> bool {
        key == "event"@
    }

    open spec fn attrs_read(&self, t: &Tokens, s: int, e: int) -> bool {
        (t.attr_text(s, e, "event"@) == Some(self.event@))
    }

    open spec fn content_read(&self, t: &Tokens, e: int, q: int) -> bool {
        self.uri@ == t.text_of(e, q)
    }

    open spec fn read_ok(t: &Tokens, pos: int) -> bool {
        false
    }

    open spec fn read_refused(t: &Tokens, pos: int) -> bool {
        t.start_malformed(pos, "Tracking"@) || match t.till_start(pos, "Tracking"@) {
            Some(a) => exists|i: int| a <= i < t.attrs_end(a) && !Self::knows(#[trigger] t.key(i)),
            None => false,
        }
    }

    open spec fn xml_spec(&self) -> Seq<char> {
        start_tag("Tracking"@)
            + attribute("event"@, self.event@)
            + (seq!['>'] + cdata(self.uri@) + end_tag("Tracking"@))
    }

    fn read(t: &Tokens, pos: usize) -> (r: Result<(Self, usize), DecodeError>) {
        let n = t.items.len();
        let start = read_till_element_start(t, pos, "Tracking")?;
        let mut p = start;
        let mut event: Option<String> = None;
        loop
            invariant
                n == t.len(),
                start <= p <= n,
                start == n || (pos < start && t.starts(start - 1, "Tracking"@)),
                forall|i: int| start <= i < p ==> #[trigger] t.kind(i) == TokenKind::Attribute && Self::knows(t.key(i)),
                t.till_start(pos as int, "Tracking"@) == Some(start as int),
                t.attrs_end(start as int) == t.attrs_end(p as int),
                forall|i: int| start <= i < p ==> #[trigger] t.attr_readable(i),
                opt_view(event) == t.attr_text(start - 1, p as int, "event"@),
            ensures
                start <= p < n,
                pos < start && t.starts(start - 1, "Tracking"@),
                forall|i: int| start <= i < p ==> #[trigger] t.kind(i) == TokenKind::Attribute && Self::knows(t.key(i)),
                t.kind(p as int) == TokenKind::ElementEnd && !is_close_end(t.span(p as int)),
                t.till_start(pos as int, "Tracking"@) == Some(start as int),
                t.attrs_end(start as int) == p,
                forall|i: int| start <= i < p ==> #[trigger] t.attr_readable(i),
                opt_view(event) == t.attr_text(start - 1, p as int, "event"@),
            decreases n - p,
        {
            proof {
                lemma_attrs_end_bounds(t, p as int);
            }
            let (found, q) = find_attribute(t, p)?;
            match found {
                None => {
                    break;
                },
                Some((key, value)) => {
                    p = q;
                    proof {
                        reveal_strlit("event");
                        assert("event"@.len() == 5);
                    }
                    if str_eq(key.as_str(), "event") {
                        if event.is_some() {
                            return Err(duplicate_attribute("event"));
                        }
                        event = Some(value);
                    } else {
                        return Err(unknown_field("VerificationTracking", key));
                    }
                },
            }
        }
        let ghost e = p as int;
        let (text, q) = read_text(t, p, "Tracking")?;
        p = q;
        let event = match event {
            Some(v) => v,
            None => return Err(missing_field("VerificationTracking", "event")),
        };
        assert(t.start_tag(start - 1, e, "Tracking"@));
        assert(t.till_start(pos as int, "Tracking"@) == Some(start as int));
        assert forall|i: int| start - 1 < i < e implies Self::knows(#[trigger] t.key(i)) by {
            assert(t.kind(i) == TokenKind::Attribute);
        }
        assert forall|i: int| start <= i < e implies #[trigger] t.attr_readable(i) && Self::knows(t.key(i)) by {
            assert(t.kind(i) == TokenKind::Attribute);
        }
        let v = VerificationTracking { event, uri: text };
        assert(v.attrs_read(t, start - 1, e));
        Ok((v, p))
    }

    fn write(&self, out: &mut String) {
        write_start(out, "Tracking");
        let ghost mut head = start_tag("Tracking"@);
        write_attribute(out, "event", self.event.as_str());
        proof {
            let piece = attribute("event"@, self.event@);
            lemma_append(old(out)@, head, piece);
            head = head + piece;
        }
        let ghost mid = out@;
        let ghost mut body = seq!['>'];
        write_open_end(out);
        write_text(out, self.uri.as_str(), true);
        proof {
            let piece = cdata(self.uri@);
            lemma_append(mid, body, piece);
            body = body + piece;
        }
        write_end(out, "Tracking");
        proof {
            lemma_append(mid, body, end_tag("Tracking"@));
            lemma_append(old(out)@, head, body + end_tag("Tracking"@));
        }
    }
}

} // verus!
