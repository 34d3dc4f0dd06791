//! `<MediaFiles>` and the files of a linear creative.
use vstd::prelude::*;
use crate::codec::{
    XmlElement, children_cover, count_of, content_end, prev_end, lemma_cover_push,
    lemma_cover_extend, lemma_cover_empty, lemma_ends_empty, read_within, read_in_order,
    lemma_read_within_widen, lemma_ends_push, ends_fit, part_start, lemma_append, parse_bool_spec,
    seq_xml, opt_xml, opt_attribute, opt_view, opt_i32_text, opt_bool_text, parse_bool, parse_int,
    scalar_error, missing_field, unknown_field, duplicate_attribute, duplicate_element, write_all,
    write_opt, write_opt_attribute, write_int_attribute, write_opt_int_attribute,
    write_opt_bool_attribute, from_str,
};
use crate::reader::{
    is_close_end, lemma_attrs_end_bounds, read_till_element_start, find_attribute,
    find_element_start, read_text, is_empty_end_of,
};
use crate::writer::{
    start_tag, attribute, end_tag, cdata, write_start, write_attribute, write_open_end,
    write_empty_end, write_end, write_text,
};
use crate::xml::{DecodeError, TokenKind, Tokens};
use crate::text::{signed_decimal, parse_i32_spec};
use crate::error::{VastParseError, quoted_error};
use crate::text::{str_eq};

verus! {

/// The method of delivery of a media file.
#[derive(Debug, Clone, Copy, PartialEq, Eq, Structural, Default)]
pub enum DeliveryProtocol {
    /// Progressive download.
    #[default]
    Progressive,
    /// Streaming.
    Streaming,
}

impl DeliveryProtocol {
    /// The keyword that stands for the value in a document.
    pub open spec fn keyword(self) -> Seq<char> {
        match self {
            DeliveryProtocol::Progressive => "progressive"@,
            DeliveryProtocol::Streaming => "streaming"@,
        }
    }

    /// The value whose keyword is `s`.
    pub open spec fn parse_spec(s: Seq<char>) -> Option<DeliveryProtocol> {
        if s == "progressive"@ {
            Some(DeliveryProtocol::Progressive)
        } else if s == "streaming"@ {
            Some(DeliveryProtocol::Streaming)
        } else {
            None
        }
    }

    /// Reads a keyword.
    pub fn from_str(s: &str) -> (r: Result<Self, VastParseError>)
        ensures
            r matches Ok(v) ==> Self::parse_spec(s@) == Some(v),
            r matches Err(e) ==> Self::parse_spec(s@) is None && e.input@ == quoted_error(
                "delivery protocol parsing error: "@,
                s@,
            ),
    {
        if str_eq(s, "progressive") {
            Ok(DeliveryProtocol::Progressive)
        } else if str_eq(s, "streaming") {
            Ok(DeliveryProtocol::Streaming)
        } else {
            Err(VastParseError::quoting("delivery protocol parsing error: ", s))
        }
    }

    /// The keyword of the value.
    pub fn keyword_str(&self) -> (r: &'static str)
        ensures
            r@ == self.keyword(),
    {
        match self {
            DeliveryProtocol::Progressive => "progressive",
            DeliveryProtocol::Streaming => "streaming",
        }
    }

    /// The keyword of the value, as an owned string.
    pub fn to_string(&self) -> (r: String)
        ensures
            r@ == self.keyword(),
    {
        String::from_str(self.keyword_str())
    }
}

/// Reading the keyword of a value gives the value back.
pub proof fn lemma_delivery_protocol_round_trip(v: DeliveryProtocol)
    ensures
        DeliveryProtocol::parse_spec(v.keyword()) == Some(v),
{
    reveal_strlit("progressive");
    reveal_strlit("streaming");
    match v {
        DeliveryProtocol::Progressive => {
        },
        DeliveryProtocol::Streaming => {
            assert("streaming"@.len() != "progressive"@.len());
        },
    }
}

/// The files of a linear creative.
#[derive(Debug, Clone, PartialEq, Default)]
pub struct MediaFiles {
    /// Closed caption files.
    pub closed_caption_files: Option<ClosedCaptionFiles>,
    /// One or more media files.
    pub media_files: Vec<MediaFile>,
    /// Mezzanine files.
    pub mezzanines: Vec<Mezzanine>,
    /// Interactive creative files.
    pub interactive_creative_files: Vec<InteractiveCreativeFile>,
}

impl XmlElement for MediaFiles {
    open spec fn tag() -> Seq<char> {
        "MediaFiles"@
    }

    open spec fn knows(key: Seq<char>) -> bool {
        false
    }

    open spec fn attrs_read(&self, t: &Tokens, s: int, e: int) -> bool {
        true
    }

    open spec fn content_read(&self, t: &Tokens, e: int, q: int) -> bool {
        (self.closed_caption_files matches Some(c) ==> read_within(*t, c, e, q))
            && (forall|k: int| 0 <= k < self.media_files@.len() ==> read_within(*t, #[trigger] self.media_files@[k], e, q))
            && read_in_order(*t, self.media_files@, e)
            && (forall|k: int| 0 <= k < self.mezzanines@.len() ==> read_within(*t, #[trigger] self.mezzanines@[k], e, q))
            && read_in_order(*t, self.mezzanines@, e)
            && (forall|k: int| 0 <= k < self.interactive_creative_files@.len() ==> read_within(*t, #[trigger] self.interactive_creative_files@[k], e, q))
            && read_in_order(*t, self.interactive_creative_files@, e)
            && exists|ws: Seq<(int, int, int)>|
                #[trigger] children_cover(*t, ws, e + 1, content_end(e, q), 4)
                && count_of(ws, 0) == (if self.closed_caption_files is Some { 1nat } else { 0nat })
                && count_of(ws, 1) == self.media_files@.len()
                && count_of(ws, 2) == self.mezzanines@.len()
                && count_of(ws, 3) == self.interactive_creative_files@.len()
                && count_of(ws, -1) == 0
    }

    open spec fn read_ok(t: &Tokens, pos: int) -> bool {
        false
    }

    open spec fn read_refused(t: &Tokens, pos: int) -> bool {
        t.start_malformed(pos, "MediaFiles"@) || match t.till_start(pos, "MediaFiles"@) {
            Some(a) => exists|i: int| a <= i < t.attrs_end(a) && !Self::knows(#[trigger] t.key(i)),
            None => false,
        }
    }

    open spec fn xml_spec(&self) -> Seq<char> {
        start_tag("MediaFiles"@)
            + (if self.closed_caption_files is None && self.media_files@.len() == 0 && self.mezzanines@.len() == 0 && self.interactive_creative_files@.len() == 0 {
            seq!['/', '>']
        } else {
            seq!['>'] + opt_xml(self.closed_caption_files) + seq_xml(self.media_files@) + seq_xml(self.mezzanines@) + seq_xml(self.interactive_creative_files@) + end_tag("MediaFiles"@)
        })
    }

    fn read(t: &Tokens, pos: usize) -> (r: Result<(Self, usize), DecodeError>) {
        let n = t.items.len();
        let start = read_till_element_start(t, pos, "MediaFiles")?;
        let mut p = start;
        let mut closed_caption_files: Option<ClosedCaptionFiles> = None;
        let mut media_files: Vec<MediaFile> = Vec::new();
        let mut mezzanines: Vec<Mezzanine> = Vec::new();
        let mut interactive_creative_files: Vec<InteractiveCreativeFile> = Vec::new();
        loop
            invariant
                n == t.len(),
                start <= p <= n,
                start == n || (pos < start && t.starts(start - 1, "MediaFiles"@)),
                forall|i: int| start <= i < p ==> #[trigger] t.kind(i) == TokenKind::Attribute && Self::knows(t.key(i)),
                t.till_start(pos as int, "MediaFiles"@) == Some(start as int),
                t.attrs_end(start as int) == t.attrs_end(p as int),
                forall|i: int| start <= i < p ==> #[trigger] t.attr_readable(i),
            ensures
                start <= p < n,
                pos < start && t.starts(start - 1, "MediaFiles"@),
                forall|i: int| start <= i < p ==> #[trigger] t.kind(i) == TokenKind::Attribute && Self::knows(t.key(i)),
                t.kind(p as int) == TokenKind::ElementEnd && !is_close_end(t.span(p as int)),
                t.till_start(pos as int, "MediaFiles"@) == Some(start as int),
                t.attrs_end(start as int) == p,
                forall|i: int| start <= i < p ==> #[trigger] t.attr_readable(i),
            decreases n - p,
        {
            proof {
                lemma_attrs_end_bounds(t, p as int);
            }
            let (found, q) = find_attribute(t, p)?;
            match found {
                None => {
                    break;
                },
                Some((key, value)) => {
                    p = q;
                    return Err(unknown_field("MediaFiles", key));
                },
            }
        }
        let ghost e = p as int;
        let ghost mut ends_media_files: Seq<int> = Seq::empty();
        proof {
            lemma_ends_empty(*t, media_files@, e);
        }
        let ghost mut ends_mezzanines: Seq<int> = Seq::empty();
        proof {
            lemma_ends_empty(*t, mezzanines@, e);
        }
        let ghost mut ends_interactive_creative_files: Seq<int> = Seq::empty();
        proof {
            lemma_ends_empty(*t, interactive_creative_files@, e);
        }
        let empty = is_empty_end_of(&t.items[p]);
        p = p + 1;
        let ghost mut ws: Seq<(int, int, int)> = Seq::empty();
        proof {
            lemma_cover_empty(*t, e + 1, 4);
        }
        if !empty {
            loop
                invariant_except_break
                    children_cover(*t, ws, e + 1, p as int, 4),
                    prev_end(ws, e + 1, ws.len() as int) == p,
                invariant
                    n == t.len(),
                    pos < p <= n,
                    e < p,
                    (closed_caption_files matches Some(c) ==> read_within(*t, c, e, p as int)),
                    (forall|k: int| 0 <= k < media_files@.len() ==> read_within(*t, #[trigger] media_files@[k], e, p as int)),
                    (forall|k: int| 0 <= k < mezzanines@.len() ==> read_within(*t, #[trigger] mezzanines@[k], e, p as int)),
                    (forall|k: int| 0 <= k < interactive_creative_files@.len() ==> read_within(*t, #[trigger] interactive_creative_files@[k], e, p as int)),
                    ends_fit(*t, media_files@, e, ends_media_files),
                    part_start(ends_media_files, e, media_files@.len() as int) <= p,
                    ends_fit(*t, mezzanines@, e, ends_mezzanines),
                    part_start(ends_mezzanines, e, mezzanines@.len() as int) <= p,
                    ends_fit(*t, interactive_creative_files@, e, ends_interactive_creative_files),
                    part_start(ends_interactive_creative_files, e, interactive_creative_files@.len() as int) <= p,
                    count_of(ws, 0) == (if closed_caption_files is Some { 1nat } else { 0nat }),
                    count_of(ws, 1) == media_files@.len(),
                    count_of(ws, 2) == mezzanines@.len(),
                    count_of(ws, 3) == interactive_creative_files@.len(),
                    count_of(ws, -1) == 0,
                ensures
                    pos < p <= n,
                    e < p,
                    children_cover(*t, ws, e + 1, content_end(e, p as int), 4),
                    (closed_caption_files matches Some(c) ==> read_within(*t, c, e, p as int)),
                    (forall|k: int| 0 <= k < media_files@.len() ==> read_within(*t, #[trigger] media_files@[k], e, p as int)),
                    (forall|k: int| 0 <= k < mezzanines@.len() ==> read_within(*t, #[trigger] mezzanines@[k], e, p as int)),
                    (forall|k: int| 0 <= k < interactive_creative_files@.len() ==> read_within(*t, #[trigger] interactive_creative_files@[k], e, p as int)),
                    ends_fit(*t, media_files@, e, ends_media_files),
                    part_start(ends_media_files, e, media_files@.len() as int) <= p,
                    ends_fit(*t, mezzanines@, e, ends_mezzanines),
                    part_start(ends_mezzanines, e, mezzanines@.len() as int) <= p,
                    ends_fit(*t, interactive_creative_files@, e, ends_interactive_creative_files),
                    part_start(ends_interactive_creative_files, e, interactive_creative_files@.len() as int) <= p,
                    count_of(ws, 0) == (if closed_caption_files is Some { 1nat } else { 0nat }),
                    count_of(ws, 1) == media_files@.len(),
                    count_of(ws, 2) == mezzanines@.len(),
                    count_of(ws, 3) == interactive_creative_files@.len(),
                    count_of(ws, -1) == 0,

                decreases n - p,
            {
                let (found, q) = find_element_start(t, p, "MediaFiles")?;
                match found {
                    None => {
                        proof {
                            lemma_cover_extend(*t, ws, e + 1, p as int, q as int - 1, 4);
                        }
                        p = q;
                        break;
                    },
                    Some(tag) => {
                        if str_eq(tag.as_str(), "ClosedCaptionFiles") {
                            if closed_caption_files.is_some() {
                                return Err(duplicate_element("ClosedCaptionFiles"));
                            }
                            let (v, q2) = ClosedCaptionFiles::read(t, q)?;
                            closed_caption_files = Some(v);
                            proof {
                                lemma_cover_push(*t, ws, e + 1, p as int, (q as int, q2 as int, 0), 4);
                                ws = ws.push((q as int, q2 as int, 0));
                            }
                            p = q2;
                        } else if str_eq(tag.as_str(), "MediaFile") {
                            let (v, q2) = MediaFile::read(t, q)?;
                            proof {
                                assert(read_within(*t, v, q as int, q2 as int));
                                lemma_read_within_widen(*t, v, q as int, q2 as int, part_start(ends_media_files, e, media_files@.len() as int), q2 as int);
                                lemma_ends_push(*t, media_files@, v, e, ends_media_files, q2 as int);
                                ends_media_files = ends_media_files.push(q2 as int);
                            }
                            media_files.push(v);
                            proof {
                                lemma_cover_push(*t, ws, e + 1, p as int, (q as int, q2 as int, 1), 4);
                                ws = ws.push((q as int, q2 as int, 1));
                            }
                            p = q2;
                        } else if str_eq(tag.as_str(), "Mezzanine") {
                            let (v, q2) = Mezzanine::read(t, q)?;
                            proof {
                                assert(read_within(*t, v, q as int, q2 as int));
                                lemma_read_within_widen(*t, v, q as int, q2 as int, part_start(ends_mezzanines, e, mezzanines@.len() as int), q2 as int);
                                lemma_ends_push(*t, mezzanines@, v, e, ends_mezzanines, q2 as int);
                                ends_mezzanines = ends_mezzanines.push(q2 as int);
                            }
                            mezzanines.push(v);
                            proof {
                                lemma_cover_push(*t, ws, e + 1, p as int, (q as int, q2 as int, 2), 4);
                                ws = ws.push((q as int, q2 as int, 2));
                            }
                            p = q2;
                        } else if str_eq(tag.as_str(), "InteractiveCreativeFile") {
                            let (v, q2) = InteractiveCreativeFile::read(t, q)?;
                            proof {
                                assert(read_within(*t, v, q as int, q2 as int));
                                lemma_read_within_widen(*t, v, q as int, q2 as int, part_start(ends_interactive_creative_files, e, interactive_creative_files@.len() as int), q2 as int);
                                lemma_ends_push(*t, interactive_creative_files@, v, e, ends_interactive_creative_files, q2 as int);
                                ends_interactive_creative_files = ends_interactive_creative_files.push(q2 as int);
                            }
                            interactive_creative_files.push(v);
                            proof {
                                lemma_cover_push(*t, ws, e + 1, p as int, (q as int, q2 as int, 3), 4);
                                ws = ws.push((q as int, q2 as int, 3));
                            }
                            p = q2;
                        } else {
                            return Err(unknown_field("MediaFiles", tag));
                        }
                    },
                }
            }
        }
        assert(children_cover(*t, ws, e + 1, content_end(e, p as int), 4));
        if media_files.len() == 0 {
            return Err(missing_field("MediaFiles", "media_files"));
        }
        assert(t.start_tag(start - 1, e, "MediaFiles"@));
        assert(t.till_start(pos as int, "MediaFiles"@) == Some(start as int));
        assert forall|i: int| start - 1 < i < e implies Self::knows(#[trigger] t.key(i)) by {
            assert(t.kind(i) == TokenKind::Attribute);
        }
        assert forall|i: int| start <= i < e implies #[trigger] t.attr_readable(i) && Self::knows(t.key(i)) by {
            assert(t.kind(i) == TokenKind::Attribute);
        }
        let v = MediaFiles { closed_caption_files, media_files, mezzanines, interactive_creative_files };
        assert(v.content_read(t, e, p as int));
        Ok((v, p))
    }

    fn write(&self, out: &mut String) {
        write_start(out, "MediaFiles");
        let ghost mut head = start_tag("MediaFiles"@);
        if self.closed_caption_files.is_none() && self.media_files.len() == 0 && self.mezzanines.len() == 0 && self.interactive_creative_files.len() == 0 {
            write_empty_end(out);
        } else {
            let ghost mid = out@;
            let ghost mut body = seq!['>'];
            write_open_end(out);
            write_opt(out, &self.closed_caption_files);
            proof {
                let piece = opt_xml(self.closed_caption_files);
                lemma_append(mid, body, piece);
                body = body + piece;
            }
            write_all(out, &self.media_files);
            proof {
                let piece = seq_xml(self.media_files@);
                lemma_append(mid, body, piece);
                body = body + piece;
            }
            write_all(out, &self.mezzanines);
            proof {
                let piece = seq_xml(self.mezzanines@);
                lemma_append(mid, body, piece);
                body = body + piece;
            }
            write_all(out, &self.interactive_creative_files);
            proof {
                let piece = seq_xml(self.interactive_creative_files@);
                lemma_append(mid, body, piece);
                body = body + piece;
            }
            write_end(out, "MediaFiles");
            proof {
                lemma_append(mid, body, end_tag("MediaFiles"@));
                lemma_append(old(out)@, head, body + end_tag("MediaFiles"@));
            }
        }
    }
}

/// A video or audio file of a linear creative.
#[derive(Debug, Clone, PartialEq, Default)]
pub struct MediaFile {
    /// An identifier of the file.
    pub id: Option<String>,
    /// How the file is delivered.
    pub delivery: DeliveryProtocol,
    /// The MIME type of the file.
    pub mime_type: String,
    /// Width in pixels; zero for audio.
    pub width: i32,
    /// Height in pixels; zero for audio.
    pub height: i32,
    /// The codec.
    pub codec: Option<String>,
    /// Average bitrate in kbit/s.
    pub bitrate: Option<i32>,
    /// Minimum bitrate in kbit/s.
    pub min_bitrate: Option<i32>,
    /// Maximum bitrate in kbit/s.
    pub max_bitrate: Option<i32>,
    /// Whether the file may be scaled.
    pub scalable: Option<bool>,
    /// Whether the aspect ratio must be kept.
    pub maintain_aspect_ratio: Option<bool>,
    /// Size in bytes.
    pub file_size: Option<i32>,
    /// The type of media.
    pub media_type: Option<String>,
    /// The API of an interactive file.
    pub api_framework: Option<String>,
    /// The URI of the file.
    pub uri: String,
}

impl XmlElement for MediaFile {
    open spec fn tag() -> Seq<char> {
        "MediaFile"@
    }

    open spec fn knows(key: Seq<char>) -> bool {
        key == "id"@ || key == "delivery"@ || key == "type"@ || key == "width"@ || key == "height"@ || key == "codec"@ || key == "bitrate"@ || key == "minBitrate"@ || key == "maxBitrate"@ || key == "scalable"@ || key == "maintainAspectRatio"@ || key == "fileSize"@ || key == "mediaType"@ || key == "apiFramework"@
    }

    open spec fn attrs_read(&self, t: &Tokens, s: int, e: int) -> bool {
        (opt_view(self.id) == t.attr_text(s, e, "id"@))
            && (match t.attr_text(s, e, "delivery"@) {
            Some(v) => DeliveryProtocol::parse_spec(v) == Some(self.delivery),
            None => false,
        })
            && (t.attr_text(s, e, "type"@) == Some(self.mime_type@))
            && (match t.attr_text(s, e, "width"@) {
            Some(v) => parse_i32_spec(v) == Some(self.width),
            None => false,
        })
            && (match t.attr_text(s, e, "height"@) {
            Some(v) => parse_i32_spec(v) == Some(self.height),
            None => false,
        })
            && (opt_view(self.codec) == t.attr_text(s, e, "codec"@))
            && (self.bitrate == match t.attr_text(s, e, "bitrate"@) {
            Some(v) => parse_i32_spec(v),
            None => None,
        })
            && (self.min_bitrate == match t.attr_text(s, e, "minBitrate"@) {
            Some(v) => parse_i32_spec(v),
            None => None,
        })
            && (self.max_bitrate == match t.attr_text(s, e, "maxBitrate"@) {
            Some(v) => parse_i32_spec(v),
            None => None,
        })
            && (self.scalable == match t.attr_text(s, e, "scalable"@) {
            Some(v) => parse_bool_spec(v),
            None => None,
        })
            && (self.maintain_aspect_ratio == match t.attr_text(s, e, "maintainAspectRatio"@) {
            Some(v) => parse_bool_spec(v),
            None => None,
        })
            && (self.file_size == match t.attr_text(s, e, "fileSize"@) {
            Some(v) => parse_i32_spec(v),
            None => None,
        })
            && (opt_view(self.media_type) == t.attr_text(s, e, "mediaType"@))
            && (opt_view(self.api_framework) == t.attr_text(s, e, "apiFramework"@))
    }

    open spec fn content_read(&self, t: &Tokens, e: int, q: int) -> bool {
        self.uri@ == t.text_of(e, q)
    }

    open spec fn read_ok(t: &Tokens, pos: int) -> bool {
        false
    }

    open spec fn read_refused(t: &Tokens, pos: int) -> bool {
        t.start_malformed(pos, "MediaFile"@) || match t.till_start(pos, "MediaFile"@) {
            Some(a) => exists|i: int| a <= i < t.attrs_end(a) && !Self::knows(#[trigger] t.key(i)),
            None => false,
        }
    }

    open spec fn xml_spec(&self) -> Seq<char> {
        start_tag("MediaFile"@)
            + opt_attribute("id"@, opt_view(self.id))
            + attribute("delivery"@, self.delivery.keyword())
            + attribute("type"@, self.mime_type@)
            + attribute("width"@, signed_decimal(self.width as int))
            + attribute("height"@, signed_decimal(self.height as int))
            + opt_attribute("codec"@, opt_view(self.codec))
            + opt_attribute("bitrate"@, opt_i32_text(self.bitrate))
            + opt_attribute("minBitrate"@, opt_i32_text(self.min_bitrate))
            + opt_attribute("maxBitrate"@, opt_i32_text(self.max_bitrate))
            + opt_attribute("scalable"@, opt_bool_text(self.scalable))
            + opt_attribute("maintainAspectRatio"@, opt_bool_text(self.maintain_aspect_ratio))
            + opt_attribute("fileSize"@, opt_i32_text(self.file_size))
            + opt_attribute("mediaType"@, opt_view(self.media_type))
            + opt_attribute("apiFramework"@, opt_view(self.api_framework))
            + (seq!['>'] + cdata(self.uri@) + end_tag("MediaFile"@))
    }

    #[verifier::rlimit(100)]
    #[verifier::spinoff_prover]
    fn read(t: &Tokens, pos: usize) -> (r: Result<(Self, usize), DecodeError>) {
        let n = t.items.len();
        let start = read_till_element_start(t, pos, "MediaFile")?;
        let mut p = start;
        let mut id: Option<String> = None;
        let mut delivery: Option<DeliveryProtocol> = None;
        let mut mime_type: Option<String> = None;
        let mut width: Option<i32> = None;
        let mut height: Option<i32> = None;
        let mut codec: Option<String> = None;
        let mut bitrate: Option<i32> = None;
        let mut min_bitrate: Option<i32> = None;
        let mut max_bitrate: Option<i32> = None;
        let mut scalable: Option<bool> = None;
        let mut maintain_aspect_ratio: Option<bool> = None;
        let mut file_size: Option<i32> = None;
        let mut media_type: Option<String> = None;
        let mut api_framework: Option<String> = None;
        loop
            invariant
                n == t.len(),
                start <= p <= n,
                start == n || (pos < start && t.starts(start - 1, "MediaFile"@)),
                forall|i: int| start <= i < p ==> #[trigger] t.kind(i) == TokenKind::Attribute && Self::knows(t.key(i)),
                t.till_start(pos as int, "MediaFile"@) == Some(start as int),
                t.attrs_end(start as int) == t.attrs_end(p as int),
                forall|i: int| start <= i < p ==> #[trigger] t.attr_readable(i),
                opt_view(id) == t.attr_text(start - 1, p as int, "id"@),
                delivery == match t.attr_text(start - 1, p as int, "delivery"@) {
                    Some(v) => DeliveryProtocol::parse_spec(v),
                    None => None,
                },
                opt_view(mime_type) == t.attr_text(start - 1, p as int, "type"@),
                width == match t.attr_text(start - 1, p as int, "width"@) {
                    Some(v) => parse_i32_spec(v),
                    None => None,
                },
                height == match t.attr_text(start - 1, p as int, "height"@) {
                    Some(v) => parse_i32_spec(v),
                    None => None,
                },
                opt_view(codec) == t.attr_text(start - 1, p as int, "codec"@),
                bitrate == match t.attr_text(start - 1, p as int, "bitrate"@) {
                    Some(v) => parse_i32_spec(v),
                    None => None,
                },
                min_bitrate == match t.attr_text(start - 1, p as int, "minBitrate"@) {
                    Some(v) => parse_i32_spec(v),
                    None => None,
                },
                max_bitrate == match t.attr_text(start - 1, p as int, "maxBitrate"@) {
                    Some(v) => parse_i32_spec(v),
                    None => None,
                },
                scalable == match t.attr_text(start - 1, p as int, "scalable"@) {
                    Some(v) => parse_bool_spec(v),
                    None => None,
                },
                maintain_aspect_ratio == match t.attr_text(start - 1, p as int, "maintainAspectRatio"@) {
                    Some(v) => parse_bool_spec(v),
                    None => None,
                },
                file_size == match t.attr_text(start - 1, p as int, "fileSize"@) {
                    Some(v) => parse_i32_spec(v),
                    None => None,
                },
                opt_view(media_type) == t.attr_text(start - 1, p as int, "mediaType"@),
                opt_view(api_framework) == t.attr_text(start - 1, p as int, "apiFramework"@),
            ensures
                start <= p < n,
                pos < start && t.starts(start - 1, "MediaFile"@),
                forall|i: int| start <= i < p ==> #[trigger] t.kind(i) == TokenKind::Attribute && Self::knows(t.key(i)),
                t.kind(p as int) == TokenKind::ElementEnd && !is_close_end(t.span(p as int)),
                t.till_start(pos as int, "MediaFile"@) == Some(start as int),
                t.attrs_end(start as int) == p,
                forall|i: int| start <= i < p ==> #[trigger] t.attr_readable(i),
                opt_view(id) == t.attr_text(start - 1, p as int, "id"@),
                delivery == match t.attr_text(start - 1, p as int, "delivery"@) {
                    Some(v) => DeliveryProtocol::parse_spec(v),
                    None => None,
                },
                opt_view(mime_type) == t.attr_text(start - 1, p as int, "type"@),
                width == match t.attr_text(start - 1, p as int, "width"@) {
                    Some(v) => parse_i32_spec(v),
                    None => None,
                },
                height == match t.attr_text(start - 1, p as int, "height"@) {
                    Some(v) => parse_i32_spec(v),
                    None => None,
                },
                opt_view(codec) == t.attr_text(start - 1, p as int, "codec"@),
                bitrate == match t.attr_text(start - 1, p as int, "bitrate"@) {
                    Some(v) => parse_i32_spec(v),
                    None => None,
                },
                min_bitrate == match t.attr_text(start - 1, p as int, "minBitrate"@) {
                    Some(v) => parse_i32_spec(v),
                    None => None,
                },
                max_bitrate == match t.attr_text(start - 1, p as int, "maxBitrate"@) {
                    Some(v) => parse_i32_spec(v),
                    None => None,
                },
                scalable == match t.attr_text(start - 1, p as int, "scalable"@) {
                    Some(v) => parse_bool_spec(v),
                    None => None,
                },
                maintain_aspect_ratio == match t.attr_text(start - 1, p as int, "maintainAspectRatio"@) {
                    Some(v) => parse_bool_spec(v),
                    None => None,
                },
                file_size == match t.attr_text(start - 1, p as int, "fileSize"@) {
                    Some(v) => parse_i32_spec(v),
                    None => None,
                },
                opt_view(media_type) == t.attr_text(start - 1, p as int, "mediaType"@),
                opt_view(api_framework) == t.attr_text(start - 1, p as int, "apiFramework"@),
            decreases n - p,
        {
            proof {
                lemma_attrs_end_bounds(t, p as int);
            }
            let (found, q) = find_attribute(t, p)?;
            match found {
                None => {
                    break;
                },
                Some((key, value)) => {
                    p = q;
                    proof {
                        reveal_strlit("id");
                        reveal_strlit("delivery");
                        reveal_strlit("type");
                        reveal_strlit("width");
                        reveal_strlit("height");
                        reveal_strlit("codec");
                        reveal_strlit("bitrate");
                        reveal_strlit("minBitrate");
                        reveal_strlit("maxBitrate");
                        reveal_strlit("scalable");
                        reveal_strlit("maintainAspectRatio");
                        reveal_strlit("fileSize");
                        reveal_strlit("mediaType");
                        reveal_strlit("apiFramework");
                        assert("id"@.len() == 2);
                        assert("delivery"@.len() == 8 && "delivery"@[0] == 'd');
                        assert("type"@.len() == 4);
                        assert("width"@.len() == 5 && "width"@[0] == 'w');
                        assert("height"@.len() == 6);
                        assert("codec"@.len() == 5 && "codec"@[0] == 'c');
                        assert("bitrate"@.len() == 7);
                        assert("minBitrate"@.len() == 10 && "minBitrate"@[1] == 'i');
                        assert("maxBitrate"@.len() == 10 && "maxBitrate"@[1] == 'a');
                        assert("scalable"@.len() == 8 && "scalable"@[0] == 's');
                        assert("maintainAspectRatio"@.len() == 19);
                        assert("fileSize"@.len() == 8 && "fileSize"@[0] == 'f');
                        assert("mediaType"@.len() == 9);
                        assert("apiFramework"@.len() == 12);
                    }
                    if str_eq(key.as_str(), "id") {
                        if id.is_some() {
                            return Err(duplicate_attribute("id"));
                        }
                        id = Some(value);
                    } else if str_eq(key.as_str(), "delivery") {
                        if delivery.is_some() {
                            return Err(duplicate_attribute("delivery"));
                        }
                        delivery = Some(match DeliveryProtocol::from_str(value.as_str()) {
                            Ok(v) => v,
                            Err(e) => return Err(scalar_error(e)),
                        });
                    } else if str_eq(key.as_str(), "type") {
                        if mime_type.is_some() {
                            return Err(duplicate_attribute("type"));
                        }
                        mime_type = Some(value);
                    } else if str_eq(key.as_str(), "width") {
                        if width.is_some() {
                            return Err(duplicate_attribute("width"));
                        }
                        width = Some(parse_int(value.as_str())?);
                    } else if str_eq(key.as_str(), "height") {
                        if height.is_some() {
                            return Err(duplicate_attribute("height"));
                        }
                        height = Some(parse_int(value.as_str())?);
                    } else if str_eq(key.as_str(), "codec") {
                        if codec.is_some() {
                            return Err(duplicate_attribute("codec"));
                        }
                        codec = Some(value);
                    } else if str_eq(key.as_str(), "bitrate") {
                        if bitrate.is_some() {
                            return Err(duplicate_attribute("bitrate"));
                        }
                        bitrate = Some(parse_int(value.as_str())?);
                    } else if str_eq(key.as_str(), "minBitrate") {
                        if min_bitrate.is_some() {
                            return Err(duplicate_attribute("minBitrate"));
                        }
                        min_bitrate = Some(parse_int(value.as_str())?);
                    } else if str_eq(key.as_str(), "maxBitrate") {
                        if max_bitrate.is_some() {
                            return Err(duplicate_attribute("maxBitrate"));
                        }
                        max_bitrate = Some(parse_int(value.as_str())?);
                    } else if str_eq(key.as_str(), "scalable") {
                        if scalable.is_some() {
                            return Err(duplicate_attribute("scalable"));
                        }
                        scalable = Some(parse_bool(value.as_str())?);
                    } else if str_eq(key.as_str(), "maintainAspectRatio") {
                        if maintain_aspect_ratio.is_some() {
                            return Err(duplicate_attribute("maintainAspectRatio"));
                        }
                        maintain_aspect_ratio = Some(parse_bool(value.as_str())?);
                    } else if str_eq(key.as_str(), "fileSize") {
                        if file_size.is_some() {
                            return Err(duplicate_attribute("fileSize"));
                        }
                        file_size = Some(parse_int(value.as_str())?);
                    } else if str_eq(key.as_str(), "mediaType") {
                        if media_type.is_some() {
                            return Err(duplicate_attribute("mediaType"));
                        }
                        media_type = Some(value);
                    } else if str_eq(key.as_str(), "apiFramework") {
                        if api_framework.is_some() {
                            return Err(duplicate_attribute("apiFramework"));
                        }
                        api_framework = Some(value);
                    } else {
                        return Err(unknown_field("MediaFile", key));
                    }
                },
            }
        }
        let ghost e = p as int;
        let (text, q) = read_text(t, p, "MediaFile")?;
        p = q;
        let delivery = match delivery {
            Some(v) => v,
            None => return Err(missing_field("MediaFile", "delivery")),
        };
        let mime_type = match mime_type {
            Some(v) => v,
            None => return Err(missing_field("MediaFile", "mime_type")),
        };
        let width = match width {
            Some(v) => v,
            None => return Err(missing_field("MediaFile", "width")),
        };
        let height = match height {
            Some(v) => v,
            None => return Err(missing_field("MediaFile", "height")),
        };
        assert(t.start_tag(start - 1, e, "MediaFile"@));
        assert(t.till_start(pos as int, "MediaFile"@) == Some(start as int));
        assert forall|i: int| start - 1 < i < e implies Self::knows(#[trigger] t.key(i)) by {
            assert(t.kind(i) == TokenKind::Attribute);
        }
        assert forall|i: int| start <= i < e implies #[trigger] t.attr_readable(i) && Self::knows(t.key(i)) by {
            assert(t.kind(i) == TokenKind::Attribute);
        }
        let v = MediaFile { id, delivery, mime_type, width, height, codec, bitrate, min_bitrate, max_bitrate, scalable, maintain_aspect_ratio, file_size, media_type, api_framework, uri: text };
        assert(v.attrs_read(t, start - 1, e));
        Ok((v, p))
    }

    #[verifier::rlimit(40)]
    fn write(&self, out: &mut String) {
        write_start(out, "MediaFile");
        let ghost mut head = start_tag("MediaFile"@);
        write_opt_attribute(out, "id", &self.id);
        proof {
            let piece = opt_attribute("id"@, opt_view(self.id));
            lemma_append(old(out)@, head, piece);
            head = head + piece;
        }
        write_attribute(out, "delivery", self.delivery.keyword_str());
        proof {
            let piece = attribute("delivery"@, self.delivery.keyword());
            lemma_append(old(out)@, head, piece);
            head = head + piece;
        }
        write_attribute(out, "type", self.mime_type.as_str());
        proof {
            let piece = attribute("type"@, self.mime_type@);
            lemma_append(old(out)@, head, piece);
            head = head + piece;
        }
        write_int_attribute(out, "width", self.width);
        proof {
            let piece = attribute("width"@, signed_decimal(self.width as int));
            lemma_append(old(out)@, head, piece);
            head = head + piece;
        }
        write_int_attribute(out, "height", self.height);
        proof {
            let piece = attribute("height"@, signed_decimal(self.height as int));
            lemma_append(old(out)@, head, piece);
            head = head + piece;
        }
        write_opt_attribute(out, "codec", &self.codec);
        proof {
            let piece = opt_attribute("codec"@, opt_view(self.codec));
            lemma_append(old(out)@, head, piece);
            head = head + piece;
        }
        write_opt_int_attribute(out, "bitrate", self.bitrate);
        proof {
            let piece = opt_attribute("bitrate"@, opt_i32_text(self.bitrate));
            lemma_append(old(out)@, head, piece);
            head = head + piece;
        }
        write_opt_int_attribute(out, "minBitrate", self.min_bitrate);
        proof {
            let piece = opt_attribute("minBitrate"@, opt_i32_text(self.min_bitrate));
            lemma_append(old(out)@, head, piece);
            head = head + piece;
        }
        write_opt_int_attribute(out, "maxBitrate", self.max_bitrate);
        proof {
            let piece = opt_attribute("maxBitrate"@, opt_i32_text(self.max_bitrate));
            lemma_append(old(out)@, head, piece);
            head = head + piece;
        }
        write_opt_bool_attribute(out, "scalable", self.scalable);
        proof {
            let piece = opt_attribute("scalable"@, opt_bool_text(self.scalable));
            lemma_append(old(out)@, head, piece);
            head = head + piece;
        }
        write_opt_bool_attribute(out, "maintainAspectRatio", self.maintain_aspect_ratio);
        proof {
            let piece = opt_attribute("maintainAspectRatio"@, opt_bool_text(self.maintain_aspect_ratio));
            lemma_append(old(out)@, head, piece);
            head = head + piece;
        }
        write_opt_int_attribute(out, "fileSize", self.file_size);
        proof {
            let piece = opt_attribute("fileSize"@, opt_i32_text(self.file_size));
            lemma_append(old(out)@, head, piece);
            head = head + piece;
        }
        write_opt_attribute(out, "mediaType", &self.media_type);
        proof {
            let piece = opt_attribute("mediaType"@, opt_view(self.media_type));
            lemma_append(old(out)@, head, piece);
            head = head + piece;
        }
        write_opt_attribute(out, "apiFramework", &self.api_framework);
        proof {
            let piece = opt_attribute("apiFramework"@, opt_view(self.api_framework));
            lemma_append(old(out)@, head, piece);
            head = head + piece;
        }
        let ghost mid = out@;
        let ghost mut body = seq!['>'];
        write_open_end(out);
        write_text(out, self.uri.as_str(), true);
        proof {
            let piece = cdata(self.uri@);
            lemma_append(mid, body, piece);
            body = body + piece;
        }
        write_end(out, "MediaFile");
        proof {
            lemma_append(mid, body, end_tag("MediaFile"@));
            lemma_append(old(out)@, head, body + end_tag("MediaFile"@));
        }
    }
}

/// The raw, high-quality file from which other files can be made.
#[derive(Debug, Clone, PartialEq, Default)]
pub struct Mezzanine {
    /// An identifier of the file.
    pub id: Option<String>,
    /// How the file is delivered.
    pub delivery: DeliveryProtocol,
    /// The MIME type of the file.
    pub mime_type: String,
    /// Width in pixels.
    pub width: i32,
    /// Height in pixels.
    pub height: i32,
    /// The codec.
    pub codec: Option<String>,
    /// Size in bytes.
    pub file_size: Option<i32>,
    /// The type of media.
    pub media_type: Option<String>,
    /// The URI of the file.
    pub uri: String,
}

impl XmlElement for Mezzanine {
    open spec fn tag() -> Seq<char> {
        "Mezzanine"@
    }

    open spec fn knows(key: Seq<char>) -> bool {
        key == "id"@ || key == "delivery"@ || key == "type"@ || key == "width"@ || key == "height"@ || key == "codec"@ || key == "fileSize"@ || key == "mediaType"@
    }

    open spec fn attrs_read(&self, t: &Tokens, s: int, e: int) -> bool {
        (opt_view(self.id) == t.attr_text(s, e, "id"@))
            && (match t.attr_text(s, e, "delivery"@) {
            Some(v) => DeliveryProtocol::parse_spec(v) == Some(self.delivery),
            None => false,
        })
            && (t.attr_text(s, e, "type"@) == Some(self.mime_type@))
            && (match t.attr_text(s, e, "width"@) {
            Some(v) => parse_i32_spec(v) == Some(self.width),
            None => false,
        })
            && (match t.attr_text(s, e, "height"@) {
            Some(v) => parse_i32_spec(v) == Some(self.height),
            None => false,
        })
            && (opt_view(self.codec) == t.attr_text(s, e, "codec"@))
            && (self.file_size == match t.attr_text(s, e, "fileSize"@) {
            Some(v) => parse_i32_spec(v),
            None => None,
        })
            && (opt_view(self.media_type) == t.attr_text(s, e, "mediaType"@))
    }

    open spec fn content_read(&self, t: &Tokens, e: int, q: int) -> bool {
        self.uri@ == t.text_of(e, q)
    }

    open spec fn read_ok(t: &Tokens, pos: int) -> bool {
        false
    }

    open spec fn read_refused(t: &Tokens, pos: int) -> bool {
        t.start_malformed(pos, "Mezzanine"@) || match t.till_start(pos, "Mezzanine"@) {
            Some(a) => exists|i: int| a <= i < t.attrs_end(a) && !Self::knows(#[trigger] t.key(i)),
            None => false,
        }
    }

    open spec fn xml_spec(&self) -> Seq<char> {
        start_tag("Mezzanine"@)
            + opt_attribute("id"@, opt_view(self.id))
            + attribute("delivery"@, self.delivery.keyword())
            + attribute("type"@, self.mime_type@)
            + attribute("width"@, signed_decimal(self.width as int))
            + attribute("height"@, signed_decimal(self.height as int))
            + opt_attribute("codec"@, opt_view(self.codec))
            + opt_attribute("fileSize"@, opt_i32_text(self.file_size))
            + opt_attribute("mediaType"@, opt_view(self.media_type))
            + (seq!['>'] + cdata(self.uri@) + end_tag("Mezzanine"@))
    }

    #[verifier::rlimit(100)]
    #[verifier::spinoff_prover]
    fn read(t: &Tokens, pos: usize) -> (r: Result<(Self, usize), DecodeError>) {
        let n = t.items.len();
        let start = read_till_element_start(t, pos, "Mezzanine")?;
        let mut p = start;
        let mut id: Option<String> = None;
        let mut delivery: Option<DeliveryProtocol> = None;
        let mut mime_type: Option<String> = None;
        let mut width: Option<i32> = None;
        let mut height: Option<i32> = None;
        let mut codec: Option<String> = None;
        let mut file_size: Option<i32> = None;
        let mut media_type: Option<String> = None;
        loop
            invariant
                n == t.len(),
                start <= p <= n,
                start == n || (pos < start && t.starts(start - 1, "Mezzanine"@)),
                forall|i: int| start <= i < p ==> #[trigger] t.kind(i) == TokenKind::Attribute && Self::knows(t.key(i)),
                t.till_start(pos as int, "Mezzanine"@) == Some(start as int),
                t.attrs_end(start as int) == t.attrs_end(p as int),
                forall|i: int| start <= i < p ==> #[trigger] t.attr_readable(i),
                opt_view(id) == t.attr_text(start - 1, p as int, "id"@),
                delivery == match t.attr_text(start - 1, p as int, "delivery"@) {
                    Some(v) => DeliveryProtocol::parse_spec(v),
                    None => None,
                },
                opt_view(mime_type) == t.attr_text(start - 1, p as int, "type"@),
                width == match t.attr_text(start - 1, p as int, "width"@) {
                    Some(v) => parse_i32_spec(v),
                    None => None,
                },
                height == match t.attr_text(start - 1, p as int, "height"@) {
                    Some(v) => parse_i32_spec(v),
                    None => None,
                },
                opt_view(codec) == t.attr_text(start - 1, p as int, "codec"@),
                file_size == match t.attr_text(start - 1, p as int, "fileSize"@) {
                    Some(v) => parse_i32_spec(v),
                    None => None,
                },
                opt_view(media_type) == t.attr_text(start - 1, p as int, "mediaType"@),
            ensures
                start <= p < n,
                pos < start && t.starts(start - 1, "Mezzanine"@),
                forall|i: int| start <= i < p ==> #[trigger] t.kind(i) == TokenKind::Attribute && Self::knows(t.key(i)),
                t.kind(p as int) == TokenKind::ElementEnd && !is_close_end(t.span(p as int)),
                t.till_start(pos as int, "Mezzanine"@) == Some(start as int),
                t.attrs_end(start as int) == p,
                forall|i: int| start <= i < p ==> #[trigger] t.attr_readable(i),
                opt_view(id) == t.attr_text(start - 1, p as int, "id"@),
                delivery == match t.attr_text(start - 1, p as int, "delivery"@) {
                    Some(v) => DeliveryProtocol::parse_spec(v),
                    None => None,
                },
                opt_view(mime_type) == t.attr_text(start - 1, p as int, "type"@),
                width == match t.attr_text(start - 1, p as int, "width"@) {
                    Some(v) => parse_i32_spec(v),
                    None => None,
                },
                height == match t.attr_text(start - 1, p as int, "height"@) {
                    Some(v) => parse_i32_spec(v),
                    None => None,
                },
                opt_view(codec) == t.attr_text(start - 1, p as int, "codec"@),
                file_size == match t.attr_text(start - 1, p as int, "fileSize"@) {
                    Some(v) => parse_i32_spec(v),
                    None => None,
                },
                opt_view(media_type) == t.attr_text(start - 1, p as int, "mediaType"@),
            decreases n - p,
        {
            proof {
                lemma_attrs_end_bounds(t, p as int);
            }
            let (found, q) = find_attribute(t, p)?;
            match found {
                None => {
                    break;
                },
                Some((key, value)) => {
                    p = q;
                    proof {
                        reveal_strlit("id");
                        reveal_strlit("delivery");
                        reveal_strlit("type");
                        reveal_strlit("width");
                        reveal_strlit("height");
                        reveal_strlit("codec");
                        reveal_strlit("fileSize");
                        reveal_strlit("mediaType");
                        assert("id"@.len() == 2);
                        assert("delivery"@.len() == 8 && "delivery"@[0] == 'd');
                        assert("type"@.len() == 4);
                        assert("width"@.len() == 5 && "width"@[0] == 'w');
                        assert("height"@.len() == 6);
                        assert("codec"@.len() == 5 && "codec"@[0] == 'c');
                        assert("fileSize"@.len() == 8 && "fileSize"@[0] == 'f');
                        assert("mediaType"@.len() == 9);
                    }
                    if str_eq(key.as_str(), "id") {
                        if id.is_some() {
                            return Err(duplicate_attribute("id"));
                        }
                        id = Some(value);
                    } else if str_eq(key.as_str(), "delivery") {
                        if delivery.is_some() {
                            return Err(duplicate_attribute("delivery"));
                        }
                        delivery = Some(match DeliveryProtocol::from_str(value.as_str()) {
                            Ok(v) => v,
                            Err(e) => return Err(scalar_error(e)),
                        });
                    } else if str_eq(key.as_str(), "type") {
                        if mime_type.is_some() {
                            return Err(duplicate_attribute("type"));
                        }
                        mime_type = Some(value);
                    } else if str_eq(key.as_str(), "width") {
                        if width.is_some() {
                            return Err(duplicate_attribute("width"));
                        }
                        width = Some(parse_int(value.as_str())?);
                    } else if str_eq(key.as_str(), "height") {
                        if height.is_some() {
                            return Err(duplicate_attribute("height"));
                        }
                        height = Some(parse_int(value.as_str())?);
                    } else if str_eq(key.as_str(), "codec") {
                        if codec.is_some() {
                            return Err(duplicate_attribute("codec"));
                        }
                        codec = Some(value);
                    } else if str_eq(key.as_str(), "fileSize") {
                        if file_size.is_some() {
                            return Err(duplicate_attribute("fileSize"));
                        }
                        file_size = Some(parse_int(value.as_str())?);
                    } else if str_eq(key.as_str(), "mediaType") {
                        if media_type.is_some() {
                            return Err(duplicate_attribute("mediaType"));
                        }
                        media_type = Some(value);
                    } else {
                        return Err(unknown_field("Mezzanine", key));
                    }
                },
            }
        }
        let ghost e = p as int;
        let (text, q) = read_text(t, p, "Mezzanine")?;
        p = q;
        let delivery = match delivery {
            Some(v) => v,
            None => return Err(missing_field("Mezzanine", "delivery")),
        };
        let mime_type = match mime_type {
            Some(v) => v,
            None => return Err(missing_field("Mezzanine", "mime_type")),
        };
        let width = match width {
            Some(v) => v,
            None => return Err(missing_field("Mezzanine", "width")),
        };
        let height = match height {
            Some(v) => v,
            None => return Err(missing_field("Mezzanine", "height")),
        };
        assert(t.start_tag(start - 1, e, "Mezzanine"@));
        assert(t.till_start(pos as int, "Mezzanine"@) == Some(start as int));
        assert forall|i: int| start - 1 < i < e implies Self::knows(#[trigger] t.key(i)) by {
            assert(t.kind(i) == TokenKind::Attribute);
        }
        assert forall|i: int| start <= i < e implies #[trigger] t.attr_readable(i) && Self::knows(t.key(i)) by {
            assert(t.kind(i) == TokenKind::Attribute);
        }
        let v = Mezzanine { id, delivery, mime_type, width, height, codec, file_size, media_type, uri: text };
        assert(v.attrs_read(t, start - 1, e));
        Ok((v, p))
    }

    #[verifier::rlimit(40)]
    fn write(&self, out: &mut String) {
        write_start(out, "Mezzanine");
        let ghost mut head = start_tag("Mezzanine"@);
        write_opt_attribute(out, "id", &self.id);
        proof {
            let piece = opt_attribute("id"@, opt_view(self.id));
            lemma_append(old(out)@, head, piece);
            head = head + piece;
        }
        write_attribute(out, "delivery", self.delivery.keyword_str());
        proof {
            let piece = attribute("delivery"@, self.delivery.keyword());
            lemma_append(old(out)@, head, piece);
            head = head + piece;
        }
        write_attribute(out, "type", self.mime_type.as_str());
        proof {
            let piece = attribute("type"@, self.mime_type@);
            lemma_append(old(out)@, head, piece);
            head = head + piece;
        }
        write_int_attribute(out, "width", self.width);
        proof {
            let piece = attribute("width"@, signed_decimal(self.width as int));
            lemma_append(old(out)@, head, piece);
            head = head + piece;
        }
        write_int_attribute(out, "height", self.height);
        proof {
            let piece = attribute("height"@, signed_decimal(self.height as int));
            lemma_append(old(out)@, head, piece);
            head = head + piece;
        }
        write_opt_attribute(out, "codec", &self.codec);
        proof {
            let piece = opt_attribute("codec"@, opt_view(self.codec));
            lemma_append(old(out)@, head, piece);
            head = head + piece;
        }
        write_opt_int_attribute(out, "fileSize", self.file_size);
        proof {
            let piece = opt_attribute("fileSize"@, opt_i32_text(self.file_size));
            lemma_append(old(out)@, head, piece);
            head = head + piece;
        }
        write_opt_attribute(out, "mediaType", &self.media_type);
        proof {
            let piece = opt_attribute("mediaType"@, opt_view(self.media_type));
            lemma_append(old(out)@, head, piece);
            head = head + piece;
        }
        let ghost mid = out@;
        let ghost mut body = seq!['>'];
        write_open_end(out);
        write_text(out, self.uri.as_str(), true);
        proof {
            let piece = cdata(self.uri@);
            lemma_append(mid, body, piece);
            body = body + piece;
        }
        write_end(out, "Mezzanine");
        proof {
            lemma_append(mid, body, end_tag("Mezzanine"@));
            lemma_append(old(out)@, head, body + end_tag("Mezzanine"@));
        }
    }
}

/// A file that runs interactive parts of a creative.
#[derive(Debug, Clone, PartialEq, Default)]
pub struct InteractiveCreativeFile {
    /// The MIME type of the file.
    pub mime_type: Option<String>,
    /// The API of the file.
    pub api_framework: Option<String>,
    /// Whether it may change the ad's length.
    pub variable_duration: Option<bool>,
    /// The URI of the file.
    pub uri: String,
}

impl XmlElement for InteractiveCreativeFile {
    open spec fn tag() -> Seq<char> {
        "InteractiveCreativeFile"@
    }

    open spec fn knows(key: Seq<char>) -> bool {
        key == "type"@ || key == "apiFramework"@ || key == "variableDuration"@
    }

    open spec fn attrs_read(&self, t: &Tokens, s: int, e: int) -> bool {
        (opt_view(self.mime_type) == t.attr_text(s, e, "type"@))
            && (opt_view(self.api_framework) == t.attr_text(s, e, "apiFramework"@))
            && (self.variable_duration == match t.attr_text(s, e, "variableDuration"@) {
            Some(v) => parse_bool_spec(v),
            None => None,
        })
    }

    open spec fn content_read(&self, t: &Tokens, e: int, q: int) -> bool {
        self.uri@ == t.text_of(e, q)
    }

    open spec fn read_ok(t: &Tokens, pos: int) -> bool {
        false
    }

    open spec fn read_refused(t: &Tokens, pos: int) -> bool {
        t.start_malformed(pos, "InteractiveCreativeFile"@) || match t.till_start(pos, "InteractiveCreativeFile"@) {
            Some(a) => exists|i: int| a <= i < t.attrs_end(a) && !Self::knows(#[trigger] t.key(i)),
            None => false,
        }
    }

    open spec fn xml_spec(&self) -> Seq<char> {
        start_tag("InteractiveCreativeFile"@)
            + opt_attribute("type"@, opt_view(self.mime_type))
            + opt_attribute("apiFramework"@, opt_view(self.api_framework))
            + opt_attribute("variableDuration"@, opt_bool_text(self.variable_duration))
            + (seq!['>'] + cdata(self.uri@) + end_tag("InteractiveCreativeFile"@))
    }

    fn read(t: &Tokens, pos: usize) -> (r: Result<(Self, usize), DecodeError>) {
        let n = t.items.len();
        let start = read_till_element_start(t, pos, "InteractiveCreativeFile")?;
        let mut p = start;
        let mut mime_type: Option<String> = None;
        let mut api_framework: Option<String> = None;
        let mut variable_duration: Option<bool> = None;
        loop
            invariant
                n == t.len(),
                start <= p <= n,
                start == n || (pos < start && t.starts(start - 1, "InteractiveCreativeFile"@)),
                forall|i: int| start <= i < p ==> #[trigger] t.kind(i) == TokenKind::Attribute && Self::knows(t.key(i)),
                t.till_start(pos as int, "InteractiveCreativeFile"@) == Some(start as int),
                t.attrs_end(start as int) == t.attrs_end(p as int),
                forall|i: int| start <= i < p ==> #[trigger] t.attr_readable(i),
                opt_view(mime_type) == t.attr_text(start - 1, p as int, "type"@),
                opt_view(api_framework) == t.attr_text(start - 1, p as int, "apiFramework"@),
                variable_duration == match t.attr_text(start - 1, p as int, "variableDuration"@) {
                    Some(v) => parse_bool_spec(v),
                    None => None,
                },
            ensures
                start <= p < n,
                pos < start && t.starts(start - 1, "InteractiveCreativeFile"@),
                forall|i: int| start <= i < p ==> #[trigger] t.kind(i) == TokenKind::Attribute && Self::knows(t.key(i)),
                t.kind(p as int) == TokenKind::ElementEnd && !is_close_end(t.span(p as int)),
                t.till_start(pos as int, "InteractiveCreativeFile"@) == Some(start as int),
                t.attrs_end(start as int) == p,
                forall|i: int| start <= i < p ==> #[trigger] t.attr_readable(i),
                opt_view(mime_type) == t.attr_text(start - 1, p as int, "type"@),
                opt_view(api_framework) == t.attr_text(start - 1, p as int, "apiFramework"@),
                variable_duration == match t.attr_text(start - 1, p as int, "variableDuration"@) {
                    Some(v) => parse_bool_spec(v),
                    None => None,
                },
            decreases n - p,
        {
            proof {
                lemma_attrs_end_bounds(t, p as int);
            }
            let (found, q) = find_attribute(t, p)?;
            match found {
                None => {
                    break;
                },
                Some((key, value)) => {
                    p = q;
                    proof {
                        reveal_strlit("type");
                        reveal_strlit("apiFramework");
                        reveal_strlit("variableDuration");
                        assert("type"@.len() == 4);
                        assert("apiFramework"@.len() == 12);
                        assert("variableDuration"@.len() == 16);
                    }
                    if str_eq(key.as_str(), "type") {
                        if mime_type.is_some() {
                            return Err(duplicate_attribute("type"));
                        }
                        mime_type = Some(value);
                    } else if str_eq(key.as_str(), "apiFramework") {
                        if api_framework.is_some() {
                            return Err(duplicate_attribute("apiFramework"));
                        }
                        api_framework = Some(value);
                    } else if str_eq(key.as_str(), "variableDuration") {
                        if variable_duration.is_some() {
                            return Err(duplicate_attribute("variableDuration"));
                        }
                        variable_duration = Some(parse_bool(value.as_str())?);
                    } else {
                        return Err(unknown_field("InteractiveCreativeFile", key));
                    }
                },
            }
        }
        let ghost e = p as int;
        let (text, q) = read_text(t, p, "InteractiveCreativeFile")?;
        p = q;
        assert(t.start_tag(start - 1, e, "InteractiveCreativeFile"@));
        assert(t.till_start(pos as int, "InteractiveCreativeFile"@) == Some(start as int));
        assert forall|i: int| start - 1 < i < e implies Self::knows(#[trigger] t.key(i)) by {
            assert(t.kind(i) == TokenKind::Attribute);
        }
        assert forall|i: int| start <= i < e implies #[trigger] t.attr_readable(i) && Self::knows(t.key(i)) by {
            assert(t.kind(i) == TokenKind::Attribute);
        }
        let v = InteractiveCreativeFile { mime_type, api_framework, variable_duration, uri: text };
        assert(v.attrs_read(t, start - 1, e));
        Ok((v, p))
    }

    fn write(&self, out: &mut String) {
        write_start(out, "InteractiveCreativeFile");
        let ghost mut head = start_tag("InteractiveCreativeFile"@);
        write_opt_attribute(out, "type", &self.mime_type);
        proof {
            let piece = opt_attribute("type"@, opt_view(self.mime_type));
            lemma_append(old(out)@, head, piece);
            head = head + piece;
        }
        write_opt_attribute(out, "apiFramework", &self.api_framework);
        proof {
            let piece = opt_attribute("apiFramework"@, opt_view(self.api_framework));
            lemma_append(old(out)@, head, piece);
            head = head + piece;
        }
        write_opt_bool_attribute(out, "variableDuration", self.variable_duration);
        proof {
            let piece = opt_attribute("variableDuration"@, opt_bool_text(self.variable_duration));
            lemma_append(old(out)@, head, piece);
            head = head + piece;
        }
        let ghost mid = out@;
        let ghost mut body = seq!['>'];
        write_open_end(out);
        write_text(out, self.uri.as_str(), true);
        proof {
            let piece = cdata(self.uri@);
            lemma_append(mid, body, piece);
            body = body + piece;
        }
        write_end(out, "InteractiveCreativeFile");
        proof {
            lemma_append(mid, body, end_tag("InteractiveCreativeFile"@));
            lemma_append(old(out)@, head, body + end_tag("InteractiveCreativeFile"@));
        }
    }
}

/// Closed caption files of a linear creative.
#[derive(Debug, Clone, PartialEq, Default)]
pub struct ClosedCaptionFiles {
    /// One or more files.
    pub closed_caption_files: Vec<ClosedCaptionFile>,
}

impl XmlElement for ClosedCaptionFiles {
    open spec fn tag() -> Seq<char> {
        "ClosedCaptionFiles"@
    }

    open spec fn knows(key: Seq<char>) -> bool {
        false
    }

    open spec fn attrs_read(&self, t: &Tokens, s: int, e: int) -> bool {
        true
    }

    open spec fn content_read(&self, t: &Tokens, e: int, q: int) -> bool {
        (forall|k: int| 0 <= k < self.closed_caption_files@.len() ==> read_within(*t, #[trigger] self.closed_caption_files@[k], e, q))
            && read_in_order(*t, self.closed_caption_files@, e)
            && exists|ws: Seq<(int, int, int)>|
                #[trigger] children_cover(*t, ws, e + 1, content_end(e, q), 1)
                && count_of(ws, 0) == self.closed_caption_files@.len()
                && count_of(ws, -1) == 0
    }

    open spec fn read_ok(t: &Tokens, pos: int) -> bool {
        false
    }

    open spec fn read_refused(t: &Tokens, pos: int) -> bool {
        t.start_malformed(pos, "ClosedCaptionFiles"@) || match t.till_start(pos, "ClosedCaptionFiles"@) {
            Some(a) => exists|i: int| a <= i < t.attrs_end(a) && !Self::knows(#[trigger] t.key(i)),
            None => false,
        }
    }

    open spec fn xml_spec(&self) -> Seq<char> {
        start_tag("ClosedCaptionFiles"@)
            + (if self.closed_caption_files@.len() == 0 {
            seq!['/', '>']
        } else {
            seq!['>'] + seq_xml(self.closed_caption_files@) + end_tag("ClosedCaptionFiles"@)
        })
    }

    fn read(t: &Tokens, pos: usize) -> (r: Result<(Self, usize), DecodeError>) {
        let n = t.items.len();
        let start = read_till_element_start(t, pos, "ClosedCaptionFiles")?;
        let mut p = start;
        let mut closed_caption_files: Vec<ClosedCaptionFile> = Vec::new();
        loop
            invariant
                n == t.len(),
                start <= p <= n,
                start == n || (pos < start && t.starts(start - 1, "ClosedCaptionFiles"@)),
                forall|i: int| start <= i < p ==> #[trigger] t.kind(i) == TokenKind::Attribute && Self::knows(t.key(i)),
                t.till_start(pos as int, "ClosedCaptionFiles"@) == Some(start as int),
                t.attrs_end(start as int) == t.attrs_end(p as int),
                forall|i: int| start <= i < p ==> #[trigger] t.attr_readable(i),
            ensures
                start <= p < n,
                pos < start && t.starts(start - 1, "ClosedCaptionFiles"@),
                forall|i: int| start <= i < p ==> #[trigger] t.kind(i) == TokenKind::Attribute && Self::knows(t.key(i)),
                t.kind(p as int) == TokenKind::ElementEnd && !is_close_end(t.span(p as int)),
                t.till_start(pos as int, "ClosedCaptionFiles"@) == Some(start as int),
                t.attrs_end(start as int) == p,
                forall|i: int| start <= i < p ==> #[trigger] t.attr_readable(i),
            decreases n - p,
        {
            proof {
                lemma_attrs_end_bounds(t, p as int);
            }
            let (found, q) = find_attribute(t, p)?;
            match found {
                None => {
                    break;
                },
                Some((key, value)) => {
                    p = q;
                    return Err(unknown_field("ClosedCaptionFiles", key));
                },
            }
        }
        let ghost e = p as int;
        let ghost mut ends_closed_caption_files: Seq<int> = Seq::empty();
        proof {
            lemma_ends_empty(*t, closed_caption_files@, e);
        }
        let empty = is_empty_end_of(&t.items[p]);
        p = p + 1;
        let ghost mut ws: Seq<(int, int, int)> = Seq::empty();
        proof {
            lemma_cover_empty(*t, e + 1, 1);
        }
        if !empty {
            loop
                invariant_except_break
                    children_cover(*t, ws, e + 1, p as int, 1),
                    prev_end(ws, e + 1, ws.len() as int) == p,
                invariant
                    n == t.len(),
                    pos < p <= n,
                    e < p,
                    (forall|k: int| 0 <= k < closed_caption_files@.len() ==> read_within(*t, #[trigger] closed_caption_files@[k], e, p as int)),
                    ends_fit(*t, closed_caption_files@, e, ends_closed_caption_files),
                    part_start(ends_closed_caption_files, e, closed_caption_files@.len() as int) <= p,
                    count_of(ws, 0) == closed_caption_files@.len(),
                    count_of(ws, -1) == 0,
                ensures
                    pos < p <= n,
                    e < p,
                    children_cover(*t, ws, e + 1, content_end(e, p as int), 1),
                    (forall|k: int| 0 <= k < closed_caption_files@.len() ==> read_within(*t, #[trigger] closed_caption_files@[k], e, p as int)),
                    ends_fit(*t, closed_caption_files@, e, ends_closed_caption_files),
                    part_start(ends_closed_caption_files, e, closed_caption_files@.len() as int) <= p,
                    count_of(ws, 0) == closed_caption_files@.len(),
                    count_of(ws, -1) == 0,

                decreases n - p,
            {
                let (found, q) = find_element_start(t, p, "ClosedCaptionFiles")?;
                match found {
                    None => {
                        proof {
                            lemma_cover_extend(*t, ws, e + 1, p as int, q as int - 1, 1);
                        }
                        p = q;
                        break;
                    },
                    Some(tag) => {
                        if str_eq(tag.as_str(), "ClosedCaptionFile") {
                            let (v, q2) = ClosedCaptionFile::read(t, q)?;
                            proof {
                                assert(read_within(*t, v, q as int, q2 as int));
                                lemma_read_within_widen(*t, v, q as int, q2 as int, part_start(ends_closed_caption_files, e, closed_caption_files@.len() as int), q2 as int);
                                lemma_ends_push(*t, closed_caption_files@, v, e, ends_closed_caption_files, q2 as int);
                                ends_closed_caption_files = ends_closed_caption_files.push(q2 as int);
                            }
                            closed_caption_files.push(v);
                            proof {
                                lemma_cover_push(*t, ws, e + 1, p as int, (q as int, q2 as int, 0), 1);
                                ws = ws.push((q as int, q2 as int, 0));
                            }
                            p = q2;
                        } else {
                            return Err(unknown_field("ClosedCaptionFiles", tag));
                        }
                    },
                }
            }
        }
        assert(children_cover(*t, ws, e + 1, content_end(e, p as int), 1));
        if closed_caption_files.len() == 0 {
            return Err(missing_field("ClosedCaptionFiles", "closed_caption_files"));
        }
        assert(t.start_tag(start - 1, e, "ClosedCaptionFiles"@));
        assert(t.till_start(pos as int, "ClosedCaptionFiles"@) == Some(start as int));
        assert forall|i: int| start - 1 < i < e implies Self::knows(#[trigger] t.key(i)) by {
            assert(t.kind(i) == TokenKind::Attribute);
        }
        assert forall|i: int| start <= i < e implies #[trigger] t.attr_readable(i) && Self::knows(t.key(i)) by {
            assert(t.kind(i) == TokenKind::Attribute);
        }
        let v = ClosedCaptionFiles { closed_caption_files };
        assert(v.content_read(t, e, p as int));
        Ok((v, p))
    }

    fn write(&self, out: &mut String) {
        write_start(out, "ClosedCaptionFiles");
        let ghost mut head = start_tag("ClosedCaptionFiles"@);
        if self.closed_caption_files.len() == 0 {
            write_empty_end(out);
        } else {
            let ghost mid = out@;
            let ghost mut body = seq!['>'];
            write_open_end(out);
            write_all(out, &self.closed_caption_files);
            proof {
                let piece = seq_xml(self.closed_caption_files@);
                lemma_append(mid, body, piece);
                body = body + piece;
            }
            write_end(out, "ClosedCaptionFiles");
            proof {
                lemma_append(mid, body, end_tag("ClosedCaptionFiles"@));
                lemma_append(old(out)@, head, body + end_tag("ClosedCaptionFiles"@));
            }
        }
    }
}

/// A closed caption file.
#[derive(Debug, Clone, PartialEq, Default)]
pub struct ClosedCaptionFile {
    /// The MIME type of the file.
    pub mime_type: Option<String>,
    /// The language of the captions.
    pub language: Option<String>,
    /// The URI of the file.
    pub uri: String,
}

impl XmlElement for ClosedCaptionFile {
    open spec fn tag() -> Seq<char> {
        "ClosedCaptionFile"@
    }

    open spec fn knows(key: Seq<char>) -> bool {
        key == "type"@ || key == "language"@
    }

    open spec fn attrs_read(&self, t: &Tokens, s: int, e: int) -> bool {
        (opt_view(self.mime_type) == t.attr_text(s, e, "type"@))
            && (opt_view(self.language) == t.attr_text(s, e, "language"@))
    }

    open spec fn content_read(&self, t: &Tokens, e: int, q: int) -> bool {
        self.uri@ == t.text_of(e, q)
    }

    open spec fn read_ok(t: &Tokens, pos: int) -> bool {
        false
    }

    open spec fn read_refused(t: &Tokens, pos: int) -> bool {
        t.start_malformed(pos, "ClosedCaptionFile"@) || match t.till_start(pos, "ClosedCaptionFile"@) {
            Some(a) => exists|i: int| a <= i < t.attrs_end(a) && !Self::knows(#[trigger] t.key(i)),
            None => false,
        }
    }

    open spec fn xml_spec(&self) -> Seq<char> {
        start_tag("ClosedCaptionFile"@)
            + opt_attribute("type"@, opt_view(self.mime_type))
            + opt_attribute("language"@, opt_view(self.language))
            + (seq!['>'] + cdata(self.uri@) + end_tag("ClosedCaptionFile"@))
    }

    fn read(t: &Tokens, pos: usize) -> (r: Result<(Self, usize), DecodeError>) {
        let n = t.items.len();
        let start = read_till_element_start(t, pos, "ClosedCaptionFile")?;
        let mut p = start;
        let mut mime_type: Option<String> = None;
        let mut language: Option<String> = None;
        loop
            invariant
                n == t.len(),
                start <= p <= n,
                start == n || (pos < start && t.starts(start - 1, "ClosedCaptionFile"@)),
                forall|i: int| start <= i < p ==> #[trigger] t.kind(i) == TokenKind::Attribute && Self::knows(t.key(i)),
                t.till_start(pos as int, "ClosedCaptionFile"@) == Some(start as int),
                t.attrs_end(start as int) == t.attrs_end(p as int),
                forall|i: int| start <= i < p ==> #[trigger] t.attr_readable(i),
                opt_view(mime_type) == t.attr_text(start - 1, p as int, "type"@),
                opt_view(language) == t.attr_text(start - 1, p as int, "language"@),
            ensures
                start <= p < n,
                pos < start && t.starts(start - 1, "ClosedCaptionFile"@),
                forall|i: int| start <= i < p ==> #[trigger] t.kind(i) == TokenKind::Attribute && Self::knows(t.key(i)),
                t.kind(p as int) == TokenKind::ElementEnd && !is_close_end(t.span(p as int)),
                t.till_start(pos as int, "ClosedCaptionFile"@) == Some(start as int),
                t.attrs_end(start as int) == p,
                forall|i: int| start <= i < p ==> #[trigger] t.attr_readable(i),
                opt_view(mime_type) == t.attr_text(start - 1, p as int, "type"@),
                opt_view(language) == t.attr_text(start - 1, p as int, "language"@),
            decreases n - p,
        {
            proof {
                lemma_attrs_end_bounds(t, p as int);
            }
            let (found, q) = find_attribute(t, p)?;
            match found {
                None => {
                    break;
                },
                Some((key, value)) => {
                    p = q;
                    proof {
                        reveal_strlit("type");
                        reveal_strlit("language");
                        assert("type"@.len() == 4);
                        assert("language"@.len() == 8);
                    }
                    if str_eq(key.as_str(), "type") {
                        if mime_type.is_some() {
                            return Err(duplicate_attribute("type"));
                        }
                        mime_type = Some(value);
                    } else if str_eq(key.as_str(), "language") {
                        if language.is_some() {
                            return Err(duplicate_attribute("language"));
                        }
                        language = Some(value);
                    } else {
                        return Err(unknown_field("ClosedCaptionFile", key));
                    }
                },
            }
        }
        let ghost e = p as int;
        let (text, q) = read_text(t, p, "ClosedCaptionFile")?;
        p = q;
        assert(t.start_tag(start - 1, e, "ClosedCaptionFile"@));
        assert(t.till_start(pos as int, "ClosedCaptionFile"@) == Some(start as int));
        assert forall|i: int| start - 1 < i < e implies Self::knows(#[trigger] t.key(i)) by {
            assert(t.kind(i) == TokenKind::Attribute);
        }
        assert forall|i: int| start <= i < e implies #[trigger] t.attr_readable(i) && Self::knows(t.key(i)) by {
            assert(t.kind(i) == TokenKind::Attribute);
        }
        let v = ClosedCaptionFile { mime_type, language, uri: text };
        assert(v.attrs_read(t, start - 1, e));
        Ok((v, p))
    }

    fn write(&self, out: &mut String) {
        write_start(out, "ClosedCaptionFile");
        let ghost mut head = start_tag("ClosedCaptionFile"@);
        write_opt_attribute(out, "type", &self.mime_type);
        proof {
            let piece = opt_attribute("type"@, opt_view(self.mime_type));
            lemma_append(old(out)@, head, piece);
            head = head + piece;
        }
        write_opt_attribute(out, "language", &self.language);
        proof {
            let piece = opt_attribute("language"@, opt_view(self.language));
            lemma_append(old(out)@, head, piece);
            head = head + piece;
        }
        let ghost mid = out@;
        let ghost mut body = seq!['>'];
        write_open_end(out);
        write_text(out, self.uri.as_str(), true);
        proof {
            let piece = cdata(self.uri@);
            lemma_append(mid, body, piece);
            body = body + piece;
        }
        write_end(out, "ClosedCaptionFile");
        proof {
            lemma_append(mid, body, end_tag("ClosedCaptionFile"@));
            lemma_append(old(out)@, head, body + end_tag("ClosedCaptionFile"@));
        }
    }
}

} // verus!
