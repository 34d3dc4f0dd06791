//! `<TrackingEvents>`: the events of a creative and the URIs fired on them.
use vstd::prelude::*;
use crate::codec::{
    XmlElement, children_cover, count_of, content_end, prev_end, lemma_cover_push,
    lemma_cover_extend, lemma_cover_empty, lemma_ends_empty, read_within, read_in_order,
    lemma_read_within_widen, lemma_ends_push, ends_fit, part_start, lemma_append, seq_xml,
    opt_attribute, scalar_error, missing_field, unknown_field, duplicate_attribute, write_all,
    from_str, to_string,
};
use crate::reader::{
    is_close_end, lemma_attrs_end_bounds, read_till_element_start, find_attribute,
    find_element_start, read_text, is_empty_end_of,
};
use crate::writer::{
    start_tag, attribute, end_tag, cdata, write_start, write_attribute, write_open_end,
    write_empty_end, write_end, write_text,
};
use crate::xml::{DecodeError, TokenKind, Tokens};
use crate::error::{VastParseError, quoted_error};
use crate::text::{
    str_eq, trim, trim_str, index_of, find_char, parse_i32, parse_i32_spec, signed_decimal,
    write_signed, lemma_signed_round_trip, lemma_signed_decimal_shape, lemma_index_of_absent,
    lemma_index_of_concat, lemma_trim_digits_ends,
};
use crate::duration::{Duration, parse_duration, lemma_parse_format, lemma_format_shape};

verus! {

/// The event that a `<Tracking>` element fires on.
#[derive(Debug, Clone, Copy, PartialEq, Eq, Structural)]
pub enum TrackingEvent {
    Mute,
    Unmute,
    Pause,
    Resume,
    Rewind,
    Skip,
    PlayerExpand,
    PlayerCollapse,
    Loaded,
    Start,
    FirstQuartile,
    MidPoint,
    ThirdQuartile,
    Complete,
    Progress,
    CloseLinear,
    CreativeView,
    AcceptInvitation,
    AdExpand,
    AdCollapse,
    Minimize,
    Close,
    OverlayViewDuration,
    OtherAdInteraction,
    InteractiveStart,
}

impl TrackingEvent {
    /// The keyword that stands for the value in a document.
    pub open spec fn keyword(self) -> Seq<char> {
        match self {
            TrackingEvent::Mute => "mute"@,
            TrackingEvent::Unmute => "unmute"@,
            TrackingEvent::Pause => "pause"@,
            TrackingEvent::Resume => "resume"@,
            TrackingEvent::Rewind => "rewind"@,
            TrackingEvent::Skip => "skip"@,
            TrackingEvent::PlayerExpand => "playerExpand"@,
            TrackingEvent::PlayerCollapse => "playerCollapse"@,
            TrackingEvent::Loaded => "loaded"@,
            TrackingEvent::Start => "start"@,
            TrackingEvent::FirstQuartile => "firstQuartile"@,
            TrackingEvent::MidPoint => "midpoint"@,
            TrackingEvent::ThirdQuartile => "thirdQuartile"@,
            TrackingEvent::Complete => "complete"@,
            TrackingEvent::Progress => "progress"@,
            TrackingEvent::CloseLinear => "closeLinear"@,
            TrackingEvent::CreativeView => "creativeView"@,
            TrackingEvent::AcceptInvitation => "acceptInvitation"@,
            TrackingEvent::AdExpand => "adExpand"@,
            TrackingEvent::AdCollapse => "adCollapse"@,
            TrackingEvent::Minimize => "minimize"@,
            TrackingEvent::Close => "close"@,
            TrackingEvent::OverlayViewDuration => "overlayViewDuration"@,
            TrackingEvent::OtherAdInteraction => "otherAdInteraction"@,
            TrackingEvent::InteractiveStart => "interactiveStart"@,
        }
    }

    /// The value whose keyword is `s`.
    pub open spec fn parse_spec(s: Seq<char>) -> Option<TrackingEvent> {
        if s == "mute"@ {
            Some(TrackingEvent::Mute)
        } else if s == "unmute"@ {
            Some(TrackingEvent::Unmute)
        } else if s == "pause"@ {
            Some(TrackingEvent::Pause)
        } else if s == "resume"@ {
            Some(TrackingEvent::Resume)
        } else if s == "rewind"@ {
            Some(TrackingEvent::Rewind)
        } else if s == "skip"@ {
            Some(TrackingEvent::Skip)
        } else if s == "playerExpand"@ {
            Some(TrackingEvent::PlayerExpand)
        } else if s == "playerCollapse"@ {
            Some(TrackingEvent::PlayerCollapse)
        } else if s == "loaded"@ {
            Some(TrackingEvent::Loaded)
        } else if s == "start"@ {
            Some(TrackingEvent::Start)
        } else if s == "firstQuartile"@ {
            Some(TrackingEvent::FirstQuartile)
        } else if s == "midpoint"@ {
            Some(TrackingEvent::MidPoint)
        } else if s == "thirdQuartile"@ {
            Some(TrackingEvent::ThirdQuartile)
        } else if s == "complete"@ {
            Some(TrackingEvent::Complete)
        } else if s == "progress"@ {
            Some(TrackingEvent::Progress)
        } else if s == "closeLinear"@ {
            Some(TrackingEvent::CloseLinear)
        } else if s == "creativeView"@ {
            Some(TrackingEvent::CreativeView)
        } else if s == "acceptInvitation"@ {
            Some(TrackingEvent::AcceptInvitation)
        } else if s == "adExpand"@ {
            Some(TrackingEvent::AdExpand)
        } else if s == "adCollapse"@ {
            Some(TrackingEvent::AdCollapse)
        } else if s == "minimize"@ {
            Some(TrackingEvent::Minimize)
        } else if s == "close"@ {
            Some(TrackingEvent::Close)
        } else if s == "overlayViewDuration"@ {
            Some(TrackingEvent::OverlayViewDuration)
        } else if s == "otherAdInteraction"@ {
            Some(TrackingEvent::OtherAdInteraction)
        } else if s == "interactiveStart"@ {
            Some(TrackingEvent::InteractiveStart)
        } else {
            None
        }
    }

    /// Reads a keyword.
    pub fn from_str(s: &str) -> (r: Result<Self, VastParseError>)
        ensures
            r matches Ok(v) ==> Self::parse_spec(s@) == Some(v),
            r matches Err(e) ==> Self::parse_spec(s@) is None && e.input@ == quoted_error(
                "tracking event parsing error: "@,
                s@,
            ),
    {
        if str_eq(s, "mute") {
            Ok(TrackingEvent::Mute)
        } else if str_eq(s, "unmute") {
            Ok(TrackingEvent::Unmute)
        } else if str_eq(s, "pause") {
            Ok(TrackingEvent::Pause)
        } else if str_eq(s, "resume") {
            Ok(TrackingEvent::Resume)
        } else if str_eq(s, "rewind") {
            Ok(TrackingEvent::Rewind)
        } else if str_eq(s, "skip") {
            Ok(TrackingEvent::Skip)
        } else if str_eq(s, "playerExpand") {
            Ok(TrackingEvent::PlayerExpand)
        } else if str_eq(s, "playerCollapse") {
            Ok(TrackingEvent::PlayerCollapse)
        } else if str_eq(s, "loaded") {
            Ok(TrackingEvent::Loaded)
        } else if str_eq(s, "start") {
            Ok(TrackingEvent::Start)
        } else if str_eq(s, "firstQuartile") {
            Ok(TrackingEvent::FirstQuartile)
        } else if str_eq(s, "midpoint") {
            Ok(TrackingEvent::MidPoint)
        } else if str_eq(s, "thirdQuartile") {
            Ok(TrackingEvent::ThirdQuartile)
        } else if str_eq(s, "complete") {
            Ok(TrackingEvent::Complete)
        } else if str_eq(s, "progress") {
            Ok(TrackingEvent::Progress)
        } else if str_eq(s, "closeLinear") {
            Ok(TrackingEvent::CloseLinear)
        } else if str_eq(s, "creativeView") {
            Ok(TrackingEvent::CreativeView)
        } else if str_eq(s, "acceptInvitation") {
            Ok(TrackingEvent::AcceptInvitation)
        } else if str_eq(s, "adExpand") {
            Ok(TrackingEvent::AdExpand)
        } else if str_eq(s, "adCollapse") {
            Ok(TrackingEvent::AdCollapse)
        } else if str_eq(s, "minimize") {
            Ok(TrackingEvent::Minimize)
        } else if str_eq(s, "close") {
            Ok(TrackingEvent::Close)
        } else if str_eq(s, "overlayViewDuration") {
            Ok(TrackingEvent::OverlayViewDuration)
        } else if str_eq(s, "otherAdInteraction") {
            Ok(TrackingEvent::OtherAdInteraction)
        } else if str_eq(s, "interactiveStart") {
            Ok(TrackingEvent::InteractiveStart)
        } else {
            Err(VastParseError::quoting("tracking event parsing error: ", s))
        }
    }

    /// The keyword of the value.
    pub fn keyword_str(&self) -> (r: &'static str)
        ensures
            r@ == self.keyword(),
    {
        match self {
            TrackingEvent::Mute => "mute",
            TrackingEvent::Unmute => "unmute",
            TrackingEvent::Pause => "pause",
            TrackingEvent::Resume => "resume",
            TrackingEvent::Rewind => "rewind",
            TrackingEvent::Skip => "skip",
            TrackingEvent::PlayerExpand => "playerExpand",
            TrackingEvent::PlayerCollapse => "playerCollapse",
            TrackingEvent::Loaded => "loaded",
            TrackingEvent::Start => "start",
            TrackingEvent::FirstQuartile => "firstQuartile",
            TrackingEvent::MidPoint => "midpoint",
            TrackingEvent::ThirdQuartile => "thirdQuartile",
            TrackingEvent::Complete => "complete",
            TrackingEvent::Progress => "progress",
            TrackingEvent::CloseLinear => "closeLinear",
            TrackingEvent::CreativeView => "creativeView",
            TrackingEvent::AcceptInvitation => "acceptInvitation",
            TrackingEvent::AdExpand => "adExpand",
            TrackingEvent::AdCollapse => "adCollapse",
            TrackingEvent::Minimize => "minimize",
            TrackingEvent::Close => "close",
            TrackingEvent::OverlayViewDuration => "overlayViewDuration",
            TrackingEvent::OtherAdInteraction => "otherAdInteraction",
            TrackingEvent::InteractiveStart => "interactiveStart",
        }
    }

    /// The keyword of the value, as an owned string.
    pub fn to_string(&self) -> (r: String)
        ensures
            r@ == self.keyword(),
    {
        String::from_str(self.keyword_str())
    }
}

/// Reading the keyword of a value gives the value back.
pub proof fn lemma_tracking_event_round_trip(v: TrackingEvent)
    ensures
        TrackingEvent::parse_spec(v.keyword()) == Some(v),
{
    reveal_strlit("mute");
    reveal_strlit("unmute");
    reveal_strlit("pause");
    reveal_strlit("resume");
    reveal_strlit("rewind");
    reveal_strlit("skip");
    reveal_strlit("playerExpand");
    reveal_strlit("playerCollapse");
    reveal_strlit("loaded");
    reveal_strlit("start");
    reveal_strlit("firstQuartile");
    reveal_strlit("midpoint");
    reveal_strlit("thirdQuartile");
    reveal_strlit("complete");
    reveal_strlit("progress");
    reveal_strlit("closeLinear");
    reveal_strlit("creativeView");
    reveal_strlit("acceptInvitation");
    reveal_strlit("adExpand");
    reveal_strlit("adCollapse");
    reveal_strlit("minimize");
    reveal_strlit("close");
    reveal_strlit("overlayViewDuration");
    reveal_strlit("otherAdInteraction");
    reveal_strlit("interactiveStart");
    match v {
        TrackingEvent::Mute => {
        },
        TrackingEvent::Unmute => {
            assert("unmute"@.len() != "mute"@.len());
        },
        TrackingEvent::Pause => {
            assert("pause"@.len() != "mute"@.len());
            assert("pause"@.len() != "unmute"@.len());
        },
        TrackingEvent::Resume => {
            assert("resume"@.len() != "mute"@.len());
            assert("resume"@[0] != "unmute"@[0]);
            assert("resume"@.len() != "pause"@.len());
        },
        TrackingEvent::Rewind => {
            assert("rewind"@.len() != "mute"@.len());
            assert("rewind"@[0] != "unmute"@[0]);
            assert("rewind"@.len() != "pause"@.len());
            assert("rewind"@[2] != "resume"@[2]);
        },
        TrackingEvent::Skip => {
            assert("skip"@[0] != "mute"@[0]);
            assert("skip"@.len() != "unmute"@.len());
            assert("skip"@.len() != "pause"@.len());
            assert("skip"@.len() != "resume"@.len());
            assert("skip"@.len() != "rewind"@.len());
        },
        TrackingEvent::PlayerExpand => {
            assert("playerExpand"@.len() != "mute"@.len());
            assert("playerExpand"@.len() != "unmute"@.len());
            assert("playerExpand"@.len() != "pause"@.len());
            assert("playerExpand"@.len() != "resume"@.len());
            assert("playerExpand"@.len() != "rewind"@.len());
            assert("playerExpand"@.len() != "skip"@.len());
        },
        TrackingEvent::PlayerCollapse => {
            assert("playerCollapse"@.len() != "mute"@.len());
            assert("playerCollapse"@.len() != "unmute"@.len());
            assert("playerCollapse"@.len() != "pause"@.len());
            assert("playerCollapse"@.len() != "resume"@.len());
            assert("playerCollapse"@.len() != "rewind"@.len());
            assert("playerCollapse"@.len() != "skip"@.len());
            assert("playerCollapse"@.len() != "playerExpand"@.len());
        },
        TrackingEvent::Loaded => {
            assert("loaded"@.len() != "mute"@.len());
            assert("loaded"@[0] != "unmute"@[0]);
            assert("loaded"@.len() != "pause"@.len());
            assert("loaded"@[0] != "resume"@[0]);
            assert("loaded"@[0] != "rewind"@[0]);
            assert("loaded"@.len() != "skip"@.len());
            assert("loaded"@.len() != "playerExpand"@.len());
            assert("loaded"@.len() != "playerCollapse"@.len());
        },
        TrackingEvent::Start => {
            assert("start"@.len() != "mute"@.len());
            assert("start"@.len() != "unmute"@.len());
            assert("start"@[0] != "pause"@[0]);
            assert("start"@.len() != "resume"@.len());
            assert("start"@.len() != "rewind"@.len());
            assert("start"@.len() != "skip"@.len());
            assert("start"@.len() != "playerExpand"@.len());
            assert("start"@.len() != "playerCollapse"@.len());
            assert("start"@.len() != "loaded"@.len());
        },
        TrackingEvent::FirstQuartile => {
            assert("firstQuartile"@.len() != "mute"@.len());
            assert("firstQuartile"@.len() != "unmute"@.len());
            assert("firstQuartile"@.len() != "pause"@.len());
            assert("firstQuartile"@.len() != "resume"@.len());
            assert("firstQuartile"@.len() != "rewind"@.len());
            assert("firstQuartile"@.len() != "skip"@.len());
            assert("firstQuartile"@.len() != "playerExpand"@.len());
            assert("firstQuartile"@.len() != "playerCollapse"@.len());
            assert("firstQuartile"@.len() != "loaded"@.len());
            assert("firstQuartile"@.len() != "start"@.len());
        },
        TrackingEvent::MidPoint => {
            assert("midpoint"@.len() != "mute"@.len());
            assert("midpoint"@.len() != "unmute"@.len());
            assert("midpoint"@.len() != "pause"@.len());
            assert("midpoint"@.len() != "resume"@.len());
            assert("midpoint"@.len() != "rewind"@.len());
            assert("midpoint"@.len() != "skip"@.len());
            assert("midpoint"@.len() != "playerExpand"@.len());
            assert("midpoint"@.len() != "playerCollapse"@.len());
            assert("midpoint"@.len() != "loaded"@.len());
            assert("midpoint"@.len() != "start"@.len());
            assert("midpoint"@.len() != "firstQuartile"@.len());
        },
        TrackingEvent::ThirdQuartile => {
            assert("thirdQuartile"@.len() != "mute"@.len());
            assert("thirdQuartile"@.len() != "unmute"@.len());
            assert("thirdQuartile"@.len() != "pause"@.len());
            assert("thirdQuartile"@.len() != "resume"@.len());
            assert("thirdQuartile"@.len() != "rewind"@.len());
            assert("thirdQuartile"@.len() != "skip"@.len());
            assert("thirdQuartile"@.len() != "playerExpand"@.len());
            assert("thirdQuartile"@.len() != "playerCollapse"@.len());
            assert("thirdQuartile"@.len() != "loaded"@.len());
            assert("thirdQuartile"@.len() != "start"@.len());
            assert("thirdQuartile"@[0] != "firstQuartile"@[0]);
            assert("thirdQuartile"@.len() != "midpoint"@.len());
        },
        TrackingEvent::Complete => {
            assert("complete"@.len() != "mute"@.len());
            assert("complete"@.len() != "unmute"@.len());
            assert("complete"@.len() != "pause"@.len());
            assert("complete"@.len() != "resume"@.len());
            assert("complete"@.len() != "rewind"@.len());
            assert("complete"@.len() != "skip"@.len());
            assert("complete"@.len() != "playerExpand"@.len());
            assert("complete"@.len() != "playerCollapse"@.len());
            assert("complete"@.len() != "loaded"@.len());
            assert("complete"@.len() != "start"@.len());
            assert("complete"@.len() != "firstQuartile"@.len());
            assert("complete"@[0] != "midpoint"@[0]);
            assert("complete"@.len() != "thirdQuartile"@.len());
        },
        TrackingEvent::Progress => {
            assert("progress"@.len() != "mute"@.len());
            assert("progress"@.len() != "unmute"@.len());
            assert("progress"@.len() != "pause"@.len());
            assert("progress"@.len() != "resume"@.len());
            assert("progress"@.len() != "rewind"@.len());
            assert("progress"@.len() != "skip"@.len());
            assert("progress"@.len() != "playerExpand"@.len());
            assert("progress"@.len() != "playerCollapse"@.len());
            assert("progress"@.len() != "loaded"@.len());
            assert("progress"@.len() != "start"@.len());
            assert("progress"@.len() != "firstQuartile"@.len());
            assert("progress"@[0] != "midpoint"@[0]);
            assert("progress"@.len() != "thirdQuartile"@.len());
            assert("progress"@[0] != "complete"@[0]);
        },
        TrackingEvent::CloseLinear => {
            assert("closeLinear"@.len() != "mute"@.len());
            assert("closeLinear"@.len() != "unmute"@.len());
            assert("closeLinear"@.len() != "pause"@.len());
            assert("closeLinear"@.len() != "resume"@.len());
            assert("closeLinear"@.len() != "rewind"@.len());
            assert("closeLinear"@.len() != "skip"@.len());
            assert("closeLinear"@.len() != "playerExpand"@.len());
            assert("closeLinear"@.len() != "playerCollapse"@.len());
            assert("closeLinear"@.len() != "loaded"@.len());
            assert("closeLinear"@.len() != "start"@.len());
            assert("closeLinear"@.len() != "firstQuartile"@.len());
            assert("closeLinear"@.len() != "midpoint"@.len());
            assert("closeLinear"@.len() != "thirdQuartile"@.len());
            assert("closeLinear"@.len() != "complete"@.len());
            assert("closeLinear"@.len() != "progress"@.len());
        },
        TrackingEvent::CreativeView => {
            assert("creativeView"@.len() != "mute"@.len());
            assert("creativeView"@.len() != "unmute"@.len());
            assert("creativeView"@.len() != "pause"@.len());
            assert("creativeView"@.len() != "resume"@.len());
            assert("creativeView"@.len() != "rewind"@.len());
            assert("creativeView"@.len() != "skip"@.len());
            assert("creativeView"@[0] != "playerExpand"@[0]);
            assert("creativeView"@.len() != "playerCollapse"@.len());
            assert("creativeView"@.len() != "loaded"@.len());
            assert("creativeView"@.len() != "start"@.len());
            assert("creativeView"@.len() != "firstQuartile"@.len());
            assert("creativeView"@.len() != "midpoint"@.len());
            assert("creativeView"@.len() != "thirdQuartile"@.len());
            assert("creativeView"@.len() != "complete"@.len());
            assert("creativeView"@.len() != "progress"@.len());
            assert("creativeView"@.len() != "closeLinear"@.len());
        },
        TrackingEvent::AcceptInvitation => {
            assert("acceptInvitation"@.len() != "mute"@.len());
            assert("acceptInvitation"@.len() != "unmute"@.len());
            assert("acceptInvitation"@.len() != "pause"@.len());
            assert("acceptInvitation"@.len() != "resume"@.len());
            assert("acceptInvitation"@.len() != "rewind"@.len());
            assert("acceptInvitation"@.len() != "skip"@.len());
            assert("acceptInvitation"@.len() != "playerExpand"@.len());
            assert("acceptInvitation"@.len() != "playerCollapse"@.len());
            assert("acceptInvitation"@.len() != "loaded"@.len());
            assert("acceptInvitation"@.len() != "start"@.len());
            assert("acceptInvitation"@.len() != "firstQuartile"@.len());
            assert("acceptInvitation"@.len() != "midpoint"@.len());
            assert("acceptInvitation"@.len() != "thirdQuartile"@.len());
            assert("acceptInvitation"@.len() != "complete"@.len());
            assert("acceptInvitation"@.len() != "progress"@.len());
            assert("acceptInvitation"@.len() != "closeLinear"@.len());
            assert("acceptInvitation"@.len() != "creativeView"@.len());
        },
        TrackingEvent::AdExpand => {
            assert("adExpand"@.len() != "mute"@.len());
            assert("adExpand"@.len() != "unmute"@.len());
            assert("adExpand"@.len() != "pause"@.len());
            assert("adExpand"@.len() != "resume"@.len());
            assert("adExpand"@.len() != "rewind"@.len());
            assert("adExpand"@.len() != "skip"@.len());
            assert("adExpand"@.len() != "playerExpand"@.len());
            assert("adExpand"@.len() != "playerCollapse"@.len());
            assert("adExpand"@.len() != "loaded"@.len());
            assert("adExpand"@.len() != "start"@.len());
            assert("adExpand"@.len() != "firstQuartile"@.len());
            assert("adExpand"@[0] != "midpoint"@[0]);
            assert("adExpand"@.len() != "thirdQuartile"@.len());
            assert("adExpand"@[0] != "complete"@[0]);
            assert("adExpand"@[0] != "progress"@[0]);
            assert("adExpand"@.len() != "closeLinear"@.len());
            assert("adExpand"@.len() != "creativeView"@.len());
            assert("adExpand"@.len() != "acceptInvitation"@.len());
        },
        TrackingEvent::AdCollapse => {
            assert("adCollapse"@.len() != "mute"@.len());
            assert("adCollapse"@.len() != "unmute"@.len());
            assert("adCollapse"@.len() != "pause"@.len());
            assert("adCollapse"@.len() != "resume"@.len());
            assert("adCollapse"@.len() != "rewind"@.len());
            assert("adCollapse"@.len() != "skip"@.len());
            assert("adCollapse"@.len() != "playerExpand"@.len());
            assert("adCollapse"@.len() != "playerCollapse"@.len());
            assert("adCollapse"@.len() != "loaded"@.len());
            assert("adCollapse"@.len() != "start"@.len());
            assert("adCollapse"@.len() != "firstQuartile"@.len());
            assert("adCollapse"@.len() != "midpoint"@.len());
            assert("adCollapse"@.len() != "thirdQuartile"@.len());
            assert("adCollapse"@.len() != "complete"@.len());
            assert("adCollapse"@.len() != "progress"@.len());
            assert("adCollapse"@.len() != "closeLinear"@.len());
            assert("adCollapse"@.len() != "creativeView"@.len());
            assert("adCollapse"@.len() != "acceptInvitation"@.len());
            assert("adCollapse"@.len() != "adExpand"@.len());
        },
        TrackingEvent::Minimize => {
            assert("minimize"@.len() != "mute"@.len());
            assert("minimize"@.len() != "unmute"@.len());
            assert("minimize"@.len() != "pause"@.len());
            assert("minimize"@.len() != "resume"@.len());
            assert("minimize"@.len() != "rewind"@.len());
            assert("minimize"@.len() != "skip"@.len());
            assert("minimize"@.len() != "playerExpand"@.len());
            assert("minimize"@.len() != "playerCollapse"@.len());
            assert("minimize"@.len() != "loaded"@.len());
            assert("minimize"@.len() != "start"@.len());
            assert("minimize"@.len() != "firstQuartile"@.len());
            assert("minimize"@[2] != "midpoint"@[2]);
            assert("minimize"@.len() != "thirdQuartile"@.len());
            assert("minimize"@[0] != "complete"@[0]);
            assert("minimize"@[0] != "progress"@[0]);
            assert("minimize"@.len() != "closeLinear"@.len());
            assert("minimize"@.len() != "creativeView"@.len());
            assert("minimize"@.len() != "acceptInvitation"@.len());
            assert("minimize"@[0] != "adExpand"@[0]);
            assert("minimize"@.len() != "adCollapse"@.len());
        },
        TrackingEvent::Close => {
            assert("close"@.len() != "mute"@.len());
            assert("close"@.len() != "unmute"@.len());
            assert("close"@[0] != "pause"@[0]);
            assert("close"@.len() != "resume"@.len());
            assert("close"@.len() != "rewind"@.len());
            assert("close"@.len() != "skip"@.len());
            assert("close"@.len() != "playerExpand"@.len());
            assert("close"@.len() != "playerCollapse"@.len());
            assert("close"@.len() != "loaded"@.len());
            assert("close"@[0] != "start"@[0]);
            assert("close"@.len() != "firstQuartile"@.len());
            assert("close"@.len() != "midpoint"@.len());
            assert("close"@.len() != "thirdQuartile"@.len());
            assert("close"@.len() != "complete"@.len());
            assert("close"@.len() != "progress"@.len());
            assert("close"@.len() != "closeLinear"@.len());
            assert("close"@.len() != "creativeView"@.len());
            assert("close"@.len() != "acceptInvitation"@.len());
            assert("close"@.len() != "adExpand"@.len());
            assert("close"@.len() != "adCollapse"@.len());
            assert("close"@.len() != "minimize"@.len());
        },
        TrackingEvent::OverlayViewDuration => {
            assert("overlayViewDuration"@.len() != "mute"@.len());
            assert("overlayViewDuration"@.len() != "unmute"@.len());
            assert("overlayViewDuration"@.len() != "pause"@.len());
            assert("overlayViewDuration"@.len() != "resume"@.len());
            assert("overlayViewDuration"@.len() != "rewind"@.len());
            assert("overlayViewDuration"@.len() != "skip"@.len());
            assert("overlayViewDuration"@.len() != "playerExpand"@.len());
            assert("overlayViewDuration"@.len() != "playerCollapse"@.len());
            assert("overlayViewDuration"@.len() != "loaded"@.len());
            assert("overlayViewDuration"@.len() != "start"@.len());
            assert("overlayViewDuration"@.len() != "firstQuartile"@.len());
            assert("overlayViewDuration"@.len() != "midpoint"@.len());
            assert("overlayViewDuration"@.len() != "thirdQuartile"@.len());
            assert("overlayViewDuration"@.len() != "complete"@.len());
            assert("overlayViewDuration"@.len() != "progress"@.len());
            assert("overlayViewDuration"@.len() != "closeLinear"@.len());
            assert("overlayViewDuration"@.len() != "creativeView"@.len());
            assert("overlayViewDuration"@.len() != "acceptInvitation"@.len());
            assert("overlayViewDuration"@.len() != "adExpand"@.len());
            assert("overlayViewDuration"@.len() != "adCollapse"@.len());
            assert("overlayViewDuration"@.len() != "minimize"@.len());
            assert("overlayViewDuration"@.len() != "close"@.len());
        },
        TrackingEvent::OtherAdInteraction => {
            assert("otherAdInteraction"@.len() != "mute"@.len());
            assert("otherAdInteraction"@.len() != "unmute"@.len());
            assert("otherAdInteraction"@.len() != "pause"@.len());
            assert("otherAdInteraction"@.len() != "resume"@.len());
            assert("otherAdInteraction"@.len() != "rewind"@.len());
            assert("otherAdInteraction"@.len() != "skip"@.len());
            assert("otherAdInteraction"@.len() != "playerExpand"@.len());
            assert("otherAdInteraction"@.len() != "playerCollapse"@.len());
            assert("otherAdInteraction"@.len() != "loaded"@.len());
            assert("otherAdInteraction"@.len() != "start"@.len());
            assert("otherAdInteraction"@.len() != "firstQuartile"@.len());
            assert("otherAdInteraction"@.len() != "midpoint"@.len());
            assert("otherAdInteraction"@.len() != "thirdQuartile"@.len());
            assert("otherAdInteraction"@.len() != "complete"@.len());
            assert("otherAdInteraction"@.len() != "progress"@.len());
            assert("otherAdInteraction"@.len() != "closeLinear"@.len());
            assert("otherAdInteraction"@.len() != "creativeView"@.len());
            assert("otherAdInteraction"@.len() != "acceptInvitation"@.len());
            assert("otherAdInteraction"@.len() != "adExpand"@.len());
            assert("otherAdInteraction"@.len() != "adCollapse"@.len());
            assert("otherAdInteraction"@.len() != "minimize"@.len());
            assert("otherAdInteraction"@.len() != "close"@.len());
            assert("otherAdInteraction"@.len() != "overlayViewDuration"@.len());
        },
        TrackingEvent::InteractiveStart => {
            assert("interactiveStart"@.len() != "mute"@.len());
            assert("interactiveStart"@.len() != "unmute"@.len());
            assert("interactiveStart"@.len() != "pause"@.len());
            assert("interactiveStart"@.len() != "resume"@.len());
            assert("interactiveStart"@.len() != "rewind"@.len());
            assert("interactiveStart"@.len() != "skip"@.len());
            assert("interactiveStart"@.len() != "playerExpand"@.len());
            assert("interactiveStart"@.len() != "playerCollapse"@.len());
            assert("interactiveStart"@.len() != "loaded"@.len());
            assert("interactiveStart"@.len() != "start"@.len());
            assert("interactiveStart"@.len() != "firstQuartile"@.len());
            assert("interactiveStart"@.len() != "midpoint"@.len());
            assert("interactiveStart"@.len() != "thirdQuartile"@.len());
            assert("interactiveStart"@.len() != "complete"@.len());
            assert("interactiveStart"@.len() != "progress"@.len());
            assert("interactiveStart"@.len() != "closeLinear"@.len());
            assert("interactiveStart"@.len() != "creativeView"@.len());
            assert("interactiveStart"@[0] != "acceptInvitation"@[0]);
            assert("interactiveStart"@.len() != "adExpand"@.len());
            assert("interactiveStart"@.len() != "adCollapse"@.len());
            assert("interactiveStart"@.len() != "minimize"@.len());
            assert("interactiveStart"@.len() != "close"@.len());
            assert("interactiveStart"@.len() != "overlayViewDuration"@.len());
            assert("interactiveStart"@.len() != "otherAdInteraction"@.len());
        },
    }
}

/// A point in a linear creative: a duration from its start, or a percentage
/// of its length.
#[derive(Debug, Clone, Copy, PartialEq, Eq, Structural)]
pub enum Offset {
    Duration(Duration),
    Percentage(i32),
}

/// Whether the trimmed text ends with its first `%`: the form of a
/// percentage.
pub open spec fn is_percentage_form(s: Seq<char>) -> bool {
    let t = trim(s);
    index_of(t, '%') >= 0 && index_of(t, '%') == t.len() - 1
}

impl Offset {
    /// `n%` for a percentage, the canonical duration text for a duration.
    pub open spec fn text(self) -> Seq<char> {
        match self {
            Offset::Duration(d) => d.format_spec(),
            Offset::Percentage(p) => signed_decimal(p as int) + seq!['%'],
        }
    }

    /// A percentage where the trimmed text ends with its first `%`, a duration
    /// otherwise.
    pub open spec fn parse_spec(s: Seq<char>) -> Option<Offset> {
        let t = trim(s);
        if is_percentage_form(s) {
            match parse_i32_spec(t.subrange(0, t.len() - 1)) {
                Some(p) => Some(Offset::Percentage(p)),
                None => None,
            }
        } else {
            match parse_duration(s) {
                Some(d) => Some(Offset::Duration(d)),
                None => None,
            }
        }
    }

    pub open spec fn wf(self) -> bool {
        match self {
            Offset::Duration(d) => d.wf(),
            Offset::Percentage(_) => true,
        }
    }

    /// Reads a percentage `n%` or a duration.
    pub fn from_str(s: &str) -> (r: Result<Self, VastParseError>)
        ensures
            r matches Ok(v) ==> Self::parse_spec(s@) == Some(v) && v.wf(),
            r matches Err(e) ==> Self::parse_spec(s@) is None && e.input@ == if is_percentage_form(
                s@,
            ) {
                quoted_error("offset value parsing error: "@, s@)
            } else {
                quoted_error("duration parse error: "@, s@)
            },
    {
        let t = trim_str(s);
        let n = t.unicode_len();
        match find_char(t, '%') {
            Some(i) => {
                if i + 1 == n {
                    return match parse_i32(t.substring_char(0, i)) {
                        Some(p) => Ok(Offset::Percentage(p)),
                        None => Err(VastParseError::quoting("offset value parsing error: ", s)),
                    };
                }
            },
            None => {},
        }
        match Duration::from_str(s) {
            Ok(d) => Ok(Offset::Duration(d)),
            Err(e) => Err(e),
        }
    }

    /// Appends the text of the offset.
    pub fn write_to(&self, out: &mut String)
        ensures
            final(out)@ == old(out)@ + self.text(),
    {
        match self {
            Offset::Duration(d) => d.write_to(out),
            Offset::Percentage(p) => {
                write_signed(out, *p);
                out.append("%");
                proof {
                    reveal_strlit("%");
                }
            },
        }
        assert(final(out)@ =~= old(out)@ + self.text());
    }

    /// The text of the offset.
    pub fn to_string(&self) -> (r: String)
        ensures
            r@ == self.text(),
    {
        let mut out = String::new();
        self.write_to(&mut out);
        assert(out@ =~= self.text());
        out
    }
}

/// Reading the text of a well-formed offset gives the offset back.
pub proof fn lemma_offset_round_trip(v: Offset)
    requires
        v.wf(),
    ensures
        Offset::parse_spec(v.text()) == Some(v),
{
    match v {
        Offset::Duration(d) => {
            let f = d.format_spec();
            lemma_format_shape(d);
            lemma_trim_digits_ends(f);
            lemma_index_of_absent(f, '%');
            lemma_parse_format(d);
        },
        Offset::Percentage(p) => {
            let a = signed_decimal(p as int);
            let f = a + seq!['%'];
            lemma_signed_decimal_shape(p as int);
            lemma_signed_round_trip(p);
            lemma_trim_digits_ends(f);
            lemma_index_of_absent(a, '%');
            lemma_index_of_concat(a, seq!['%'], '%');
            assert(f.subrange(0, f.len() - 1) =~= a);
        },
    }
}

/// The tracking events of a creative.
#[derive(Debug, Clone, PartialEq, Default)]
pub struct TrackingEvents {
    /// Zero or more events.
    pub trackings: Vec<Tracking>,
}

impl XmlElement for TrackingEvents {
    open spec fn tag() -> Seq<char> {
        "TrackingEvents"@
    }

    open spec fn knows(key: Seq<char>) -> bool {
        false
    }

    open spec fn attrs_read(&self, t: &Tokens, s: int, e: int) -> bool {
        true
    }

    open spec fn content_read(&self, t: &Tokens, e: int, q: int) -> bool {
        (forall|k: int| 0 <= k < self.trackings@.len() ==> read_within(*t, #[trigger] self.trackings@[k], e, q))
            && read_in_order(*t, self.trackings@, e)
            && exists|ws: Seq<(int, int, int)>|
                #[trigger] children_cover(*t, ws, e + 1, content_end(e, q), 1)
                && count_of(ws, 0) == self.trackings@.len()
                && count_of(ws, -1) == 0
    }

    open spec fn read_ok(t: &Tokens, pos: int) -> bool {
        false
    }

    open spec fn read_refused(t: &Tokens, pos: int) -> bool {
        t.start_malformed(pos, "TrackingEvents"@) || match t.till_start(pos, "TrackingEvents"@) {
            Some(a) => exists|i: int| a <= i < t.attrs_end(a) && !Self::knows(#[trigger] t.key(i)),
            None => false,
        }
    }

    open spec fn xml_spec(&self) -> Seq<char> {
        start_tag("TrackingEvents"@)
            + (if self.trackings@.len() == 0 {
            seq!['/', '>']
        } else {
            seq!['>'] + seq_xml(self.trackings@) + end_tag("TrackingEvents"@)
        })
    }

    fn read(t: &Tokens, pos: usize) -> (r: Result<(Self, usize), DecodeError>) {
        let n = t.items.len();
        let start = read_till_element_start(t, pos, "TrackingEvents")?;
        let mut p = start;
        let mut trackings: Vec<Tracking> = Vec::new();
        loop
            invariant
                n == t.len(),
                start <= p <= n,
                start == n || (pos < start && t.starts(start - 1, "TrackingEvents"@)),
                forall|i: int| start <= i < p ==> #[trigger] t.kind(i) == TokenKind::Attribute && Self::knows(t.key(i)),
                t.till_start(pos as int, "TrackingEvents"@) == Some(start as int),
                t.attrs_end(start as int) == t.attrs_end(p as int),
                forall|i: int| start <= i < p ==> #[trigger] t.attr_readable(i),
            ensures
                start <= p < n,
                pos < start && t.starts(start - 1, "TrackingEvents"@),
                forall|i: int| start <= i < p ==> #[trigger] t.kind(i) == TokenKind::Attribute && Self::knows(t.key(i)),
                t.kind(p as int) == TokenKind::ElementEnd && !is_close_end(t.span(p as int)),
                t.till_start(pos as int, "TrackingEvents"@) == Some(start as int),
                t.attrs_end(start as int) == p,
                forall|i: int| start <= i < p ==> #[trigger] t.attr_readable(i),
            decreases n - p,
        {
            proof {
                lemma_attrs_end_bounds(t, p as int);
            }
            let (found, q) = find_attribute(t, p)?;
            match found {
                None => {
                    break;
                },
                Some((key, value)) => {
                    p = q;
                    return Err(unknown_field("TrackingEvents", key));
                },
            }
        }
        let ghost e = p as int;
        let ghost mut ends_trackings: Seq<int> = Seq::empty();
        proof {
            lemma_ends_empty(*t, trackings@, e);
        }
        let empty = is_empty_end_of(&t.items[p]);
        p = p + 1;
        let ghost mut ws: Seq<(int, int, int)> = Seq::empty();
        proof {
            lemma_cover_empty(*t, e + 1, 1);
        }
        if !empty {
            loop
                invariant_except_break
                    children_cover(*t, ws, e + 1, p as int, 1),
                    prev_end(ws, e + 1, ws.len() as int) == p,
                invariant
                    n == t.len(),
                    pos < p <= n,
                    e < p,
                    (forall|k: int| 0 <= k < trackings@.len() ==> read_within(*t, #[trigger] trackings@[k], e, p as int)),
                    ends_fit(*t, trackings@, e, ends_trackings),
                    part_start(ends_trackings, e, trackings@.len() as int) <= p,
                    count_of(ws, 0) == trackings@.len(),
                    count_of(ws, -1) == 0,
                ensures
                    pos < p <= n,
                    e < p,
                    children_cover(*t, ws, e + 1, content_end(e, p as int), 1),
                    (forall|k: int| 0 <= k < trackings@.len() ==> read_within(*t, #[trigger] trackings@[k], e, p as int)),
                    ends_fit(*t, trackings@, e, ends_trackings),
                    part_start(ends_trackings, e, trackings@.len() as int) <= p,
                    count_of(ws, 0) == trackings@.len(),
                    count_of(ws, -1) == 0,

                decreases n - p,
            {
                let (found, q) = find_element_start(t, p, "TrackingEvents")?;
                match found {
                    None => {
                        proof {
                            lemma_cover_extend(*t, ws, e + 1, p as int, q as int - 1, 1);
                        }
                        p = q;
                        break;
                    },
                    Some(tag) => {
                        if str_eq(tag.as_str(), "Tracking") {
                            let (v, q2) = Tracking::read(t, q)?;
                            proof {
                                assert(read_within(*t, v, q as int, q2 as int));
                                lemma_read_within_widen(*t, v, q as int, q2 as int, part_start(ends_trackings, e, trackings@.len() as int), q2 as int);
                                lemma_ends_push(*t, trackings@, v, e, ends_trackings, q2 as int);
                                ends_trackings = ends_trackings.push(q2 as int);
                            }
                            trackings.push(v);
                            proof {
                                lemma_cover_push(*t, ws, e + 1, p as int, (q as int, q2 as int, 0), 1);
                                ws = ws.push((q as int, q2 as int, 0));
                            }
                            p = q2;
                        } else {
                            return Err(unknown_field("TrackingEvents", tag));
                        }
                    },
                }
            }
        }
        assert(children_cover(*t, ws, e + 1, content_end(e, p as int), 1));
        assert(t.start_tag(start - 1, e, "TrackingEvents"@));
        assert(t.till_start(pos as int, "TrackingEvents"@) == Some(start as int));
        assert forall|i: int| start - 1 < i < e implies Self::knows(#[trigger] t.key(i)) by {
            assert(t.kind(i) == TokenKind::Attribute);
        }
        assert forall|i: int| start <= i < e implies #[trigger] t.attr_readable(i) && Self::knows(t.key(i)) by {
            assert(t.kind(i) == TokenKind::Attribute);
        }
        let v = TrackingEvents { trackings };
        assert(v.content_read(t, e, p as int));
        Ok((v, p))
    }

    fn write(&self, out: &mut String) {
        write_start(out, "TrackingEvents");
        let ghost mut head = start_tag("TrackingEvents"@);
        if self.trackings.len() == 0 {
            write_empty_end(out);
        } else {
            let ghost mid = out@;
            let ghost mut body = seq!['>'];
            write_open_end(out);
            write_all(out, &self.trackings);
            proof {
                let piece = seq_xml(self.trackings@);
                lemma_append(mid, body, piece);
                body = body + piece;
            }
            write_end(out, "TrackingEvents");
            proof {
                lemma_append(mid, body, end_tag("TrackingEvents"@));
                lemma_append(old(out)@, head, body + end_tag("TrackingEvents"@));
            }
        }
    }
}

/// A URI to request when an event happens.
#[derive(Debug, Clone, PartialEq)]
pub struct Tracking {
    /// The event.
    pub event: TrackingEvent,
    /// For a progress event: the point it stands for.
    pub offset: Option<Offset>,
    /// The URI.
    pub uri: String,
}

impl XmlElement for Tracking {
    open spec fn tag() -> Seq<char> {
        "Tracking"@
    }

    open spec fn knows(key: Seq<char>) -> bool {
        key == "event"@ || key == "offset"@
    }

    open spec fn attrs_read(&self, t: &Tokens, s: int, e: int) -> bool {
        (match t.attr_text(s, e, "event"@) {
            Some(v) => TrackingEvent::parse_spec(v) == Some(self.event),
            None => false,
        })
            && (self.offset == match t.attr_text(s, e, "offset"@) {
            Some(v) => Offset::parse_spec(v),
            None => None,
        })
    }

    open spec fn content_read(&self, t: &Tokens, e: int, q: int) -> bool {
        self.uri@ == t.text_of(e, q)
    }

    open spec fn read_ok(t: &Tokens, pos: int) -> bool {
        false
    }

    open spec fn read_refused(t: &Tokens, pos: int) -> bool {
        t.start_malformed(pos, "Tracking"@) || match t.till_start(pos, "Tracking"@) {
            Some(a) => exists|i: int| a <= i < t.attrs_end(a) && !Self::knows(#[trigger] t.key(i)),
            None => false,
        }
    }

    open spec fn xml_spec(&self) -> Seq<char> {
        start_tag("Tracking"@)
            + attribute("event"@, self.event.keyword())
            + opt_attribute(
            "offset"@,
            match self.offset {
                Some(v) => Some(v.text()),
                None => None,
            },
        )
            + (seq!['>'] + cdata(self.uri@) + end_tag("Tracking"@))
    }

    fn read(t: &Tokens, pos: usize) -> (r: Result<(Self, usize), DecodeError>) {
        let n = t.items.len();
        let start = read_till_element_start(t, pos, "Tracking")?;
        let mut p = start;
        let mut event: Option<TrackingEvent> = None;
        let mut offset: Option<Offset> = None;
        loop
            invariant
                n == t.len(),
                start <= p <= n,
                start == n || (pos < start && t.starts(start - 1, "Tracking"@)),
                forall|i: int| start <= i < p ==> #[trigger] t.kind(i) == TokenKind::Attribute && Self::knows(t.key(i)),
                t.till_start(pos as int, "Tracking"@) == Some(start as int),
                t.attrs_end(start as int) == t.attrs_end(p as int),
                forall|i: int| start <= i < p ==> #[trigger] t.attr_readable(i),
                event == match t.attr_text(start - 1, p as int, "event"@) {
                    Some(v) => TrackingEvent::parse_spec(v),
                    None => None,
                },
                offset == match t.attr_text(start - 1, p as int, "offset"@) {
                    Some(v) => Offset::parse_spec(v),
                    None => None,
                },
            ensures
                start <= p < n,
                pos < start && t.starts(start - 1, "Tracking"@),
                forall|i: int| start <= i < p ==> #[trigger] t.kind(i) == TokenKind::Attribute && Self::knows(t.key(i)),
                t.kind(p as int) == TokenKind::ElementEnd && !is_close_end(t.span(p as int)),
                t.till_start(pos as int, "Tracking"@) == Some(start as int),
                t.attrs_end(start as int) == p,
                forall|i: int| start <= i < p ==> #[trigger] t.attr_readable(i),
                event == match t.attr_text(start - 1, p as int, "event"@) {
                    Some(v) => TrackingEvent::parse_spec(v),
                    None => None,
                },
                offset == match t.attr_text(start - 1, p as int, "offset"@) {
                    Some(v) => Offset::parse_spec(v),
                    None => None,
                },
            decreases n - p,
        {
            proof {
                lemma_attrs_end_bounds(t, p as int);
            }
            let (found, q) = find_attribute(t, p)?;
            match found {
                None => {
                    break;
                },
                Some((key, value)) => {
                    p = q;
                    proof {
                        reveal_strlit("event");
                        reveal_strlit("offset");
                        assert("event"@.len() == 5);
                        assert("offset"@.len() == 6);
                    }
                    if str_eq(key.as_str(), "event") {
                        if event.is_some() {
                            return Err(duplicate_attribute("event"));
                        }
                        event = Some(match TrackingEvent::from_str(value.as_str()) {
                            Ok(v) => v,
                            Err(e) => return Err(scalar_error(e)),
                        });
                    } else if str_eq(key.as_str(), "offset") {
                        if offset.is_some() {
                            return Err(duplicate_attribute("offset"));
                        }
                        offset = Some(match Offset::from_str(value.as_str()) {
                            Ok(v) => v,
                            Err(e) => return Err(scalar_error(e)),
                        });
                    } else {
                        return Err(unknown_field("Tracking", key));
                    }
                },
            }
        }
        let ghost e = p as int;
        let (text, q) = read_text(t, p, "Tracking")?;
        p = q;
        let event = match event {
            Some(v) => v,
            None => return Err(missing_field("Tracking", "event")),
        };
        assert(t.start_tag(start - 1, e, "Tracking"@));
        assert(t.till_start(pos as int, "Tracking"@) == Some(start as int));
        assert forall|i: int| start - 1 < i < e implies Self::knows(#[trigger] t.key(i)) by {
            assert(t.kind(i) == TokenKind::Attribute);
        }
        assert forall|i: int| start <= i < e implies #[trigger] t.attr_readable(i) && Self::knows(t.key(i)) by {
            assert(t.kind(i) == TokenKind::Attribute);
        }
        let v = Tracking { event, offset, uri: text };
        assert(v.attrs_read(t, start - 1, e));
        Ok((v, p))
    }

    fn write(&self, out: &mut String) {
        write_start(out, "Tracking");
        let ghost mut head = start_tag("Tracking"@);
        write_attribute(out, "event", self.event.keyword_str());
        proof {
            let piece = attribute("event"@, self.event.keyword());
            lemma_append(old(out)@, head, piece);
            head = head + piece;
        }
        match &self.offset {
            Some(v) => write_attribute(out, "offset", v.to_string().as_str()),
            None => {},
        }
        proof {
            let piece = opt_attribute(
            "offset"@,
            match self.offset {
                Some(v) => Some(v.text()),
                None => None,
            },
        );
            lemma_append(old(out)@, head, piece);
            head = head + piece;
        }
        let ghost mid = out@;
        let ghost mut body = seq!['>'];
        write_open_end(out);
        write_text(out, self.uri.as_str(), true);
        proof {
            let piece = cdata(self.uri@);
            lemma_append(mid, body, piece);
            body = body + piece;
        }
        write_end(out, "Tracking");
        proof {
            lemma_append(mid, body, end_tag("Tracking"@));
            lemma_append(old(out)@, head, body + end_tag("Tracking"@));
        }
    }
}

} // verus!
