//! A typed model of IAB VAST 4.2 documents, with a verified codec between the
//! model and XML text.

pub mod text;
pub mod error;
pub mod duration;
pub mod xml;
pub mod reader;
pub mod writer;
pub mod capture;
pub mod codec;

pub mod vast;
pub mod ad;
pub mod in_line;
pub mod viewable;
pub mod creative;
pub mod linear;
pub mod media_file;
pub mod click;
pub mod icon;
pub mod non_linear;
pub mod companion_ad;
pub mod tracking;
pub mod creative_resource;
pub mod verification;
pub mod extension;
pub mod wrapper;

pub use codec::{XmlElement, from_str, to_string};
pub use error::VastParseError;
pub use xml::DecodeError;
pub use duration::Duration;
pub use vast::Vast;
pub use ad::{Ad, AdPayload, AdType};
pub use in_line::{InLine, AdSystem, Impression, Category, Pricing, PriceModel, Survey};
pub use viewable::ViewableImpression;
pub use creative::{Creatives, Creative, CreativeKind, UniversalAdId, CreativeExtensions, CreativeExtension};
pub use linear::{Linear, AdParameters};
pub use media_file::{
    MediaFiles, MediaFile, DeliveryProtocol, Mezzanine, InteractiveCreativeFile, ClosedCaptionFiles,
    ClosedCaptionFile,
};
pub use click::{VideoClicks, ClickThrough, ClickTracking, CustomClick};
pub use icon::{
    Icons, Icon, XPosition, YPosition, IconClicks, IconClickTracking, IconClickFallbackImages,
    IconClickFallbackImage,
};
pub use non_linear::{NonLinearAds, NonLinear, NonLinearClickTracking};
pub use companion_ad::{CompanionAds, CompanionRequirement, Companion, RenderingMode, CompanionClickTracking};
pub use tracking::{TrackingEvents, Tracking, TrackingEvent, Offset};
pub use creative_resource::StaticResource;
pub use verification::{
    AdVerifications, Verification, JavaScriptResource, ExecutableResource,
    VerificationTrackingEvents, VerificationTracking,
};
pub use extension::{Extensions, Extension};
pub use wrapper::{Wrapper, BlockedAdCategories};
