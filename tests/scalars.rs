use vast4::{AdType, CompanionRequirement, DeliveryProtocol, Duration, Offset, PriceModel, RenderingMode, TrackingEvent, XPosition, YPosition};

#[test]
fn test_duration_parse_and_format() {
    let got = Duration::from_str("11:11:11.111").unwrap();
    assert_eq!(got, Duration::new(11, 11, 11, 111));
    assert_eq!(got.to_string(), "11:11:11.111");
    let got = Duration::from_str("12:34:56").unwrap();
    assert_eq!(got, Duration::new(12, 34, 56, 0));
    assert_eq!(got.to_string(), "12:34:56");
    assert!(Duration::from_str("").is_err());
    assert!(Duration::from_str("12:34:56:78").is_err());
}

#[test]
fn duration_new_normalizes_fields() {
    let d = Duration::new(1, 2, 3, 1500);
    assert_eq!(d.as_secs(), 3600 + 120 + 3 + 1);
    assert_eq!(d.subsec_millis(), 500);
    assert_eq!(d.to_string(), "01:02:04.500");
}

#[test]
fn duration_format_pads_and_grows() {
    assert_eq!(Duration::new(0, 0, 0, 0).to_string(), "00:00:00");
    assert_eq!(Duration::new(0, 0, 5, 7).to_string(), "00:00:05.007");
    assert_eq!(Duration::new(123, 0, 0, 0).to_string(), "123:00:00");
    assert_eq!(Duration::new(0, 61, 0, 0).to_string(), "01:01:00");
}

#[test]
fn duration_parse_trims_and_reads_fraction_as_millis() {
    assert_eq!(Duration::from_str("  00:01:02  ").unwrap(), Duration::new(0, 1, 2, 0));
    assert_eq!(Duration::from_str("00:00:01.5").unwrap(), Duration::new(0, 0, 1, 5));
    assert_eq!(Duration::from_str("+1:2:3").unwrap(), Duration::new(1, 2, 3, 0));
}

#[test]
fn duration_parse_rejects_malformed() {
    for s in ["12:34", "a:b:c", "12:34:56.", "12:34:56.x", "-1:00:00", "12:34:56.1.2", "::"] {
        let e = Duration::from_str(s).unwrap_err();
        assert_eq!(e.input, format!("duration parse error: '{s}'"));
    }
    assert_eq!(Duration::from_str("1:2").unwrap_err().to_string(), "VAST parse error: duration parse error: '1:2'");
}

#[test]
fn duration_parse_rejects_overflow() {
    assert!(Duration::from_str("18446744073709551615:00:00").is_err());
    assert!(Duration::from_str("00:00:00.4294").is_err());
    assert!(Duration::from_str("00:00:01.1234").is_err());
    assert!(Duration::from_str("00:00:01.+12").is_err());
    assert_eq!(Duration::from_str("00:00:01.999").unwrap(), Duration::new(0, 0, 1, 999));
}

#[test]
fn duration_round_trips_through_text() {
    for d in [Duration::new(0, 0, 0, 0), Duration::new(99, 59, 59, 999), Duration::new(0, 0, 10, 0), Duration::new(250, 3, 4, 1)] {
        assert_eq!(Duration::from_str(&d.to_string()).unwrap(), d);
    }
}

#[test]
fn price_model_ignores_case() {
    assert_eq!(PriceModel::from_str("CPM").unwrap(), PriceModel::Cpm);
    assert_eq!(PriceModel::from_str("cpm").unwrap(), PriceModel::Cpm);
    assert_eq!(PriceModel::from_str("CPM").unwrap(), PriceModel::from_str("cpm").unwrap());
    assert_eq!(PriceModel::from_str("Cpv").unwrap(), PriceModel::Cpv);
    assert_eq!(PriceModel::Cpm.to_string(), "cpm");
    assert_eq!(PriceModel::from_str("CPC").unwrap().to_string(), "cpc");
    assert_eq!(PriceModel::from_str("cpx").unwrap_err().input, "price model parsing error: 'cpx'");
}

#[test]
fn closed_enums_round_trip_and_reject() {
    for v in [AdType::Video, AdType::Audio, AdType::Hybrid] {
        assert_eq!(AdType::from_str(&v.to_string()).unwrap(), v);
    }
    assert_eq!(AdType::from_str("Video").unwrap_err().input, "ad type parsing error: 'Video'");
    assert_eq!(DeliveryProtocol::from_str("streaming").unwrap(), DeliveryProtocol::Streaming);
    assert!(DeliveryProtocol::from_str("stream").is_err());
    assert_eq!(CompanionRequirement::from_str("none").unwrap(), CompanionRequirement::NoneRequired);
    assert_eq!(CompanionRequirement::All.to_string(), "all");
    assert_eq!(RenderingMode::from_str("end-card").unwrap(), RenderingMode::EndCard);
    assert_eq!(RenderingMode::Concurrent.to_string(), "concurrent");
    assert_eq!(TrackingEvent::from_str("midpoint").unwrap(), TrackingEvent::MidPoint);
    assert_eq!(TrackingEvent::from_str("playerExpand").unwrap().to_string(), "playerExpand");
    assert_eq!(TrackingEvent::from_str("fullscreen").unwrap_err().input, "tracking event parsing error: 'fullscreen'");
}

#[test]
fn positions_keywords_then_coordinates() {
    assert_eq!(XPosition::from_str("left").unwrap(), XPosition::Left);
    assert_eq!(XPosition::from_str("right").unwrap(), XPosition::Right);
    assert_eq!(XPosition::from_str("-12").unwrap(), XPosition::Coordinate(-12));
    assert_eq!(XPosition::Coordinate(-12).to_string(), "-12");
    assert_eq!(YPosition::from_str("top").unwrap(), YPosition::Top);
    assert_eq!(YPosition::from_str("bottom").unwrap(), YPosition::Bottom);
    assert_eq!(YPosition::Bottom.to_string(), "bottom");
    assert_eq!(YPosition::from_str("2147483647").unwrap(), YPosition::Coordinate(2147483647));
    assert!(YPosition::from_str("2147483648").is_err());
    assert_eq!(XPosition::from_str("middle").unwrap_err().input, "x position parsing error: 'middle'");
}

#[test]
fn offset_percentage_or_duration() {
    assert_eq!(Offset::from_str("20%").unwrap(), Offset::Percentage(20));
    assert_eq!(Offset::from_str("00:00:10").unwrap(), Offset::Duration(Duration::new(0, 0, 10, 0)));
    assert_eq!(Offset::Percentage(20).to_string(), "20%");
    assert_eq!(Offset::Duration(Duration::new(0, 0, 10, 0)).to_string(), "00:00:10");
    assert_eq!(Offset::from_str(&Offset::Percentage(-5).to_string()).unwrap(), Offset::Percentage(-5));
    assert_eq!(Offset::from_str("x%").unwrap_err().input, "offset value parsing error: 'x%'");
    assert_eq!(Offset::from_str("10%%").unwrap_err().input, "duration parse error: '10%%'");
}
