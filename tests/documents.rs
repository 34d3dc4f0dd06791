use vast4::{
    from_str, to_string, Ad, AdPayload, IconClicks, CreativeKind, Icons, VideoClicks, AdSystem, Creative, Creatives, DecodeError, DeliveryProtocol, Duration, Impression, InLine, Linear, MediaFile, MediaFiles, Offset, Tracking,
    TrackingEvent, TrackingEvents, UniversalAdId, Vast, ViewableImpression, Wrapper,
};

fn inline_linear() -> String {
    [
    r#"<VAST version="4.2"><Ad id="20001" sequence="1"><InLine>"#,
    r#"<AdSystem version="4.0">iabtechlab</AdSystem>"#,
    r#"<Impression id="Impression-ID"><![CDATA[https://example.com/track/impression]]></Impression>"#,
    r#"<Creatives><Creative sequence="1" id="5480" adId="2447226"><Linear>"#,
    r#"<TrackingEvents>"#,
    r#"<Tracking event="start"><![CDATA[https://example.com/tracking/start]]></Tracking>"#,
    r#"<Tracking event="firstQuartile"><![CDATA[https://example.com/tracking/firstQuartile]]></Tracking>"#,
    r#"<Tracking event="midpoint"><![CDATA[https://example.com/tracking/midpoint]]></Tracking>"#,
    r#"<Tracking event="thirdQuartile"><![CDATA[https://example.com/tracking/thirdQuartile]]></Tracking>"#,
    r#"<Tracking event="complete"><![CDATA[https://example.com/tracking/complete]]></Tracking>"#,
    r#"<Tracking event="progress" offset="00:00:10"><![CDATA[https://example.com/tracking/progress-10]]></Tracking>"#,
    r#"</TrackingEvents>"#,
    r#"<Duration>00:00:16</Duration>"#,
    r#"<MediaFiles>"#,
    r#"<MediaFile id="5241" delivery="progressive" type="video/mp4" width="1280" height="720" codec="H.264" bitrate="2000" minBitrate="1500" maxBitrate="2500" scalable="true" maintainAspectRatio="true"><![CDATA[https://example.com/a.mp4]]></MediaFile>"#,
    r#"<MediaFile id="5244" delivery="progressive" type="video/mp4" width="854" height="480" codec="H.264" bitrate="1000"><![CDATA[https://example.com/b.mp4]]></MediaFile>"#,
    r#"<MediaFile id="5246" delivery="streaming" type="audio/mp4" width="0" height="0"><![CDATA[https://example.com/c.m4a]]></MediaFile>"#,
    r#"</MediaFiles>"#,
    r#"</Linear><UniversalAdId idRegistry="Ad-ID">8465</UniversalAdId></Creative></Creatives>"#,
    r#"<AdServingId>a532d16d-4d7f-4440-bd29-2ec0e693fc89</AdServingId><AdTitle>iabtechlab video ad</AdTitle>"#,
    r#"</InLine></Ad></VAST>"#,
    ]
    .concat()
}

fn wrapper() -> String {
    [
    r#"<VAST version="4.2"><Ad id="20010" sequence="1"><Wrapper followAdditionalWrappers="false" allowMultipleAds="true" fallbackOnNoAd="false">"#,
    r#"<AdSystem version="4.0">iabtechlab</AdSystem>"#,
    r#"<Impression id="Impression-ID"><![CDATA[https://example.com/track/impression]]></Impression>"#,
    r#"<ViewableImpression id="1543"><Viewable><![CDATA[https://example.com/v]]></Viewable><NotViewable><![CDATA[https://example.com/nv]]></NotViewable><ViewUndetermined><![CDATA[https://example.com/vu]]></ViewUndetermined></ViewableImpression>"#,
    r#"<Creatives><Creative sequence="1" id="5480" adId="2447226"><Linear><TrackingEvents>"#,
    r#"<Tracking event="start"><![CDATA[http://example.com/tracking/start]]></Tracking>"#,
    r#"<Tracking event="progress" offset="20%"><![CDATA[http://example.com/tracking/progress-20]]></Tracking>"#,
    r#"</TrackingEvents></Linear></Creative></Creatives>"#,
    r#"<Error><![CDATA[https://example.com/error]]></Error>"#,
    r#"<VASTAdTagURI>https://example.com/next.xml</VASTAdTagURI>"#,
    r#"</Wrapper></Ad></VAST>"#,
    ]
    .concat()
}

#[test]
fn inline_linear_document_decodes() {
    let vast = from_str::<Vast>(&inline_linear()).unwrap();
    assert_eq!(vast.version, "4.2");
    let in_line = vast.ads[0].in_line.as_ref().unwrap();
    assert_eq!(in_line.impressions.len(), 1);
    let linear = in_line.creatives.creatives[0].linear.as_ref().unwrap();
    assert_eq!(linear.media_files.as_ref().unwrap().media_files.len(), 3);
    let events: Vec<TrackingEvent> = linear.tracking_events.as_ref().unwrap().trackings.iter().map(|t| t.event).collect();
    assert_eq!(
        events,
        vec![
            TrackingEvent::Start,
            TrackingEvent::FirstQuartile,
            TrackingEvent::MidPoint,
            TrackingEvent::ThirdQuartile,
            TrackingEvent::Complete,
            TrackingEvent::Progress
        ]
    );
    assert_eq!(linear.duration, Some(Duration::new(0, 0, 16, 0)));
    assert_eq!(linear.media_files.as_ref().unwrap().media_files[2].delivery, DeliveryProtocol::Streaming);
    assert_eq!(to_string(&vast).unwrap(), inline_linear());
}

#[test]
fn documents_are_stable_under_a_second_cycle() {
    for doc in [inline_linear(), wrapper()] {
        let once = from_str::<Vast>(&doc).unwrap();
        let text = to_string(&once).unwrap();
        assert_eq!(text, doc);
        assert_eq!(from_str::<Vast>(&text).unwrap(), once);
    }
}

#[test]
fn wrapper_document_decodes() {
    let vast = from_str::<Vast>(&wrapper()).unwrap();
    let expected = Vast {
        version: "4.2".into(),
        ads: vec![Ad {
            id: Some("20010".into()),
            sequence: Some(1),
            wrapper: Some(Wrapper {
                follow_additional_wrappers: Some(false),
                allow_multiple_ads: Some(true),
                fallback_on_no_ad: Some(false),
                ad_system: AdSystem { version: Some("4.0".into()), name: "iabtechlab".into() },
                errors: vec!["https://example.com/error".into()],
                impressions: vec![Impression { id: Some("Impression-ID".into()), uri: "https://example.com/track/impression".into() }],
                viewable_impression: Some(ViewableImpression {
                    id: Some("1543".into()),
                    viewables: vec!["https://example.com/v".into()],
                    not_viewables: vec!["https://example.com/nv".into()],
                    view_undetermineds: vec!["https://example.com/vu".into()],
                }),
                creatives: Some(Creatives {
                    creatives: vec![Creative {
                        id: Some("5480".into()),
                        ad_id: Some("2447226".into()),
                        sequence: Some(1),
                        linear: Some(Linear {
                            tracking_events: Some(TrackingEvents {
                                trackings: vec![
                                    Tracking { event: TrackingEvent::Start, offset: None, uri: "http://example.com/tracking/start".into() },
                                    Tracking {
                                        event: TrackingEvent::Progress,
                                        offset: Some(Offset::Percentage(20)),
                                        uri: "http://example.com/tracking/progress-20".into(),
                                    },
                                ],
                            }),
                            ..Default::default()
                        }),
                        ..Default::default()
                    }],
                }),
                vast_ad_tag_uri: "https://example.com/next.xml".into(),
                ..Default::default()
            }),
            ..Default::default()
        }],
        ..Default::default()
    };
    assert_eq!(vast, expected);
}

#[test]
fn test_vast_errors() {
    let xml = r#"<VAST version="4.2"><Error><![CDATA[hoge]]></Error><Error><![CDATA[fuga]]></Error></VAST>"#;
    let obj = Vast { version: "4.2".into(), errors: vec!["hoge".into(), "fuga".into()], ..Default::default() };
    assert_eq!(from_str::<Vast>(xml).unwrap(), obj);
    assert_eq!(to_string(&obj).unwrap(), xml);
}

#[test]
fn test_tracking_events() {
    let xml = "<TrackingEvents>\
        <Tracking event=\"mute\"><![CDATA[https://hoge.com/fuga?mute]]></Tracking>\
        <Tracking event=\"progress\" offset=\"00:00:10\"><![CDATA[https://hoge.com/fuga?offset=10]]></Tracking>\
        <Tracking event=\"progress\" offset=\"20%\"><![CDATA[https://hoge.com/fuga?offset=20-per]]></Tracking>\
    </TrackingEvents>";
    let obj = TrackingEvents {
        trackings: vec![
            Tracking { event: TrackingEvent::Mute, uri: "https://hoge.com/fuga?mute".into(), offset: None },
            Tracking {
                event: TrackingEvent::Progress,
                offset: Some(Offset::Duration(Duration::new(0, 0, 10, 0))),
                uri: "https://hoge.com/fuga?offset=10".into(),
            },
            Tracking { event: TrackingEvent::Progress, offset: Some(Offset::Percentage(20)), uri: "https://hoge.com/fuga?offset=20-per".into() },
        ],
    };
    assert_eq!(from_str::<TrackingEvents>(xml).unwrap(), obj);
    assert_eq!(to_string(&obj).unwrap(), xml);
}

#[test]
fn test_duration() {
    let xml = "<Duration>11:11:11.111</Duration>";
    assert_eq!(from_str::<Duration>(xml).unwrap(), Duration::new(11, 11, 11, 111));
    assert_eq!(to_string(&Duration::new(11, 11, 11, 111)).unwrap(), xml);
}

#[test]
fn zero_duration_child_is_left_out() {
    let linear = Linear { duration: Some(Duration::new(0, 0, 0, 0)), ..Default::default() };
    assert_eq!(to_string(&linear).unwrap(), "<Linear></Linear>");
    assert_eq!(to_string(&Linear::default()).unwrap(), "<Linear/>");
    assert_eq!(Duration::new(0, 0, 0, 0).to_string(), "00:00:00");
}

#[test]
fn strict_elements_reject_unknown_attributes_and_children() {
    assert!(matches!(from_str::<Ad>(r#"<Ad foo="1"/>"#), Err(DecodeError::UnknownField { .. })));
    assert!(matches!(from_str::<Ad>(r#"<Ad><Foo/></Ad>"#), Err(DecodeError::UnknownField { .. })));
    assert!(matches!(from_str::<Vast>(r#"<VAST version="4.2" foo="1"/>"#), Err(DecodeError::UnknownField { .. })));
    let vast = from_str::<Vast>(r#"<VAST version="4.2"><Foo a="b"><Bar/></Foo><Error>e</Error></VAST>"#).unwrap();
    assert_eq!(vast.errors, vec!["e".to_string()]);
}

#[test]
fn missing_and_duplicate_fields_are_errors() {
    match from_str::<Vast>("<VAST/>") {
        Err(DecodeError::MissingField { name, field }) => {
            assert_eq!(name, "Vast");
            assert_eq!(field, "version");
        }
        other => panic!("unexpected: {other:?}"),
    }
    assert!(matches!(from_str::<InLine>("<InLine></InLine>"), Err(DecodeError::MissingField { .. })));
    assert!(matches!(from_str::<Ad>(r#"<Ad id="1" id="2"/>"#), Err(DecodeError::DuplicateAttribute { .. })));
    assert!(matches!(
        from_str::<IconClicks>("<IconClicks><IconClickThrough>a</IconClickThrough><IconClickThrough>b</IconClickThrough></IconClicks>"),
        Err(DecodeError::DuplicateElement { .. })
    ));
}

#[test]
fn scalar_errors_surface_from_attributes() {
    assert!(matches!(from_str::<Ad>(r#"<Ad sequence="x"/>"#), Err(DecodeError::FromStr(_))));
    assert!(matches!(from_str::<MediaFile>(r#"<MediaFile delivery="pigeon" type="v" width="1" height="1">u</MediaFile>"#), Err(DecodeError::FromStr(_))));
    assert!(matches!(from_str::<Ad>("<Ad></Wrapper>"), Err(DecodeError::TagMismatch { .. })));
    assert!(matches!(from_str::<Ad>("<Ad>"), Err(DecodeError::UnexpectedEof)));
    assert!(from_str::<Ad>("<Ad").is_err());
    assert!(matches!(from_str::<Ad>("<Ad>&lt"), Err(DecodeError::Parser(_)) | Err(DecodeError::UnexpectedEof)));
}

#[test]
fn text_values_are_escaped_and_unescaped() {
    let sys = AdSystem { version: None, name: "a<b & \"c\"".into() };
    let text = to_string(&sys).unwrap();
    assert_eq!(text, "<AdSystem>a&lt;b &amp; &quot;c&quot;</AdSystem>");
    assert_eq!(from_str::<AdSystem>(&text).unwrap(), sys);
    assert!(matches!(from_str::<AdSystem>("<AdSystem>&bogus;</AdSystem>"), Err(DecodeError::Entity { .. })));
}

#[test]
fn universal_ad_id_registry_defaults_to_unknown() {
    let id = from_str::<UniversalAdId>("<UniversalAdId>8465</UniversalAdId>").unwrap();
    assert_eq!(id.id_registry, "unknown");
    assert_eq!(id.id, "8465");
}

#[test]
fn booleans_take_the_short_words() {
    let m = from_str::<MediaFile>(r#"<MediaFile delivery="progressive" type="v" width="1" height="2" scalable="yes" maintainAspectRatio="0">u</MediaFile>"#).unwrap();
    assert_eq!(m.scalable, Some(true));
    assert_eq!(m.maintain_aspect_ratio, Some(false));
    assert_eq!(to_string(&m).unwrap(), r#"<MediaFile delivery="progressive" type="v" width="1" height="2" scalable="true" maintainAspectRatio="false"><![CDATA[u]]></MediaFile>"#);
    let _ = MediaFiles::default();
    let _ = InLine::default();
}

#[test]
fn one_or_more_children_are_required() {
    assert!(matches!(from_str::<Creatives>("<Creatives></Creatives>"), Err(DecodeError::MissingField { .. })));
    assert!(matches!(from_str::<MediaFiles>("<MediaFiles/>"), Err(DecodeError::MissingField { .. })));
    assert!(matches!(from_str::<Icons>("<Icons></Icons>"), Err(DecodeError::MissingField { .. })));
    assert!(matches!(from_str::<VideoClicks>("<VideoClicks/>"), Err(DecodeError::MissingField { .. })));
}

#[test]
fn payload_views() {
    let vast = from_str::<Vast>(&inline_linear()).unwrap();
    assert!(matches!(vast.ads[0].payload(), Some(AdPayload::InLine(_))));
    let creative = &vast.ads[0].in_line.as_ref().unwrap().creatives.creatives[0];
    assert!(matches!(creative.kind(), Some(CreativeKind::Linear(_))));
    let wrapped = from_str::<Vast>(&wrapper()).unwrap();
    assert!(matches!(wrapped.ads[0].payload(), Some(AdPayload::Wrapper(_))));
    assert!(matches!(Ad::default().payload(), Some(AdPayload::Empty)));
    let both = Ad { in_line: Some(InLine::default()), wrapper: Some(Wrapper::default()), ..Default::default() };
    assert!(both.payload().is_none());
}

fn rich_inline() -> String {
    [
        r#"<VAST version="4.2"><Ad id="1" sequence="2" conditionalAd="false" adType="video"><InLine>"#,
        r#"<AdSystem version="1">sys</AdSystem>"#,
        r#"<Extensions><Extension type="iab-Count"><total_available><![CDATA[2]]></total_available></Extension></Extensions>"#,
        r#"<Impression id="i"><![CDATA[https://example.com/imp]]></Impression>"#,
        r#"<Pricing model="cpm" currency="USD">25.00</Pricing>"#,
        r#"<ViewableImpression id="v"><Viewable><![CDATA[https://example.com/v]]></Viewable></ViewableImpression>"#,
        r#"<AdVerifications><Verification vendor="company.com-omid">"#,
        r#"<ExecutableResource apiFramework="omid" type="native"><![CDATA[https://example.com/x]]></ExecutableResource>"#,
        r#"<JavaScriptResource apiFramework="omid" browserOptional="true"><![CDATA[https://example.com/omid.js]]></JavaScriptResource>"#,
        r#"<TrackingEvents><Tracking event="verificationNotExecuted"><![CDATA[https://example.com/vne]]></Tracking></TrackingEvents>"#,
        r#"<VerificationParameters><![CDATA[{"k":1}]]></VerificationParameters>"#,
        r#"</Verification></AdVerifications>"#,
        r#"<Category authority="https://example.com/cat">IAB1</Category>"#,
        r#"<Creatives><Creative sequence="1" apiFramework="VPAID" id="c1" adId="a1">"#,
        r#"<CompanionAds required="any"><Companion id="co" width="300" height="250" assetWidth="300" pxratio="1.5" renderingMode="end-card">"#,
        r#"<StaticResource creativeType="image/png"><![CDATA[https://example.com/c.png]]></StaticResource>"#,
        r#"<AdParameters xmlEncoded="false">p=1</AdParameters>"#,
        r#"<CompanionClickTracking id="ct"><![CDATA[https://example.com/cct]]></CompanionClickTracking>"#,
        r#"<CreativeExtensions><CreativeExtension type="text/javascript"><Ext a="1"/></CreativeExtension></CreativeExtensions>"#,
        r#"<TrackingEvents><Tracking event="creativeView"><![CDATA[https://example.com/cv]]></Tracking></TrackingEvents>"#,
        r#"<HTMLResource><![CDATA[<p>hi</p>]]></HTMLResource><AltText>alt &amp; text</AltText>"#,
        r#"<CompanionClickThrough><![CDATA[https://example.com/cc]]></CompanionClickThrough>"#,
        r#"</Companion></CompanionAds>"#,
        r#"<Linear skipoffset="00:00:05">"#,
        r#"<Icons><Icon program="AdChoices" width="20" height="20" xPosition="right" yPosition="-5" duration="00:00:10" offset="00:00:01.500" pxratio="2">"#,
        r#"<StaticResource creativeType="image/png"><![CDATA[https://example.com/i.png]]></StaticResource>"#,
        r#"<IconClicks><IconClickFallbackImages><IconClickFallbackImage height="10" width="10"><AltText>fb</AltText><StaticResource><![CDATA[https://example.com/fb.png]]></StaticResource></IconClickFallbackImage></IconClickFallbackImages>"#,
        r#"<IconClickTracking id="t"><![CDATA[https://example.com/ict]]></IconClickTracking><IconClickThrough><![CDATA[https://example.com/ic]]></IconClickThrough></IconClicks>"#,
        r#"<IconViewTracking><![CDATA[https://example.com/ivt]]></IconViewTracking>"#,
        r#"</Icon></Icons>"#,
        r#"<TrackingEvents><Tracking event="progress" offset="25%"><![CDATA[https://example.com/p]]></Tracking></TrackingEvents>"#,
        r#"<Duration>00:00:30.250</Duration>"#,
        r#"<MediaFiles><ClosedCaptionFiles><ClosedCaptionFile type="text/vtt" language="en"><![CDATA[https://example.com/cc.vtt]]></ClosedCaptionFile></ClosedCaptionFiles>"#,
        r#"<MediaFile delivery="progressive" type="video/mp4" width="640" height="360" fileSize="1000" mediaType="2D"><![CDATA[https://example.com/m.mp4]]></MediaFile>"#,
        r#"<Mezzanine delivery="progressive" type="video/mp4" width="1920" height="1080"><![CDATA[https://example.com/mz.mp4]]></Mezzanine>"#,
        r#"<InteractiveCreativeFile type="text/html" apiFramework="SIMID" variableDuration="true"><![CDATA[https://example.com/simid]]></InteractiveCreativeFile>"#,
        r#"</MediaFiles>"#,
        r#"<VideoClicks><ClickTracking id="k"><![CDATA[https://example.com/ck]]></ClickTracking><ClickThrough id="t"><![CDATA[https://example.com/go]]></ClickThrough><CustomClick id="cu"><![CDATA[https://example.com/cu]]></CustomClick></VideoClicks>"#,
        r#"</Linear>"#,
        r#"<NonLinearAds><NonLinear id="n" width="300" height="50" minSuggestedDuration="00:00:15">"#,
        r#"<StaticResource creativeType="image/png"><![CDATA[https://example.com/n.png]]></StaticResource>"#,
        r#"<NonLinearClickTracking id="nt"><![CDATA[https://example.com/nct]]></NonLinearClickTracking>"#,
        r#"<IFrameResource><![CDATA[https://example.com/frame]]></IFrameResource>"#,
        r#"<NonLinearClickThrough><![CDATA[https://example.com/nc]]></NonLinearClickThrough>"#,
        r#"</NonLinear></NonLinearAds>"#,
        r#"<UniversalAdId idRegistry="Ad-ID">8465</UniversalAdId>"#,
        r#"</Creative></Creatives>"#,
        r#"<Survey type="text/javascript"><![CDATA[https://example.com/s]]></Survey>"#,
        r#"<Error><![CDATA[https://example.com/err]]></Error>"#,
        r#"<AdServingId>sid</AdServingId><AdTitle>title</AdTitle><Advertiser>adv</Advertiser><Description>desc</Description><Expires>3600</Expires>"#,
        r#"</InLine></Ad></VAST>"#,
    ]
    .concat()
}

#[test]
fn rich_document_round_trips() {
    let doc = rich_inline();
    let vast = from_str::<Vast>(&doc).unwrap();
    assert_eq!(to_string(&vast).unwrap(), doc);
    let in_line = vast.ads[0].in_line.as_ref().unwrap();
    assert_eq!(in_line.pricing.as_ref().unwrap().price, "25.00");
    assert_eq!(in_line.expires, Some(3600));
    let creative = &in_line.creatives.creatives[0];
    assert!(creative.kind().is_none());
    let companion = &creative.companion_ads.as_ref().unwrap().companions[0];
    assert_eq!(companion.alt_text.as_deref(), Some("alt & text"));
    assert_eq!(companion.html_resources, vec!["<p>hi</p>".to_string()]);
    let icon = &creative.linear.as_ref().unwrap().icons.as_ref().unwrap().icons[0];
    assert_eq!(icon.x_position, Some(vast4::XPosition::Right));
    assert_eq!(icon.y_position, Some(vast4::YPosition::Coordinate(-5)));
    assert_eq!(icon.offset, Some(Duration::new(0, 0, 1, 500)));
    assert_eq!(creative.linear.as_ref().unwrap().duration, Some(Duration::new(0, 0, 30, 250)));
    assert_eq!(from_str::<Vast>(&to_string(&vast).unwrap()).unwrap(), vast);
}
