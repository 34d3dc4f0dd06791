use vast4::{from_str, to_string, AdSystem, CreativeExtension, DecodeError, Extension, Extensions};

#[test]
fn test_extension_attribute() {
    let xml = r#"<Extension type="application/xml" anyAttribute1="value1">
             <CreativeExtension type="text/javascript">
                 <![CDATA[
                     <Ext>
                         <Some id="hoge">fuga</Some>
                     </Ext>
                 ]]>
             </CreativeExtension>
             <CreativeExtension type="text/javascript">
                 <Ext>
                    <Some id="hoge">fuga</Some>
                 </Ext>
                 <Extension>hoge</Extension>
             </CreativeExtension>
         </Extension>"#;
    assert!(from_str::<Extension>(xml).is_err());
}

#[test]
fn extension_unknown_attribute_is_named() {
    match from_str::<Extension>(r#"<Extension anyAttribute1="value1">x</Extension>"#) {
        Err(DecodeError::UnknownField { name, field }) => {
            assert_eq!(name, "Extension");
            assert_eq!(field, "anyAttribute1");
        }
        other => panic!("unexpected: {other:?}"),
    }
}

#[test]
fn test_extension() {
    let xml = r#"<Extension>
             <CreativeExtension type="text/javascript">
                 <![CDATA[
                     <Ext>
                         <Some id="hoge">fuga</Some>
                     </Ext>
                 ]]>
             </CreativeExtension>
             <CreativeExtension type="text/javascript">
                 <Ext>
                    <Some id="hoge">fuga</Some>
                 </Ext>
                 <Extension>hoge</Extension>
             </CreativeExtension>
         </Extension>"#;
    let obj = Extension {
        mime_type: None,
        xml: r#"
             <CreativeExtension type="text/javascript">
                 <![CDATA[
                     <Ext>
                         <Some id="hoge">fuga</Some>
                     </Ext>
                 ]]>
             </CreativeExtension>
             <CreativeExtension type="text/javascript">
                 <Ext>
                    <Some id="hoge">fuga</Some>
                 </Ext>
                 <Extension>hoge</Extension>
             </CreativeExtension>
         "#
        .into(),
    };
    assert_eq!(from_str::<Extension>(xml).unwrap(), obj);
    assert_eq!(to_string(&obj).unwrap(), xml);
}

#[test]
fn test_creative_extension() {
    let xml = r#"<CreativeExtension type="text/javascript">
         <Ext>
           <Some id="hoge">fuga</Some>
           <Text><![CDATA[some cdata text]]></Text>
         </Ext>
       </CreativeExtension>"#;
    let obj = CreativeExtension {
        mime_type: Some("text/javascript".to_owned()),
        xml: r#"
         <Ext>
           <Some id="hoge">fuga</Some>
           <Text><![CDATA[some cdata text]]></Text>
         </Ext>
       "#
        .into(),
    };
    assert_eq!(from_str::<CreativeExtension>(xml).unwrap(), obj);
    assert_eq!(to_string(&obj).unwrap(), xml);
}

#[test]
fn creative_extension_refuses_other_attributes() {
    let xml = r#"<CreativeExtension type="text/javascript" attr="value1">
         <Ext>
           <Some id="hoge">fuga</Some>
         </Ext>
       </CreativeExtension>"#;
    match from_str::<CreativeExtension>(xml) {
        Err(DecodeError::UnknownField { name, field }) => {
            assert_eq!(name, "CreativeExtension");
            assert_eq!(field, "attr");
        }
        other => panic!("unexpected: {other:?}"),
    }
}

#[test]
fn creative_extension_capture_is_verbatim() {
    let xml = r#"<CreativeExtension type="text/javascript"> <Ext><Some id="hoge">fuga</Some><Text><![CDATA[some cdata text]]></Text></Ext> </CreativeExtension>"#;
    let ext = from_str::<CreativeExtension>(xml).unwrap();
    assert_eq!(ext.mime_type.as_deref(), Some("text/javascript"));
    assert_eq!(ext.xml, r#" <Ext><Some id="hoge">fuga</Some><Text><![CDATA[some cdata text]]></Text></Ext> "#);
    assert_eq!(to_string(&ext).unwrap(), xml);
}

#[test]
fn capture_keeps_nested_same_name_comments_and_attributes() {
    let xml = "<Extension type=\"a&amp;b\"><!-- c --><Extension x='1'><Extension/></Extension><?pi x?>t</Extension>";
    let ext = from_str::<Extension>(xml).unwrap();
    assert_eq!(ext.mime_type.as_deref(), Some("a&b"));
    assert_eq!(ext.xml, "<!-- c --><Extension x='1'><Extension/></Extension><?pi x?>t");
    assert_eq!(to_string(&ext).unwrap(), xml);
}

#[test]
fn empty_extension_element_is_refused() {
    assert!(matches!(from_str::<Extension>("<Extension/>"), Err(DecodeError::UnexpectedToken { .. })));
}

#[test]
fn malformed_capture_reports_the_tokenizer() {
    assert!(matches!(from_str::<Extension>("<Extension><a></b"), Err(DecodeError::Parser(_))));
}

#[test]
fn extension_escape_hatch() {
    let sys = AdSystem { version: Some("1".into()), name: "iab<tech>".into() };
    let ext = Extension::from_struct("application/xml", &sys).unwrap();
    assert_eq!(ext.xml, r#"<AdSystem version="1">iab&lt;tech&gt;</AdSystem>"#);
    assert_eq!(ext.as_struct::<AdSystem>().unwrap(), sys);
    let all = Extensions { extensions: vec![ext.clone()] };
    assert_eq!(from_str::<Extensions>(&to_string(&all).unwrap()).unwrap(), all);
}
