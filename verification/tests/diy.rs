use wbmaker::diy::{
    background_generation, crest_icon_source, footnote, has_signature, illustrator_label,
    panel_plan, parse_usize, title_name, CrestIcon, PanelPart,
};

#[test]
fn usize_parsing_matches_std() {
    let cases = [
        "", "+", "-", "0", "7", "+7", "-7", "12", "007", " 1", "1 ", "1a", "++1", "+-1", "１",
        "18446744073709551615", "18446744073709551616", "99999999999999999999", "4294967295",
        "4294967296",
    ];
    for s in cases {
        assert_eq!(parse_usize(s), s.parse::<usize>().ok(), "{s:?}");
    }
}

#[test]
fn crest_icons() {
    assert!(matches!(crest_icon_source("upload", true), CrestIcon::Upload));
    assert!(matches!(crest_icon_source("upload", false), CrestIcon::Absent));
    match crest_icon_source("builtin:3", false) {
        CrestIcon::Builtin(p) => assert_eq!(p, "diy/crests/cost_3.png"),
        _ => panic!("expected builtin"),
    }
    match crest_icon_source("builtin:+12", true) {
        CrestIcon::Builtin(p) => assert_eq!(p, "diy/crests/89825586aad57905eec3bc02e2ec141f.png"),
        _ => panic!("expected builtin"),
    }
    assert!(matches!(crest_icon_source("builtin:13", true), CrestIcon::Absent));
    assert!(matches!(crest_icon_source("builtin:", true), CrestIcon::Absent));
    assert!(matches!(crest_icon_source("builtin:x", true), CrestIcon::Absent));
    assert!(matches!(crest_icon_source("Builtin:1", true), CrestIcon::Absent));
    assert!(matches!(crest_icon_source("", true), CrestIcon::Absent));
    assert!(matches!(crest_icon_source("cost_1", true), CrestIcon::Absent));
}

#[test]
fn panel_order() {
    assert_eq!(panel_plan(true, false, false, false, 0, false), vec![PanelPart::Detail1]);
    assert_eq!(
        panel_plan(true, true, true, true, 2, true),
        vec![PanelPart::Detail1, PanelPart::Split, PanelPart::Detail2, PanelPart::Split, PanelPart::Evolve, PanelPart::SuperEvolve, PanelPart::Crest(0), PanelPart::Crest(1)]
    );
    assert_eq!(
        panel_plan(false, false, true, false, 0, true),
        vec![PanelPart::Detail1, PanelPart::Evolve, PanelPart::LegacyCrest]
    );
    assert_eq!(panel_plan(true, false, false, true, 0, false), vec![PanelPart::Detail1, PanelPart::Split, PanelPart::SuperEvolve]);
}

#[test]
fn signature_and_footnote() {
    assert!(has_signature(true, "某人"));
    assert!(!has_signature(true, " \t "));
    assert!(!has_signature(false, "某人"));
    assert_eq!(illustrator_label(""), "画师:");
    assert_eq!(illustrator_label("画师："), "画师：");
    assert_eq!(footnote(true, "DIY：某人").as_deref(), Some("※DIY：某人"));
    assert_eq!(footnote(true, ""), None);
    assert_eq!(footnote(false, "x"), None);
}

#[test]
fn title_and_background() {
    assert_eq!(title_name(" 测试 随从 "), "测试随从");
    assert_eq!(title_name("a\tb"), "a\tb");
    assert_eq!(background_generation(1), 1);
    assert_eq!(background_generation(2), 2);
    assert_eq!(background_generation(0), 2);
}
