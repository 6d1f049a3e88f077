use wbmaker::assets::{
    crest_border_key, diy_background_bytes, diy_class_name, diy_crest_bytes, diy_effect_bytes,
    diy_title_class_bytes, frame_bytes, icon_bytes, list_frames, CREST_BORDERS, CREST_BUILTIN,
    DIY_CLASSES, EFFECT_KEYS, FRAME_KEYS,
};

#[test]
fn class_mapping() {
    assert_eq!(DIY_CLASSES[0], "neutral");
    assert_eq!(DIY_CLASSES[7], "portalcraft");
    assert_eq!(DIY_CLASSES[5], "abysscraft");
}

#[test]
fn all_diy_assets_exist() {
    for cls in DIY_CLASSES {
        for gen in 1..=2 {
            assert!(diy_background_bytes(cls, gen).is_some(), "{cls}-{gen}");
        }
        assert!(diy_title_class_bytes(cls).is_some(), "title_class {cls}");
    }
    for key in [
        "title_bg",
        "title_bottom",
        "card_detail_background",
        "detail_spit",
        "evolve",
        "super_evolve",
        "detail_crest",
        "Crest",
        "Faith",
        "Accelerate",
        "Crystallize",
    ] {
        assert!(diy_effect_bytes(key).is_some(), "effect {key}");
    }
    for name in CREST_BUILTIN {
        assert!(diy_crest_bytes(name).is_some(), "crest {name}");
    }
}

#[test]
fn frame_asset_files() {
    assert_eq!(frame_bytes("follower_bronze").as_deref(), Some("frames/frame2d_follower_bronze.png"));
    assert_eq!(
        frame_bytes("spell_style_101_no_status").as_deref(),
        Some("frames/frame2d_spell_style_101_no_status.png")
    );
    assert_eq!(frame_bytes("amulet_style_101_no_status"), None);
    assert_eq!(frame_bytes("Follower_bronze"), None);
    assert_eq!(frame_bytes(""), None);
}

#[test]
fn icon_asset_files() {
    assert_eq!(icon_bytes(0).as_deref(), Some("icons/card2d_class_icon_0.png"));
    assert_eq!(icon_bytes(7).as_deref(), Some("icons/card2d_class_icon_7.png"));
    assert_eq!(icon_bytes(8), None);
    assert_eq!(icon_bytes(255), None);
}

#[test]
fn diy_asset_files() {
    assert_eq!(diy_background_bytes("runecraft", 1).as_deref(), Some("diy/backgrounds/runecraft-1.jpg"));
    assert_eq!(diy_background_bytes("havencraft", 2).as_deref(), Some("diy/backgrounds/havencraft-2.jpg"));
    assert_eq!(diy_background_bytes("runecraft", 0), None);
    assert_eq!(diy_background_bytes("runecraft", 3), None);
    assert_eq!(diy_background_bytes("bloodcraft", 1), None);
    assert_eq!(diy_title_class_bytes("neutral").as_deref(), Some("diy/title_class/neutral.png"));
    assert_eq!(diy_title_class_bytes("Neutral"), None);
    assert_eq!(diy_effect_bytes("Faith").as_deref(), Some("diy/effect/Faith.png"));
    assert_eq!(diy_effect_bytes("faith"), None);
    assert_eq!(diy_crest_bytes("cost_10").as_deref(), Some("diy/crests/cost_10.png"));
    assert_eq!(diy_crest_bytes("cost_11"), None);
}

#[test]
fn class_names_and_borders() {
    assert_eq!(diy_class_name(4), Some("dragoncraft"));
    assert_eq!(diy_class_name(8), None);
    assert_eq!(crest_border_key(2), "Accelerate");
    assert_eq!(crest_border_key(4), "Crest");
    assert_eq!(crest_border_key(200), "Crest");
}

#[test]
fn law_frame_list_matches_assets_example() {
    for key in FRAME_KEYS {
        assert!(frame_bytes(key).is_some(), "{key}");
    }
    assert_eq!(FRAME_KEYS.len(), 18);
}

#[test]
fn law_diy_assets_complete_example() {
    for border in CREST_BORDERS {
        assert!(EFFECT_KEYS.contains(&border));
        assert!(diy_effect_bytes(border).is_some());
    }
}

#[test]
fn list_frames_is_the_json_frame_list() {
    let json = list_frames();
    let expected = format!(
        "[{}]",
        FRAME_KEYS.iter().map(|k| format!("\"{k}\"")).collect::<Vec<_>>().join(",")
    );
    assert_eq!(json, expected);
    assert!(json.starts_with("[\"follower_bronze\",\"follower_silver\""));
}

#[test]
fn law_frame_keys_distinct_example() {
    let mut keys: Vec<&str> = FRAME_KEYS.to_vec();
    keys.sort();
    keys.dedup();
    assert_eq!(keys.len(), 18);
    for k in FRAME_KEYS {
        assert!(!k.chars().any(|c| c == '"' || c == '\\' || (c as u32) < 0x20));
        assert!(frame_bytes(k).is_some());
    }
    assert!(frame_bytes("amulet_style_101_no_status").is_none());
    assert!(frame_bytes("amulet_high_premium").is_none());
    assert!(frame_bytes("").is_none());
}
