use wbmaker::export::{
    base64_encode, dialog_outcome, gallery_outcome, sanitize_filename, DialogOutcome, DialogPick,
    GalleryOutcome,
};
use wbmaker::text::is_whitespace;

#[test]
fn sanitized_names() {
    assert_eq!(sanitize_filename("card.png"), "card.png");
    assert_eq!(sanitize_filename("Masterwork Artifact Ω"), "Masterwork Artifact Ω.png");
    assert_eq!(sanitize_filename("a/b:c*?.PNG"), "a_b_c__.PNG");
    assert_eq!(sanitize_filename("  name.  "), "name.png");
    assert_eq!(sanitize_filename("..."), "card.png");
    assert_eq!(sanitize_filename(""), "card.png");
    assert_eq!(sanitize_filename(" \u{3000} "), "card.png");
    assert_eq!(sanitize_filename("x.png."), "x.png");
    assert_eq!(sanitize_filename("a. ."), "a. .png");
    assert_eq!(sanitize_filename("<>|\"\\\0"), "______.png");
}

#[test]
fn law_saved_name_is_safe_png_example() {
    for name in ["", "a", "x.PnG", "/", "..", " . ", "名字", "a\\b\0"] {
        let out = sanitize_filename(name);
        assert!(!out.is_empty());
        assert!(out.to_ascii_lowercase().ends_with(".png"), "{name:?} -> {out:?}");
        assert!(!out.chars().any(|c| "/\\:*?\"<>|\0".contains(c)));
    }
}

#[test]
fn whitespace_matches_std() {
    for u in 0u32..=0x10FFFF {
        if let Some(c) = char::from_u32(u) {
            assert_eq!(is_whitespace(c), c.is_whitespace(), "U+{u:04X}");
        }
    }
}

#[test]
fn base64_values() {
    assert_eq!(base64_encode(b""), "");
    assert_eq!(base64_encode(b"f"), "Zg==");
    assert_eq!(base64_encode(b"fo"), "Zm8=");
    assert_eq!(base64_encode(b"foo"), "Zm9v");
    assert_eq!(base64_encode(b"foobar"), "Zm9vYmFy");
    assert_eq!(base64_encode(&[0x89, b'P', b'N', b'G', 0xff]), "iVBOR/8=");
    assert_eq!(base64_encode(&[0xfb, 0xff]), "+/8=");
}

#[test]
fn law_base64_length_example() {
    for n in 0..10usize {
        let data: Vec<u8> = (0..n as u8).collect();
        assert_eq!(base64_encode(&data).len(), 4 * ((n + 2) / 3));
    }
}

#[test]
fn law_sanitize_is_idempotent_example() {
    for name in ["", "a", "x.PnG", "/", "..", " . ", "名字", "a\\b\0", "a. .", "  x.png . "] {
        let once = sanitize_filename(name);
        assert_eq!(sanitize_filename(&once), once);
    }
}

#[test]
fn law_saved_name_is_trimmed_example() {
    for name in ["", "  a  ", "\u{3000}x.png\u{3000}", " . ", "a. .", "\tb\n"] {
        let s = sanitize_filename(name);
        assert_eq!(s.trim(), s);
        assert!(!s.ends_with('.'));
    }
}

#[test]
fn gallery_answers() {
    match gallery_outcome(true, "/sdcard/Pictures/a.png".to_string(), "ignored".to_string()) {
        GalleryOutcome::Saved(p) => assert_eq!(p, "/sdcard/Pictures/a.png"),
        _ => panic!("expected saved"),
    }
    match gallery_outcome(false, String::new(), "no permission".to_string()) {
        GalleryOutcome::Failed(e) => assert_eq!(e, "no permission"),
        _ => panic!("expected failure"),
    }
    assert!(matches!(gallery_outcome(false, "x".to_string(), String::new()), GalleryOutcome::Fallback));
}

#[test]
fn dialog_answers() {
    match dialog_outcome(Some(DialogPick::Path("/home/u/card.png".to_string()))) {
        DialogOutcome::WriteTo(p) => assert_eq!(p, "/home/u/card.png"),
        _ => panic!("expected a path"),
    }
    match dialog_outcome(Some(DialogPick::Url("content://x".to_string()))) {
        DialogOutcome::Refused(e) => assert_eq!(e, "unexpected path: content://x"),
        _ => panic!("expected a refusal"),
    }
    match dialog_outcome(None) {
        DialogOutcome::Refused(e) => assert_eq!(e, "cancelled"),
        _ => panic!("expected cancelled"),
    }
}
