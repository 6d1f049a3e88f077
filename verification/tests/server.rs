use wbmaker::server::{
    find_head_end, inject_marker, mime_of, percent_decode, percent_decode_bytes, route, save_reply,
    static_target, url_path_of, HttpMethod, Route, SaveReply, MARKER,
};

#[test]
fn static_paths_and_traversal() {
    assert_eq!(static_target("/").as_deref(), Some("index.html"));
    assert_eq!(static_target("").as_deref(), Some("index.html"));
    assert_eq!(static_target("/app.js").as_deref(), Some("app.js"));
    assert_eq!(static_target("/fonts/a.otf").as_deref(), Some("fonts/a.otf"));
    assert_eq!(static_target("///fonts/a.otf").as_deref(), Some("fonts/a.otf"));
    // path traversal
    assert_eq!(static_target("/../../etc/passwd"), None);
    assert_eq!(static_target("/..\\windows"), None);
    assert_eq!(static_target("/a/.."), None);
    assert_eq!(static_target("/a/..b/c").as_deref(), Some("a/..b/c"));
    assert_eq!(static_target("/a/b..").as_deref(), Some("a/b.."));
}

#[test]
fn law_static_file_is_relative_example() {
    for p in ["/", "//", "///x", "/a//b", "x"] {
        let f = static_target(p).unwrap();
        assert!(!f.starts_with('/'), "{p} -> {f}");
    }
}

#[test]
fn marker_injection() {
    let page = b"<html><head><title>x</title></head><body>hi</body></html>";
    let out = inject_marker(page);
    let expected = [
        &page[..28],
        MARKER.as_bytes(),
        &page[28..],
    ]
    .concat();
    assert_eq!(out, expected);
    assert!(out.windows(5).any(|w| w == b"<body"));
    // case-insensitive
    assert_eq!(find_head_end(b"ab</HEAD>"), Some(2));
    assert_eq!(find_head_end(b"</head></head>"), Some(0));
    assert_eq!(find_head_end(b"<head>"), None);
    assert_eq!(find_head_end(b""), None);
    // no </head>: unchanged
    assert_eq!(inject_marker(b"<body>"), b"<body>".to_vec());
}

#[test]
fn routing() {
    assert!(matches!(route(HttpMethod::Post, "/api/save_png"), Route::SavePng));
    assert!(matches!(route(HttpMethod::Post, "/api/save_png?x=1"), Route::SavePng));
    assert!(matches!(route(HttpMethod::Other, "/api/save_png"), Route::MethodNotAllowed));
    assert!(matches!(route(HttpMethod::Post, "/index.html"), Route::MethodNotAllowed));
    match route(HttpMethod::Get, "/app.js?v=3") {
        Route::Static(p) => assert_eq!(p, "/app.js"),
        _ => panic!("expected a static route"),
    }
    assert_eq!(url_path_of("?q"), "");
    assert_eq!(url_path_of("/a?b?c"), "/a");
}

#[test]
fn content_types() {
    assert_eq!(mime_of("index.html"), "text/html; charset=utf-8");
    assert_eq!(mime_of("app.JS"), "text/javascript; charset=utf-8");
    assert_eq!(mime_of("w.mjs"), "text/javascript; charset=utf-8");
    assert_eq!(mime_of("pkg/wbmaker_bg.wasm"), "application/wasm");
    assert_eq!(mime_of("a.b.PNG"), "image/png");
    assert_eq!(mime_of("x.jpeg"), "image/jpeg");
    assert_eq!(mime_of("f.ttc"), "font/collection");
    assert_eq!(mime_of("app.js.map"), "application/json");
    assert_eq!(mime_of("README"), "application/octet-stream");
    assert_eq!(mime_of("png"), "image/png");
    assert_eq!(mime_of("x."), "application/octet-stream");
}

#[test]
fn percent_decoding() {
    assert_eq!(percent_decode("Masterwork%20Artifact%20%CE%A9.png"), "Masterwork Artifact Ω.png");
    assert_eq!(percent_decode("card.png"), "card.png");
    assert_eq!(percent_decode("100%"), "100%");
    assert_eq!(percent_decode("%4"), "%4");
    assert_eq!(percent_decode("%41"), "A");
    assert_eq!(percent_decode("%zz%2f"), "%zz/");
    assert_eq!(percent_decode("%FF"), "\u{FFFD}");
    assert_eq!(percent_decode_bytes(b"a%2Bb%2b"), b"a+b+".to_vec());
}

#[test]
fn law_percent_decode_keeps_plain_bytes_example() {
    let plain = b"plain name.png".to_vec();
    assert_eq!(percent_decode_bytes(&plain), plain);
}

#[test]
fn save_replies() {
    match save_reply(Ok("/saved/card.png".to_string())) {
        SaveReply::Saved(p) => assert_eq!(p, "/saved/card.png"),
        _ => panic!("expected saved"),
    }
    let r = save_reply(Err("cancelled".to_string()));
    assert!(matches!(r, SaveReply::Cancelled));
    assert_eq!(r.status(), 200);
    let r = save_reply(Err("disk full".to_string()));
    assert_eq!(r.status(), 500);
    match r {
        SaveReply::Failed(e) => assert_eq!(e, "disk full"),
        _ => panic!("expected failed"),
    }
    assert_eq!(save_reply(Ok(String::new())).status(), 200);
}

#[test]
fn law_percent_decode_undoes_encoding_example() {
    // every `%` escaped, other bytes escaped or not, in either case
    assert_eq!(percent_decode_bytes(b"50%25%2Fa%20b"), b"50%/a b".to_vec());
    assert_eq!(percent_decode_bytes(b"%25%25%41c"), b"%%Ac".to_vec());
    let plain: Vec<u8> = (0u8..=255).collect();
    let mut encoded: Vec<u8> = Vec::new();
    for (i, b) in plain.iter().enumerate() {
        if *b == b'%' || i % 2 == 0 {
            encoded.extend_from_slice(format!("%{:02X}", b).as_bytes());
        } else {
            encoded.push(*b);
        }
    }
    assert_eq!(percent_decode_bytes(&encoded), plain);
}

#[test]
fn law_percent_decode_text_round_trip_example() {
    // the UTF-8 of a text, percent-encoded as encodeURIComponent does it
    fn encode(s: &str) -> String {
        let mut out = String::new();
        for b in s.bytes() {
            if b.is_ascii_alphanumeric() || b"-_.!~*'()".contains(&b) {
                out.push(b as char);
            } else {
                out.push_str(&format!("%{:02X}", b));
            }
        }
        out
    }
    for text in ["Masterwork Artifact Ω.png", "100%", "a/b?c=d&e", "卡牌【守护】.png", ""] {
        assert_eq!(percent_decode(&encode(text)), text);
    }
    // bytes that are not UTF-8 give U+FFFD
    assert!(percent_decode("%FF%FEa").contains('\u{FFFD}'));
}
