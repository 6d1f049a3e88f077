use wbmaker::markup::{parse_rich, wrap_items, RichRun, BODY, KEYWORD_GOLD, KEYWORD_YELLOW};

#[test]
fn rich_parse_basic() {
    // plain text stays white
    let runs = parse_rich("普通文本");
    assert_eq!(runs.len(), 1);
    assert_eq!(runs[0].text, "普通文本");
    assert_eq!(runs[0].color, BODY);
}

#[test]
fn rich_parse_bold_and_italic() {
    let runs = parse_rich("前[b]金色[/b]后[i]斜体[/i]");
    let mut it = runs.into_iter();
    let r1 = it.next().unwrap();
    assert_eq!(r1.text, "前");
    let r2 = it.next().unwrap();
    assert_eq!((r2.text.as_str(), r2.color), ("金色", KEYWORD_GOLD));
    let r3 = it.next().unwrap();
    assert_eq!(r3.text, "后");
    let r4 = it.next().unwrap();
    assert_eq!(r4.text, "斜体");
    assert!(r4.italic);
}

#[test]
fn rich_parse_brackets() {
    let runs = parse_rich("【守护】");
    assert_eq!(runs.len(), 3);
    assert_eq!(runs[0].text, "【");
    assert_eq!(runs[0].color, BODY);
    assert_eq!(runs[1].text, "守护");
    assert_eq!(runs[1].color, KEYWORD_YELLOW);
    assert_eq!(runs[2].text, "】");
    assert_eq!(runs[2].color, BODY);
}

#[test]
fn rich_parse_bracket_digits_stay_white() {
    // digits + underscore inside brackets stay white, so everything merges
    // into one white run.
    let runs = parse_rich("『12_』");
    assert_eq!(runs.len(), 1);
    assert_eq!(runs[0].text, "『12_』");
    assert_eq!(runs[0].color, BODY);
}

#[test]
fn rich_parse_img_split() {
    let runs = parse_rich("甲[img]res://x.png[/img]乙");
    assert_eq!(runs.len(), 3);
    assert!(runs[1].split);
    assert_eq!(runs[2].text, "乙");
}

fn shape(runs: &[RichRun]) -> Vec<(String, [u8; 4], bool, bool)> {
    runs.iter().map(|r| (r.text.clone(), r.color, r.italic, r.split)).collect()
}

#[test]
fn rich_parse_empty_text_has_no_runs() {
    assert!(parse_rich("").is_empty());
}

#[test]
fn rich_parse_unknown_tag_keeps_only_the_bracket() {
    let runs = parse_rich("a[x]b");
    assert_eq!(shape(&runs), vec![("a[b".to_string(), BODY, false, false)]);
}

#[test]
fn rich_parse_lone_open_bracket_is_text() {
    let runs = parse_rich("a[b");
    assert_eq!(shape(&runs), vec![("a[b".to_string(), BODY, false, false)]);
}

#[test]
fn rich_parse_unclosed_bracket_gets_its_closing() {
    let runs = parse_rich("【守");
    assert_eq!(
        shape(&runs),
        vec![
            ("【".to_string(), BODY, false, false),
            ("守".to_string(), KEYWORD_YELLOW, false, false),
            ("】".to_string(), BODY, false, false),
        ]
    );
}

#[test]
fn rich_parse_bracket_keeps_bold_gold() {
    // brackets stay white, and the text after a keyword is gold again
    let runs = parse_rich("[b]【x】y[/b]");
    assert_eq!(
        shape(&runs),
        vec![
            ("【".to_string(), BODY, false, false),
            ("x".to_string(), KEYWORD_YELLOW, false, false),
            ("】".to_string(), BODY, false, false),
            ("y".to_string(), KEYWORD_GOLD, false, false),
        ]
    );
    let runs = parse_rich("[b]金【守】后[/b]尾");
    assert_eq!(
        shape(&runs),
        vec![
            ("金".to_string(), KEYWORD_GOLD, false, false),
            ("【".to_string(), BODY, false, false),
            ("守".to_string(), KEYWORD_YELLOW, false, false),
            ("】".to_string(), BODY, false, false),
            ("后".to_string(), KEYWORD_GOLD, false, false),
            ("尾".to_string(), BODY, false, false),
        ]
    );
}

#[test]
fn rich_parse_hr_split() {
    let runs = parse_rich("甲[hr]乙");
    assert_eq!(
        shape(&runs),
        vec![
            ("甲".to_string(), BODY, false, false),
            (String::new(), BODY, false, true),
            ("乙".to_string(), BODY, false, false),
        ]
    );
    let runs = parse_rich("[b][hr][/b][hr]");
    assert_eq!(
        shape(&runs),
        vec![(String::new(), KEYWORD_GOLD, false, true), (String::new(), BODY, false, true)]
    );
}

#[test]
fn rich_parse_img_without_close_skips_only_the_tag() {
    let runs = parse_rich("甲[img]乙");
    assert_eq!(runs.len(), 3);
    assert_eq!(runs[0].text, "甲");
    assert!(runs[1].split);
    assert_eq!(runs[1].text, "");
    assert_eq!(runs[2].text, "乙");
}

#[test]
fn rich_parse_italic_inside_brackets() {
    let runs = parse_rich("[i]『a1』");
    assert_eq!(
        shape(&runs),
        vec![
            ("『".to_string(), BODY, true, false),
            ("a".to_string(), KEYWORD_YELLOW, true, false),
            ("1』".to_string(), BODY, true, false),
        ]
    );
}

#[test]
fn law_runs_are_maximal_example() {
    // neighbouring text runs always differ in style and are never empty
    let runs = parse_rich("[b][/b]a[b][/b]b[i][/i]c【】[img][/img][img][/img]d");
    for r in &runs {
        assert_eq!(r.split, r.text.is_empty());
    }
    for w in runs.windows(2) {
        if !w[0].split && !w[1].split {
            assert!(w[0].color != w[1].color || w[0].italic != w[1].italic);
        }
    }
    assert_eq!(runs[0].text, "abc【】");
}

#[test]
fn law_plain_text_is_one_white_run_example() {
    let runs = parse_rich("Storm 3/3 ,.!");
    assert_eq!(shape(&runs), vec![("Storm 3/3 ,.!".to_string(), BODY, false, false)]);
}

#[test]
fn wrap_items_words_spaces_and_newlines() {
    let runs = parse_rich("Draw  two cards.\n抽卡[b]Go[/b][img][/img]");
    let items = wrap_items(&runs);
    let got: Vec<(String, [u8; 4], bool, bool)> = items
        .iter()
        .map(|w| (w.text.clone(), w.color, w.split, w.newline))
        .collect();
    assert_eq!(
        got,
        vec![
            ("Draw ".to_string(), BODY, false, false),
            ("two ".to_string(), BODY, false, false),
            ("cards.".to_string(), BODY, false, false),
            ("".to_string(), BODY, false, true),
            ("抽".to_string(), BODY, false, false),
            ("卡".to_string(), BODY, false, false),
            ("Go".to_string(), KEYWORD_GOLD, false, false),
            ("".to_string(), BODY, true, false),
        ]
    );
}

#[test]
fn wrap_items_cjk_char_takes_following_space() {
    let runs = parse_rich("甲 乙");
    let items = wrap_items(&runs);
    let texts: Vec<&str> = items.iter().map(|w| w.text.as_str()).collect();
    assert_eq!(texts, vec!["甲 ", "乙"]);
}

#[test]
fn law_runs_spell_out_text_example() {
    let cases = [
        ("普通文本", "普通文本"),
        ("a【b】c『12_』d", "a【b】c『12_』d"),
        ("a【b", "a【b】"),
        ("【x】y『z", "【x】y『z』"),
        ("", ""),
    ];
    for (text, spelled) in cases {
        let runs = parse_rich(text);
        assert!(runs.iter().all(|r| !r.split));
        let joined: String = runs.iter().map(|r| r.text.as_str()).collect();
        assert_eq!(joined, spelled, "text {text}");
    }
}
