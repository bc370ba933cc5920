use chrome_ocr::measure::Measure;
use chrome_ocr::text::{
    accept_reading, clean_line, has_matching_bracket, is_content_char, is_junk_line, is_strong_content_char,
    post_process_text, prefers_universal,
};

fn ordinal(x: f32) -> i32 {
    let b = x.to_bits() as i32;
    if b < 0 {
        -(b & 0x7fff_ffff)
    } else {
        b
    }
}

fn measured(x: f32) -> Measure {
    if x.is_nan() {
        None
    } else {
        Some(ordinal(x))
    }
}

#[test]
fn leading_and_trailing_junk_goes() {
    assert_eq!(post_process_text("|-热点话题"), "热点话题");
    assert_eq!(post_process_text("で热点话题"), "热点话题");
    assert_eq!(post_process_text("热点话题-|"), "热点话题");
    assert_eq!(post_process_text("100%"), "100%");
    assert_eq!(post_process_text("done."), "done.");
    assert_eq!(post_process_text("--"), "");
    assert_eq!(post_process_text(""), "");
}

#[test]
fn brackets_are_kept_where_they_close_soon() {
    assert_eq!(post_process_text("(二)方法"), "(二)方法");
    assert_eq!(post_process_text("（一）方法"), "（一）方法");
    assert_eq!(post_process_text("(二方法长长长长"), "二方法长长长长");
    let chars: Vec<char> = "[abcde]".chars().collect();
    assert!(!has_matching_bracket(&chars, 0));
    let chars: Vec<char> = "[abcd]".chars().collect();
    assert!(has_matching_bracket(&chars, 0));
    assert!(!has_matching_bracket(&chars, 1));
    let chars: Vec<char> = "「x」".chars().collect();
    assert!(has_matching_bracket(&chars, 0));
}

#[test]
fn strokes_and_doubled_stops_go() {
    assert_eq!(post_process_text("能|力"), "能力");
    assert_eq!(post_process_text("能!力$学"), "能力学");
    assert_eq!(post_process_text("a|b"), "a|b");
    assert_eq!(post_process_text("a,,b"), "a,b");
    assert_eq!(post_process_text("好。。"), "好。");
    assert_eq!(post_process_text("a...b"), "a..b");
    assert_eq!(post_process_text("a;;b"), "a;;b");
}

#[test]
fn cleaning_leaves_a_subsequence() {
    let raw: Vec<char> = "(*abc|,,中$文..x--".chars().collect();
    let clean = clean_line(&raw);
    let mut at = 0;
    for c in &clean {
        while raw[at] != *c {
            at += 1;
        }
        at += 1;
    }
    assert_eq!(clean.iter().collect::<String>(), "abc|,中文.x");
}

#[test]
fn content_characters() {
    for c in ['a', 'Z', '7', '中', '\u{3400}', 'あ', 'ア', '한', '\u{3000}', 'é'] {
        assert!(is_content_char(c), "{}", c);
    }
    for c in ['|', ' ', '-', '。'] {
        assert!(!is_content_char(c), "{}", c);
    }
    for c in ['a', 'Z', '7', '中', '한'] {
        assert!(is_strong_content_char(c), "{}", c);
    }
    for c in ['あ', 'ア', 'é', '\u{3000}'] {
        assert!(!is_strong_content_char(c), "{}", c);
    }
}

#[test]
fn junk_lines() {
    assert!(is_junk_line(""));
    assert!(is_junk_line("!!a"));
    assert!(!is_junk_line("!a"));
    assert!(is_junk_line("aaa"));
    assert!(!is_junk_line("aab"));
    assert!(!is_junk_line("aa"));
    assert!(is_junk_line("アb1"));
    assert!(is_junk_line("ア中"));
    assert!(!is_junk_line("アイウ"));
    assert!(!is_junk_line("アイウエオカキクb"));
    assert!(!is_junk_line("激发学习兴趣"));
    assert!(is_junk_line("aaaaabb"));
    assert!(!is_junk_line("aaaabb"));
}

#[test]
fn the_universal_reading_is_preferred() {
    let low = measured(0.2);
    let high = measured(0.9);
    assert!(prefers_universal("图", "5", high, low));
    assert!(!prefers_universal("图", "", high, low));
    assert!(!prefers_universal("图片很大", "5", high, low));
    assert!(prefers_universal("helloworld", "hello world", high, measured(0.51)));
    assert!(!prefers_universal("helloworld", "hello world", high, measured(0.5)));
    assert!(!prefers_universal("hello world", "hello world", high, measured(0.6)));
    assert!(prefers_universal("学习", "x", low, high));
    assert!(!prefers_universal("学习", "", low, high));
    assert!(!prefers_universal("学习", "学", high, high));
    assert!(!prefers_universal("学习兴趣", "学习兴趣吗", high, None));
}

#[test]
fn readings_are_accepted_or_dropped() {
    let conf = measured(0.5);
    let least = measured(0.3);
    assert_eq!(accept_reading("  |章节总结 ", conf, least), Some("章节总结".to_string()));
    assert_eq!(accept_reading("5", conf, least), Some("5".to_string()));
    assert_eq!(accept_reading("a", conf, least), None);
    assert_eq!(accept_reading("章节总结", measured(0.29), least), None);
    assert_eq!(accept_reading("章节总结", measured(0.3), least), Some("章节总结".to_string()));
    assert_eq!(accept_reading("aaaa", conf, least), None);
    assert_eq!(accept_reading("\u{3000}\u{3000}章节\u{3000}", conf, least), Some("章节".to_string()));
    assert_eq!(accept_reading("", conf, least), None);
}

#[test]
fn whitespace_is_a_fixed_set() {
    let spaces = "\t\n\u{b}\u{c}\r \u{85}\u{a0}\u{1680}\u{2000}\u{2001}\u{2002}\u{2003}\u{2004}\u{2005}\u{2006}\u{2007}\u{2008}\u{2009}\u{200a}\u{2028}\u{2029}\u{202f}\u{205f}\u{3000}";
    assert_eq!(spaces.chars().count(), 25);
    for c in '\0'..=char::MAX {
        assert_eq!(c.is_whitespace(), spaces.contains(c), "{:?}", c);
    }
    assert_eq!(accept_reading("ok\u{3000}", None, None), Some("ok".to_string()));
}

#[test]
fn cleaned_lines_begin_with_content_or_a_bracket() {
    for text in ["!?abc", "で（一）方法", "((x)", "-[a]", "。。热点", "|(|热|)点", "=] 5%", "{x}"] {
        let cleaned = post_process_text(text);
        let first = cleaned.chars().next().unwrap();
        assert!(is_strong_content_char(first) || "(（「【『[{".contains(first), "{}", cleaned);
    }
    assert_eq!(post_process_text("-[a]"), "[a");
}
