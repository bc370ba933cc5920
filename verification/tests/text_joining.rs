use chrome_ocr::overlap::{
    count_digits, find_exact_overlap, find_fuzzy_overlap, find_near_overlap, find_numeric_overlap, find_scored_overlap,
    merge_overlapping_segments, merge_segments_by_text, merge_segments_improved,
};
use chrome_ocr::position::{
    are_duplicates, deduplicate_by_position, remove_consecutive_duplicates, CharWithPosition,
};
use chrome_ocr::repair::{
    clean_chars, clean_number_at_position, clean_repeated_chars, is_cjk, is_junk_char_at_boundary, is_likely_ocr_noise,
    post_process_duplicates, remove_boundary_duplicates, remove_echoes,
};

fn chars(s: &str) -> Vec<char> {
    s.chars().collect()
}

fn ordinal(x: f32) -> i32 {
    x.to_bits() as i32
}

fn strings(parts: &[&str]) -> Vec<String> {
    parts.iter().map(|s| s.to_string()).collect()
}

#[test]
fn the_longest_exact_overlap_is_found() {
    assert_eq!(find_exact_overlap(&chars("abcabc"), &chars("abcabcd")), 6);
    assert_eq!(find_exact_overlap(&chars("xxabc"), &chars("abcd")), 3);
    assert_eq!(find_exact_overlap(&chars("abc"), &chars("xyz")), 0);
    assert_eq!(find_exact_overlap(&chars(""), &chars("abc")), 0);
    let long: String = "abcdefghijklmnopqrstuvwxyz".to_string();
    assert_eq!(find_exact_overlap(&chars(&long), &chars(&long)), 0);
    assert_eq!(find_exact_overlap(&vec!['a'; 30], &vec!['a'; 30]), 20);
}

#[test]
fn near_overlaps_allow_one_mismatch() {
    assert_eq!(find_near_overlap(&chars("xxabcd"), &chars("abzdyy")), 4);
    assert_eq!(find_near_overlap(&chars("xxabcd"), &chars("azzdyy")), 0);
    assert_eq!(find_near_overlap(&chars("ab"), &chars("ab")), 0);
    assert_eq!(find_near_overlap(&vec!['a'; 30], &vec!['a'; 30]), 15);
}

#[test]
fn numbers_overlap() {
    assert_eq!(count_digits(&chars("19x4"), 0), 2);
    assert_eq!(find_numeric_overlap(&chars("在199"), &chars("1994年")), 3);
    assert_eq!(find_numeric_overlap(&chars("1994"), &chars("94年")), 2);
    assert_eq!(find_numeric_overlap(&chars("12987"), &chars("8765年")), 2);
    assert_eq!(find_numeric_overlap(&chars("198"), &chars("87年")), 0);
    assert_eq!(find_numeric_overlap(&chars("a9"), &chars("99")), 0);
    assert_eq!(find_numeric_overlap(&chars("99"), &chars("9a")), 0);
    assert_eq!(find_fuzzy_overlap(&chars("年19"), &chars("1994")), 2);
    assert_eq!(find_fuzzy_overlap(&chars("xxabcd"), &chars("abzdyy")), 4);
}

#[test]
fn overlaps_are_scored_by_matches_and_length() {
    assert_eq!(find_scored_overlap(&chars("hello wor"), &chars("worldwide")), 3);
    assert_eq!(find_scored_overlap(&chars("abcdef"), &chars("abxdefgh")), 6);
    assert_eq!(find_scored_overlap(&chars("abc"), &chars("xyz")), 0);
    assert_eq!(find_scored_overlap(&chars("abcde"), &chars("abzzzhi")), 0);
    assert_eq!(find_scored_overlap(&chars("abcde"), &chars("abczzhi")), 5);
}

#[test]
fn segments_are_joined_at_their_overlap() {
    assert_eq!(merge_segments_by_text(&strings(&["今天天气", "天气很好", "", "好吗"])), "今天天气很好吗");
    assert_eq!(merge_segments_by_text(&strings(&["xxabcd", "abzdyy"])), "xxabcdyy");
    assert_eq!(merge_segments_by_text(&strings(&["abc", "xyz"])), "abcxyz");
    assert_eq!(merge_segments_by_text(&strings(&["abc"])), "abc");
    assert_eq!(merge_segments_by_text(&Vec::new()), "");
}

#[test]
fn a_cut_text_is_joined_again() {
    let text = "床前明月光疑是地上霜举头望明月低头思故乡";
    let all = chars(text);
    for cut in 3..all.len() {
        for shared in 1..3 {
            let first: String = all[..cut].iter().collect();
            let second: String = all[cut - shared..].iter().collect();
            assert_eq!(merge_segments_by_text(&vec![first, second]), text);
        }
    }
}

#[test]
fn years_are_not_doubled_at_a_boundary() {
    assert_eq!(merge_overlapping_segments(&strings(&["在198", "1987年"])), "在1987年");
    assert_eq!(merge_overlapping_segments(&strings(&["1994", "94年"])), "1994年");
    assert_eq!(merge_overlapping_segments(&strings(&["abab"])), "abab");
    assert_eq!(merge_overlapping_segments(&strings(&["防疫", "", "人员"])), "防疫人员");
    assert_eq!(merge_overlapping_segments(&Vec::new()), "");
}

#[test]
fn improved_joining_drops_noise_in_echoes() {
    assert_eq!(merge_segments_improved(&strings(&["hello wor", "worldwide"])), "hello worldwide");
    assert_eq!(merge_segments_improved(&strings(&["abc", "", "xyz"])), "abcxyz");
    assert_eq!(merge_segments_improved(&strings(&["防芮", "芮防"])), "防");
    assert_eq!(merge_segments_improved(&strings(&["预防芮", "芮防疫"])), "预防疫");
    assert_eq!(merge_segments_improved(&strings(&["防芮防疫"])), "防芮防疫");
    assert_eq!(merge_segments_improved(&Vec::new()), "");
}

#[test]
fn repeated_sequences_are_made_single() {
    assert_eq!(post_process_duplicates("能力能力很强"), "能力很强");
    assert_eq!(post_process_duplicates("abcdeabcdef"), "abcdef");
    assert_eq!(post_process_duplicates("防:防疫"), "防疫");
    assert_eq!(post_process_duplicates("防♦防疫"), "防疫");
    assert_eq!(post_process_duplicates("防x防疫"), "防x防疫");
    assert_eq!(post_process_duplicates("aa"), "aa");
    assert_eq!(post_process_duplicates("aaaa"), "aa");
    assert_eq!(post_process_duplicates("aab"), "aab");
}

#[test]
fn noise_in_echoes_is_removed() {
    assert_eq!(remove_boundary_duplicates("防芮防疫"), "防疫");
    assert_eq!(remove_boundary_duplicates("防中防疫"), "防中防疫");
    assert_eq!(remove_boundary_duplicates("abab!"), "ab!");
    assert_eq!(remove_boundary_duplicates("ABAB"), "AB");
    assert_eq!(remove_boundary_duplicates("ABABAB"), "ABAB");
    assert_eq!(remove_boundary_duplicates("防芮防芮"), "防芮");
    assert_eq!(remove_boundary_duplicates("防芮防"), "防");
    assert_eq!(remove_boundary_duplicates("防中防"), "防中防");
    assert_eq!(remove_boundary_duplicates("芮"), "芮");
    assert_eq!(remove_boundary_duplicates(""), "");
    assert_eq!(remove_echoes(&chars("x讨x!")), chars("x!"));
    for c in ['芮', 'í', 'ì', '兹', '戎', '讨', '˙', ':', '1'] {
        assert!(is_likely_ocr_noise(c), "{}", c);
    }
    for c in ['D', '2', '中', ','] {
        assert!(!is_likely_ocr_noise(c), "{}", c);
    }
}

#[test]
fn junk_between_ideographs_goes() {
    assert!(is_cjk('中') && is_cjk('\u{3400}') && is_cjk('\u{F900}') && !is_cjk('a') && !is_cjk('あ'));
    assert!(is_junk_char_at_boundary(&chars("中e文"), 1));
    assert!(is_junk_char_at_boundary(&chars(",l文"), 1));
    assert!(is_junk_char_at_boundary(&chars("，o，"), 1));
    assert!(!is_junk_char_at_boundary(&chars("中a文"), 1));
    assert!(!is_junk_char_at_boundary(&chars("e文"), 0));
    assert!(!is_junk_char_at_boundary(&chars("中e"), 1));
    assert_eq!(clean_repeated_chars("中e文"), "中文");
}

#[test]
fn doubled_numbers_are_mended() {
    assert_eq!(clean_number_at_position(&chars("200000"), 0), Some((chars("2000"), 6)));
    assert_eq!(clean_number_at_position(&chars("5000000年"), 0), Some((chars("5000"), 7)));
    assert_eq!(clean_number_at_position(&chars("191987"), 0), Some((chars("1987"), 6)));
    assert_eq!(clean_number_at_position(&chars("198787"), 0), Some((chars("1987"), 6)));
    assert_eq!(clean_number_at_position(&chars("x19871987"), 1), Some((chars("1987"), 8)));
    assert_eq!(clean_number_at_position(&chars("10000"), 0), Some((chars("100"), 5)));
    assert_eq!(clean_number_at_position(&chars("198187"), 0), Some((chars("1987"), 6)));
    assert_eq!(clean_number_at_position(&chars("199414"), 0), Some((chars("1994"), 6)));
    assert_eq!(clean_number_at_position(&chars("198000"), 0), Some((chars("19800"), 6)));
    assert_eq!(clean_number_at_position(&chars("1981987"), 0), Some((chars("1987"), 7)));
    assert_eq!(clean_number_at_position(&chars("123456"), 0), None);
    assert_eq!(clean_number_at_position(&chars("458187"), 0), None);
    assert_eq!(clean_number_at_position(&chars("198177"), 0), None);
    assert_eq!(clean_number_at_position(&chars("2000"), 0), None);
    assert_eq!(clean_repeated_chars("约200000人"), "约2000人");
    assert_eq!(clean_repeated_chars("在198187年"), "在1987年");
}

#[test]
fn runs_and_framed_noise_are_cleaned() {
    assert_eq!(clean_repeated_chars("人|人民"), "人民");
    assert_eq!(clean_repeated_chars("疫:疫苗"), "疫苗");
    assert_eq!(clean_repeated_chars("哈哈哈哈好"), "哈好");
    assert_eq!(clean_repeated_chars("人人为我"), "人人为我");
    assert_eq!(clean_repeated_chars("1111"), "1111");
    assert_eq!(clean_repeated_chars(" , "), " , ");
    assert_eq!(clean_repeated_chars("a"), "a");
    assert_eq!(clean_chars(&chars("x-x-x")), chars("x-x"));
}

fn at(text: &str, conf: i32, x0: u32, x1: u32) -> CharWithPosition {
    CharWithPosition { text: text.to_string(), conf, x0, x1, time_step: 0 }
}

#[test]
fn duplicates_are_told_by_place() {
    assert!(are_duplicates(&at("a", 1, 10, 20), &at("a", 1, 14, 24)));
    assert!(are_duplicates(&at("a", 1, 10, 20), &at("b", 1, 14, 24)));
    assert!(!are_duplicates(&at("a", 1, 10, 20), &at("b", 1, 15, 25)));
    assert!(!are_duplicates(&at("a", 1, 10, 20), &at("a", 1, 15, 25)));
    assert!(are_duplicates(&at("a", 1, 10, 30), &at("a", 1, 5, 15)));
    assert!(!are_duplicates(&at("a", 1, 10, 10), &at("a", 1, 10, 10)));
}

fn kept_text(read: &Vec<CharWithPosition>) -> String {
    let kept = deduplicate_by_position(read);
    assert!(kept.windows(2).all(|w| w[0].x0 <= w[1].x0));
    kept.iter().map(|c| c.text.as_str()).collect()
}

#[test]
fn the_more_confident_reading_of_a_place_is_kept() {
    let read = vec![at("b", 5, 40, 50), at("x", 1, 10, 20), at("a", 9, 10, 20), at("b", 7, 41, 51)];
    assert_eq!(kept_text(&read), "ab");
    assert_eq!(deduplicate_by_position(&read)[1].conf, 7);
    assert_eq!(kept_text(&vec![at("a", ordinal(0.2), 0, 10), at("b", ordinal(0.9), 1, 11)]), "b");
    assert_eq!(kept_text(&vec![at("a", ordinal(0.9), 0, 10), at("b", ordinal(0.2), 1, 11)]), "a");
    assert_eq!(kept_text(&vec![at("a", ordinal(0.5), 0, 10), at("b", ordinal(0.5), 1, 11)]), "a");
    assert_eq!(deduplicate_by_position(&Vec::new()).len(), 0);
}

#[test]
fn a_reading_takes_all_places_or_none() {
    let (a, b) = (at("a", 1, 0, 10), at("b", 3, 5, 15));
    assert_eq!(kept_text(&vec![a.copy(), b.copy()]), "ab");
    assert_eq!(kept_text(&vec![a.copy(), b.copy(), at("c", 4, 5, 15)]), "ac");
    assert_eq!(kept_text(&vec![a.copy(), b.copy(), at("c", 2, 5, 15)]), "ab");
    let wide = |conf: i32| vec![at("a", 1, 0, 6), at("b", 3, 6, 12), at("c", conf, 6, 13)];
    assert_eq!(kept_text(&wide(4)), "ac");
    assert_eq!(kept_text(&wide(2)), "ab");
    let between = |conf: i32| vec![at("a", 9, 0, 10), at("b", 1, 5, 15), at("c", conf, 6, 10)];
    assert_eq!(kept_text(&between(5)), "ab");
    assert_eq!(kept_text(&between(10)), "c");
}

#[test]
fn the_same_character_close_by_is_dropped() {
    assert_eq!(kept_text(&vec![at("a", 1, 0, 30), at("a", 9, 9, 11)]), "aa");
    assert_eq!(kept_text(&vec![at("a", 1, 0, 30), at("a", 9, 7, 9)]), "a");
    assert_eq!(deduplicate_by_position(&vec![at("a", 1, 0, 30), at("a", 9, 7, 9)])[0].conf, 1);
    assert_eq!(kept_text(&vec![at("a", 1, 0, 30), at("b", 9, 7, 9)]), "ab");
}

#[test]
fn runs_keep_their_best_confidence() {
    let chars: Vec<(String, i32)> = [("a", 3), ("a", 5), ("b", 2), ("b", 1), ("a", 1)]
        .iter()
        .map(|(s, c)| (s.to_string(), *c))
        .collect();
    let kept = remove_consecutive_duplicates(&chars);
    assert_eq!(kept, vec![("a".to_string(), 5), ("b".to_string(), 2), ("a".to_string(), 1)]);
}

#[test]
fn half_widths_match_single_precision() {
    for mean in 0..3000i32 {
        assert_eq!((mean as f32 * 0.5) as i32, mean / 2);
        for common in [1, mean / 2, mean / 2 + 1, mean] {
            if mean > 0 && common > 0 {
                assert_eq!(common as f32 / mean as f32 > 0.5, 2 * common > mean);
            }
        }
    }
}

#[test]
fn match_rates_match_single_precision() {
    for length in 1..2500usize {
        for count in [length * 3 / 5, length * 3 / 5 + 1, length / 2, length] {
            assert_eq!(count as f32 / length as f32 >= 0.6, count * 5 >= length * 3);
        }
    }
}

fn is_left_of(part: &str, whole: &str) -> bool {
    let mut rest = whole.chars();
    part.chars().all(|c| rest.any(|d| d == c))
}

#[test]
fn repairing_only_removes() {
    for text in ["防芮防疫防疫", "约200000人,e,在191987年", "哈哈哈a-a-aabab!!", "198787x19871987", "", "中e文(人|人)"] {
        assert!(is_left_of(&post_process_duplicates(text), text));
        assert!(is_left_of(&remove_boundary_duplicates(text), text));
        assert!(is_left_of(&clean_repeated_chars(text), text));
    }
    assert_eq!(clean_repeated_chars("约200000人,e,在191987年"), "约2000人,,在1987年");
}
