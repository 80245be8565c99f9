use rtop_rs::markup::{find, fit_lines, join_lines, slice, spans, split_at, strip};
use rtop_rs::style::{effect_of, Color, Effect, Style};

fn chars(text: &str) -> Vec<char> {
    text.chars().collect()
}

fn pieces(text: &str, pattern: &str) -> Vec<String> {
    split_at(&chars(text), &chars(pattern)).into_iter().map(|p| p.into_iter().collect()).collect()
}

#[test]
fn finding_a_pattern() {
    assert_eq!(find(&chars("abcabc"), &chars("bc"), 0), Some(1));
    assert_eq!(find(&chars("abcabc"), &chars("bc"), 1), Some(1));
    assert_eq!(find(&chars("abcabc"), &chars("bc"), 2), Some(4));
    assert_eq!(find(&chars("abcabc"), &chars("bc"), 5), None);
    assert_eq!(find(&chars("abcabc"), &chars("bc"), 50), None);
    assert_eq!(find(&chars("abc"), &chars("abcd"), 0), None);
    assert_eq!(find(&chars("aab"), &chars("ab"), 0), Some(1));
    assert_eq!(find(&chars("abc"), &chars(""), 3), Some(3));
    assert_eq!(find(&chars(""), &chars(""), 0), Some(0));
    assert_eq!(slice(&chars("hello"), 1, 3), chars("el"));
}

#[test]
fn splitting_at_a_pattern() {
    assert_eq!(pieces("a,b,,c", ","), vec!["a", "b", "", "c"]);
    assert_eq!(pieces("abc", ","), vec!["abc"]);
    assert_eq!(pieces("", ","), vec![""]);
    assert_eq!(pieces(",", ","), vec!["", ""]);
    assert_eq!(pieces("abc", ""), vec!["abc"]);
    assert_eq!(pieces("aaa", "aa"), vec!["", "a"]);
    assert_eq!(pieces("x--y--", "--"), vec!["x", "y", ""]);
}

fn span_list(text: &str) -> Vec<(Option<String>, String)> {
    spans(text).into_iter().map(|span| (span.effect, span.text)).collect()
}

#[test]
fn text_is_cut_into_spans() {
    assert_eq!(
        span_list("a[[EFFECT_BOLD]]b[[EFFECT_BOLD]]c"),
        vec![
            (None, "a".to_string()),
            (Some("BOLD".to_string()), "b".to_string()),
            (Some("BOLD".to_string()), "c".to_string()),
        ]
    );
    assert_eq!(span_list("plain"), vec![(None, "plain".to_string())]);
    assert_eq!(span_list(""), vec![(None, "".to_string())]);
    assert_eq!(
        span_list("x[[EFFECT_oops"),
        vec![(None, "x".to_string()), (None, "oops".to_string())]
    );
    assert_eq!(span_list("a]]b"), vec![(Some("a".to_string()), "b".to_string())]);
    assert_eq!(
        span_list("[[EFFECT_COLOR_RED]]é]]"),
        vec![(None, "".to_string()), (Some("COLOR_RED".to_string()), "é]]".to_string())]
    );
}

#[test]
fn markers_are_stripped() {
    assert_eq!(strip("a[[EFFECT_BOLD]]b[[EFFECT_BOLD]]c"), "abc");
    assert_eq!(strip("[[EFFECT_REVERSE]]row[[EFFECT_REVERSE]]\nnext"), "row\nnext");
    assert_eq!(strip("no markers"), "no markers");
}

#[test]
fn full_lines_need_no_line_feed() {
    assert_eq!(fit_lines("ab\ncd", 6), "abcd");
    assert_eq!(fit_lines("ab\ncd", 7), "ab\ncd\n");
    assert_eq!(fit_lines("ab\ncd\n", 6), "abcd\n");
    assert_eq!(
        fit_lines("[[EFFECT_BOLD]]ab[[EFFECT_BOLD]]\nc", 6),
        "[[EFFECT_BOLD]]ab[[EFFECT_BOLD]]c\n"
    );
    assert_eq!(fit_lines("", 4), "");
    assert_eq!(fit_lines("", 5), "\n");
    assert_eq!(fit_lines("abc", 0), "abc\n");
}

#[test]
fn widths_count_grapheme_clusters() {
    // three characters, two grapheme clusters
    assert_eq!(fit_lines("e\u{301}x", 6), "e\u{301}x");
    assert_eq!(fit_lines("e\u{301}x", 7), "e\u{301}x\n");
    assert_eq!(fit_lines("🇷🇺", 5), "🇷🇺");
}

#[test]
fn lines_are_joined_by_their_counts() {
    let raw = vec![chars("one"), chars("two"), chars("three")];
    assert_eq!(join_lines(&raw, &vec![3, 9, 5], 13), "one\ntwothree\n");
    assert_eq!(join_lines(&raw, &vec![3, 3], 7), "onetwo");
    assert_eq!(join_lines(&raw, &vec![0, 0, 0, 0], 4), "onetwothree");
    assert_eq!(join_lines(&raw, &vec![0, 0, 0, 0], 5), "one\ntwo\nthree\n\n");
    assert_eq!(join_lines(&raw, &vec![], 5), "");
    assert_eq!(join_lines(&raw, &vec![usize::MAX], i32::MIN), "one\n");
}

#[test]
fn names_of_effects() {
    assert_eq!(effect_of("REVERSE"), Some(Effect::Reverse));
    assert_eq!(effect_of("BOLD"), Some(Effect::Bold));
    assert_eq!(effect_of("ITALIC"), Some(Effect::Italic));
    assert_eq!(effect_of("DIMMED"), Some(Effect::Dimmed));
    assert_eq!(effect_of("UNDERLINE"), Some(Effect::Underline));
    assert_eq!(effect_of("COLOR_RED"), Some(Effect::Tint(Color::Red)));
    assert_eq!(effect_of("COLOR_GREEN"), Some(Effect::Tint(Color::Green)));
    assert_eq!(effect_of("COLOR_YELLOW"), Some(Effect::Tint(Color::Yellow)));
    assert_eq!(effect_of("COLOR_BLUE"), Some(Effect::Tint(Color::Blue)));
    assert_eq!(effect_of("COLOR_MAGENTA"), Some(Effect::Tint(Color::Magenta)));
    assert_eq!(effect_of("COLOR_CYAN"), Some(Effect::Tint(Color::Cyan)));
    assert_eq!(effect_of("COLOR_WHITE"), Some(Effect::Tint(Color::White)));
    assert_eq!(effect_of("COLOR_BLACK"), Some(Effect::Tint(Color::Black)));
    assert_eq!(
        effect_of("COLOR_RED_BLUE"),
        Some(Effect::Pair { foreground: Some(Color::Red), background: Some(Color::Blue) })
    );
    assert_eq!(
        effect_of("COLOR_PINK_BLACK"),
        Some(Effect::Pair { foreground: None, background: Some(Color::Black) })
    );
    assert_eq!(effect_of("COLOR__"), Some(Effect::Pair { foreground: None, background: None }));
    assert_eq!(effect_of("COLOR_PURPLE"), None);
    assert_eq!(effect_of("COLOR"), None);
    assert_eq!(effect_of("bold"), None);
    assert_eq!(effect_of(""), None);
    assert_eq!(effect_of("X_RED_BLUE"), None);
    assert_eq!(effect_of("COLOR_RED_BLUE_GREEN"), None);
}

#[test]
fn markers_switch_styles_on_and_off() {
    let red = Some(Effect::Tint(Color::Red));
    let blue = Some(Effect::Tint(Color::Blue));
    let mut style = Style::new();
    assert_eq!((style.effect(), style.color()), (None, None));
    style.toggle(Some(Effect::Bold));
    assert_eq!(style.effect(), Some(Effect::Bold));
    style.toggle(None);
    assert_eq!(style.effect(), Some(Effect::Bold));
    // another effect comes on over the one in force
    style.toggle(Some(Effect::Reverse));
    assert_eq!(style.effect(), Some(Effect::Reverse));
    // a name that comes again switches its effect off
    style.toggle(Some(Effect::Reverse));
    assert_eq!(style.effect(), Some(Effect::Bold));
    style.toggle(Some(Effect::Bold));
    assert_eq!(style.effect(), None);
    style.toggle(red);
    style.toggle(blue);
    assert_eq!(style.color(), blue);
    style.toggle(red);
    assert_eq!(style.color(), red);
    style.toggle(red);
    assert_eq!(style.color(), blue);
    style.toggle(blue);
    assert_eq!(style.color(), red);
    style.toggle(red);
    assert_eq!(style.color(), None);
    assert_eq!(style.effect(), None);
    // colours and effects do not touch each other
    style.toggle(Some(Effect::Underline));
    style.toggle(red);
    style.toggle(Some(Effect::Underline));
    assert_eq!((style.effect(), style.color()), (None, red));
}
