use satori::answer::{cut_at_next_turn, finish_answer, strip_template_tokens, truncate_answer};

#[test]
fn cut_keeps_text_before_human_turn() {
    assert_eq!(
        cut_at_next_turn("Good answer here. |Human: Thank you..."),
        "Good answer here."
    );
}

#[test]
fn cut_uses_earliest_marker() {
    assert_eq!(cut_at_next_turn("abc <|user|> x ASSISTANT: y"), "abc");
    assert_eq!(cut_at_next_turn("abc ASSISTANT: y <|user|>"), "abc");
}

#[test]
fn cut_without_marker_trims_end_only() {
    assert_eq!(cut_at_next_turn("  plain answer \n"), "  plain answer");
}

#[test]
fn cut_at_lowercase_assistant_marker() {
    assert_eq!(cut_at_next_turn("done|assistant: more"), "done");
}

#[test]
fn strip_removes_piped_tokens() {
    assert_eq!(strip_template_tokens("a |<|user|>| b"), "a b");
    assert_eq!(strip_template_tokens("x |<|//3//>| y"), "x y");
}

#[test]
fn strip_removes_angle_tokens() {
    assert_eq!(strip_template_tokens("a <|assistant|> b <|end>| c"), "a b c");
}

#[test]
fn strip_replaces_bar_underscore() {
    assert_eq!(strip_template_tokens("one|_|two"), "one two");
}

#[test]
fn strip_collapses_whitespace() {
    assert_eq!(strip_template_tokens("  a \t\n b   c  "), "a b c");
}

#[test]
fn strip_keeps_unclosed_token_start() {
    assert_eq!(strip_template_tokens("a <|b"), "a <|b");
}

#[test]
fn strip_keeps_normal_text() {
    assert_eq!(strip_template_tokens("5 < 6 and 7 > 3"), "5 < 6 and 7 > 3");
}

#[test]
fn truncate_strips_numbered_quoted_answer() {
    assert_eq!(truncate_answer("1. \"actual answer\""), "actual answer");
}

#[test]
fn truncate_strips_numbered_answer() {
    assert_eq!(truncate_answer("2. answer text"), "answer text");
}

#[test]
fn truncate_strips_whole_leading_number() {
    assert_eq!(truncate_answer("12. answer"), "answer");
    assert_eq!(truncate_answer("3.  \"quoted\" "), "quoted");
}

#[test]
fn truncate_leaves_text_that_is_not_numbered() {
    assert_eq!(truncate_answer("2024 was a good year."), "2024 was a good year.");
    assert_eq!(truncate_answer("1.5 million rows"), "1.5 million rows");
    assert_eq!(truncate_answer("1."), "1.");
    assert_eq!(truncate_answer("1. \"\""), "1. \"\"");
}

#[test]
fn truncate_keeps_bare_number() {
    assert_eq!(truncate_answer("42"), "42");
    assert_eq!(truncate_answer("7"), "7");
}

#[test]
fn truncate_combines_all_steps() {
    assert_eq!(
        truncate_answer("The total is $5. <|assistant|> |Human: next question"),
        "The total is $5."
    );
}

#[test]
fn truncate_falls_back_to_trimmed_text_when_only_tokens() {
    assert_eq!(truncate_answer("  <|eot|>  "), "<|eot|>");
    assert_eq!(truncate_answer("  <|user|>  "), "");
}

#[test]
fn truncate_of_empty_is_empty() {
    assert_eq!(truncate_answer(""), "");
}

#[test]
fn truncate_result_has_no_surrounding_whitespace() {
    let out = truncate_answer("\n\n  The pack holds 3 sources.  \n");
    assert_eq!(out, "The pack holds 3 sources.");
}

#[test]
fn finish_raw_only_trims() {
    assert_eq!(finish_answer("  1. x |Human: y ", true), "1. x |Human: y");
    assert_eq!(finish_answer("  1. x |Human: y ", false), "x");
}

fn non_space_chars_in_order(out: &str, inp: &str) -> bool {
    let mut it = inp.chars().filter(|c| *c != ' ');
    out.chars().filter(|c| *c != ' ').all(|c| it.any(|d| d == c))
}

#[test]
fn answer_text_comes_from_output() {
    for raw in [
        "1. \"The pack holds |<|x|>| three |_| sources.\" |Human: thanks",
        "  <|assistant|>Answer:\n  42 items <|end|> ",
        "7. one\ntwo",
    ] {
        let out = truncate_answer(raw);
        assert!(non_space_chars_in_order(&out, raw), "{out:?} from {raw:?}");
    }
    assert_eq!(
        truncate_answer("1. \"The pack holds |<|x|>| three |_| sources.\" |Human: thanks"),
        "The pack holds three sources."
    );
}

#[test]
fn numbered_answer_keeps_later_lines() {
    assert_eq!(truncate_answer("1. first\nsecond line"), "first second line");
}

#[test]
fn strip_twice_equals_strip_once() {
    let inputs = [
        "Hello |<|user|>| world",
        "a <|x|> b |_| c",
        "|<| open only",
        "<|a|> |<|b>| tail <| never closed",
        "  spaced\t\tout \n text ",
        "|<|<|x|>|>|",
        "x |_|_| y",
        "",
    ];
    for s in inputs {
        let once = strip_template_tokens(s);
        assert_eq!(strip_template_tokens(&once), once, "input {:?}", s);
    }
}

#[test]
fn stripped_words_occur_in_the_input() {
    let inputs = [
        "Hello |<|user|>| world",
        "a<|x|>b |_| c",
        "keep <|assistant|> these words",
    ];
    for s in inputs {
        for word in strip_template_tokens(s).split_whitespace() {
            assert!(s.contains(word), "word {:?} of input {:?}", word, s);
        }
    }
}

#[test]
fn answer_words_occur_in_the_output() {
    let inputs = [
        "1. \"actual answer\"",
        "12. answer",
        "The total is $5. <|assistant|> |Human: next question",
        "  <|eot|>  ",
    ];
    for s in inputs {
        for word in truncate_answer(s).split_whitespace() {
            assert!(s.contains(word), "word {:?} of output {:?}", word, s);
        }
    }
}

#[test]
fn answer_never_holds_a_next_turn_marker() {
    let markers = [
        "|Human:", "|human:", "|ASSISTANT:", "|Assistant:", "|assistant:", "Human:", "ASSISTANT:",
        "<|user|>", "<|assistant|>",
    ];
    let inputs = [
        "Answer here. |Human: more",
        "Answer <|user|> next",
        "Human: right away",
        "first line\nASSISTANT: second",
    ];
    for s in inputs {
        let a = truncate_answer(s);
        for m in markers {
            assert!(!a.contains(m), "marker {:?} in answer {:?} of {:?}", m, a, s);
        }
    }
}

#[test]
fn cleanup_never_lengthens_the_text() {
    let inputs = [
        "a\t\t\tb",
        "Hello |<|user|>| world",
        "x |_| y",
        "1. \"quoted\"",
        "   ",
    ];
    for s in inputs {
        assert!(strip_template_tokens(s).chars().count() <= s.chars().count());
        assert!(truncate_answer(s).chars().count() <= s.chars().count());
        assert!(strip_template_tokens(s).len() <= s.len());
        assert!(truncate_answer(s).len() <= s.len());
    }
    assert_eq!(strip_template_tokens("a\t\t\tb"), "a b");
}

#[test]
fn cleanup_never_adds_bytes() {
    // Multi-byte characters next to removed tokens and collapsed whitespace.
    let inputs = ["é\u{3000}\u{3000}ü <|x|> ß", "日本 |_| 語", "1. \"näive\"", "\u{2028}ω\u{2028}"];
    for s in inputs {
        assert!(strip_template_tokens(s).len() <= s.len(), "input {:?}", s);
        assert!(truncate_answer(s).len() <= s.len(), "input {:?}", s);
    }
    assert_eq!(strip_template_tokens("é\u{3000}\u{3000}ü"), "é ü");
}

#[test]
fn stripped_text_holds_no_complete_token() {
    let inputs = ["a |<|u|>| b <|v|> c |_| d", "|<|x>| <|y>| |_|_|", "<|<|x|>|>"];
    for s in inputs {
        let out = strip_template_tokens(s);
        assert!(!out.contains("|_|"), "{:?}", out);
        if let Some(i) = out.find("|<|") {
            assert!(!out[i..].contains("|>|") && !out[i..].contains(">|"), "{:?}", out);
        }
        if let Some(i) = out.find("<|") {
            assert!(!out[i..].contains("|>") && !out[i..].contains(">|"), "{:?}", out);
        }
    }
}
