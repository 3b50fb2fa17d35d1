use crt_core::relationship::Relationship;
use crt_core::text::{
    chars_of, clone_texts, contains_text, decimal_chars, find_char, index_of_text, is_digit_char,
    is_space_char, parse_u32, same_chars, split_on, string_of, subrange, trim,
};
use crt_core::types::{AnalysisResult, CoreSystemicIssue, LeveragePoint, RefineRequest, TimeAllocation};
use crt_core::validation::{is_time_allocation_valid, Validate, MAX_CONTENT_BYTES};

fn chars(text: &str) -> Vec<char> {
    text.chars().collect()
}

fn text(v: &Vec<char>) -> String {
    v.iter().collect()
}

#[test]
fn strings_and_characters_convert_both_ways() {
    assert_eq!(chars_of("a→é"), vec!['a', '→', 'é']);
    assert_eq!(string_of(&vec!['a', '→', 'é']), "a→é");
    assert_eq!(chars_of(""), Vec::<char>::new());
    assert_eq!(subrange(&chars("abcdef"), 2, 4), chars("cd"));
    assert!(same_chars(&chars("abc"), &chars("abc")));
    assert!(!same_chars(&chars("abc"), &chars("abd")));
    assert!(!same_chars(&chars("abc"), &chars("ab")));
}

#[test]
fn white_space_is_what_the_standard_library_says() {
    for n in 0..0x11000u32 {
        if let Some(c) = char::from_u32(n) {
            assert_eq!(is_space_char(c), c.is_whitespace(), "{:x}", n);
            assert_eq!(is_digit_char(c), c.is_ascii_digit(), "{:x}", n);
        }
    }
}

#[test]
fn trim_matches_the_standard_library() {
    for sample in ["", "   ", " a ", "\t\r\n x y \u{a0}\u{3000}", "abc", "  abc", "abc  ", "a  b"] {
        assert_eq!(text(&trim(&chars(sample))), sample.trim());
    }
}

#[test]
fn numbers_are_read_and_written() {
    assert_eq!(parse_u32(&chars("0")), Some(0));
    assert_eq!(parse_u32(&chars("0042")), Some(42));
    assert_eq!(parse_u32(&chars("4294967295")), Some(u32::MAX));
    assert_eq!(parse_u32(&chars("4294967296")), None);
    assert_eq!(parse_u32(&chars("99999999999999999999999999")), None);
    assert_eq!(parse_u32(&chars("")), None);
    assert_eq!(parse_u32(&chars("12a")), None);
    assert_eq!(parse_u32(&chars("+1")), None);
    assert_eq!(parse_u32(&chars("١٢")), None);
    for n in [0u128, 7, 10, 99, 100, 12345, 4294967296, u128::MAX] {
        assert_eq!(text(&decimal_chars(n)), n.to_string());
    }
}

#[test]
fn splitting_gives_one_piece_more_than_separators() {
    let pieces = |s: &str| -> Vec<String> { split_on(&chars(s), ',').iter().map(text).collect() };
    assert_eq!(pieces("a,b,,c"), vec!["a", "b", "", "c"]);
    assert_eq!(pieces(""), vec![""]);
    assert_eq!(pieces(","), vec!["", ""]);
    assert_eq!(pieces("abc"), vec!["abc"]);
    assert_eq!(find_char(&chars("a.b.c"), 0, '.'), 1);
    assert_eq!(find_char(&chars("a.b.c"), 2, '.'), 3);
    assert_eq!(find_char(&chars("a.b.c"), 4, '.'), 5);
}

#[test]
fn lists_of_strings() {
    let v = vec!["a".to_string(), "b".to_string(), "a".to_string()];
    assert!(contains_text(&v, &"b".to_string()));
    assert!(!contains_text(&v, &"c".to_string()));
    assert_eq!(index_of_text(&v, 0, &"a".to_string()), Some(0));
    assert_eq!(index_of_text(&v, 1, &"a".to_string()), Some(2));
    assert_eq!(index_of_text(&v, 3, &"a".to_string()), None);
    assert_eq!(clone_texts(&v), v);
}

#[test]
fn relationship_keeps_what_it_is_given() {
    let mut r = Relationship::new("a".to_string(), "b".to_string(), "causes".to_string());
    assert_eq!(r.from(), "a");
    assert_eq!(r.to(), "b");
    assert_eq!(r.rel_type(), "causes");
    r.set_from("x".to_string());
    r.set_to("y".to_string());
    r.set_rel_type("blocks".to_string());
    assert_eq!((r.from(), r.to(), r.rel_type()), ("x".to_string(), "y".to_string(), "blocks".to_string()));
}

#[test]
fn refine_request_validation() {
    let request = |content: &str| RefineRequest { content: content.to_string() };
    assert_eq!(request("E1. a").validate(), Ok(()));
    assert_eq!(request("").validate(), Err("Content must not be empty".to_string()));
    assert_eq!(request(" \n\t ").validate(), Err("Content must not be empty".to_string()));
    assert_eq!(request(&"x".repeat(MAX_CONTENT_BYTES)).validate(), Ok(()));
    let too_large = Err("Content is too large (max 100,000 characters)".to_string());
    assert_eq!(request(&"x".repeat(MAX_CONTENT_BYTES + 1)).validate(), too_large);
    assert_eq!(request(&"→".repeat(33_333)).validate(), Ok(()));
    assert_eq!(request(&"→".repeat(33_334)).validate(), too_large);
    assert_eq!(request(&"é𝄞".repeat(16_667)).validate(), too_large);
}

#[test]
fn time_allocation_validation() {
    let shares = |m, u, b, f, t| TimeAllocation { meetings: m, unplanned: u, bugs: b, feature: f, tech_debt: t };
    assert_eq!(shares(20, 20, 20, 20, 20).validate(), Ok(()));
    assert_eq!(shares(100, 0, 0, 0, 0).validate(), Ok(()));
    assert_eq!(
        shares(120, -20, 0, 0, 0).validate(),
        Err("Time allocation must be greater than 0".to_string())
    );
    assert_eq!(shares(20, 20, 20, 20, 21).validate(), Err("Time allocation must sum to 100".to_string()));
    assert_eq!(
        shares(i32::MAX, i32::MAX, i32::MAX, i32::MAX, i32::MAX).validate(),
        Err("Time allocation must sum to 100".to_string())
    );
    assert!(is_time_allocation_valid(20, 20, 20, 20, 20));
    assert!(is_time_allocation_valid(20, 20, 20, 20, 19));
    assert!(is_time_allocation_valid(20, 20, 20, 20, 21));
    assert!(!is_time_allocation_valid(20, 20, 20, 20, 22));
    assert!(!is_time_allocation_valid(20, 20, 20, 20, 18));
    assert!(is_time_allocation_valid(200, -100, 0, 0, 0));
    assert!(!is_time_allocation_valid(i32::MAX, i32::MAX, 0, 0, 0));
}

#[test]
fn analysis_result_validation() {
    let full = AnalysisResult {
        executive_summary: "summary".to_string(),
        core_systemic_issues: vec![CoreSystemicIssue {
            issue: "i".to_string(),
            causes: vec![],
            evidence: vec![],
        }],
        leverage_points: vec![LeveragePoint { constraint: "c".to_string(), rationale: "r".to_string() }],
        systemic_relationships: vec![],
        assumptions: vec![],
        analysis_confidence: "high".to_string(),
        analysis_metadata: None,
    };
    assert_eq!(full.validate(), Ok(()));
    let mut a = full.clone();
    a.executive_summary = String::new();
    a.leverage_points = vec![];
    assert_eq!(a.validate(), Err("Analysis result must have an executive summary".to_string()));
    let mut b = full.clone();
    b.core_systemic_issues = vec![];
    assert_eq!(
        b.validate(),
        Err("Analysis result must have at least one core systemic issue".to_string())
    );
    let mut c = full.clone();
    c.leverage_points = vec![];
    assert_eq!(c.validate(), Err("Analysis result must have at least one leverage point".to_string()));
    let mut d = full.clone();
    d.analysis_confidence = String::new();
    assert_eq!(d.validate(), Err("Analysis result must have analysis confidence".to_string()));
}
