use writedo::errors::AppError;
use writedo::markdown::{parse_day_header, parse_markdown_plan};

#[test]
fn round_trip_two_days() {
    let md = "# Name\n\n## Day 1 - Title1\nPrompt1\n\n## Day 2 - Title2\nPrompt2";
    let req = parse_markdown_plan(md, "2024-01-01").unwrap();
    assert_eq!(req.name, "Name");
    assert_eq!(req.start_date, "2024-01-01");
    assert!(req.theme.is_none());
    assert_eq!(req.days.len(), 2);
    assert_eq!(req.days[0].day, 1);
    assert_eq!(req.days[0].title, "Title1");
    assert_eq!(req.days[0].prompt, "Prompt1");
    assert_eq!(req.days[1].day, 2);
    assert_eq!(req.days[1].title, "Title2");
    assert_eq!(req.days[1].prompt, "Prompt2");
}

#[test]
fn title_only_fails() {
    let r = parse_markdown_plan("# Title", "2024-01-01");
    assert!(matches!(r, Err(AppError::MarkdownParse(_))));
}

#[test]
fn empty_input_fails() {
    let r = parse_markdown_plan("", "2024-01-01");
    assert!(matches!(r, Err(AppError::MarkdownParse(_))));
}

#[test]
fn random_heading_falls_back_to_sequential() {
    let req = parse_markdown_plan("## Random Heading", "2024-01-01").unwrap();
    assert_eq!(req.days.len(), 1);
    assert_eq!(req.days[0].day, 1);
    assert_eq!(req.days[0].title, "Random Heading");
    assert_eq!(req.days[0].prompt, "");
}

#[test]
fn fallback_name_when_no_heading() {
    let req = parse_markdown_plan("## Day 1 - A\nx", "2024-01-01").unwrap();
    assert_eq!(req.name, "Imported Writing Plan");
}

#[test]
fn later_name_overwrites_earlier() {
    let req = parse_markdown_plan("# First\n## Day 1 - A\n# Second\nx", "2024-01-01").unwrap();
    assert_eq!(req.name, "Second");
    assert_eq!(req.days[0].prompt, "x");
}

#[test]
fn prompt_lines_join_with_newlines() {
    let req = parse_markdown_plan("## Day 1 - A\n  line one  \n\nline two\n", "2024-01-01")
        .unwrap();
    assert_eq!(req.days[0].prompt, "line one\nline two");
}

#[test]
fn day_numbers_taken_verbatim() {
    let req = parse_markdown_plan("## Day 5 - Five\n## Day 2 - Two", "2024-01-01").unwrap();
    assert_eq!(req.days[0].day, 5);
    assert_eq!(req.days[1].day, 2);
}

#[test]
fn header_en_dash_separator() {
    let r = parse_day_header("Day 3 \u{2013} Title").unwrap();
    assert_eq!(r.0, 3);
    assert_eq!(r.1, "Title");
}

#[test]
fn header_fullwidth_colon_separator() {
    let r = parse_day_header("Day 4\u{ff1a}Theme").unwrap();
    assert_eq!(r.0, 4);
    assert_eq!(r.1, "Theme");
}

#[test]
fn header_colon_space_separator() {
    let r = parse_day_header("day 6: Topic").unwrap();
    assert_eq!(r.0, 6);
    assert_eq!(r.1, "Topic");
}

#[test]
fn header_case_insensitive_day() {
    let r = parse_day_header("DAY 2 - Loud").unwrap();
    assert_eq!(r.0, 2);
    assert_eq!(r.1, "Loud");
}

#[test]
fn header_without_space_after_day() {
    let r = parse_day_header("Day7 - Compact").unwrap();
    assert_eq!(r.0, 7);
    assert_eq!(r.1, "Compact");
}

#[test]
fn header_no_separator_is_rejected() {
    assert!(parse_day_header("Day 3").is_none());
    assert!(parse_day_header("Day 3 Title").is_none());
}

#[test]
fn header_non_integer_number_is_rejected() {
    assert!(parse_day_header("Day x - Title").is_none());
}

#[test]
fn header_without_day_prefix_is_rejected() {
    assert!(parse_day_header("Week 1 - Title").is_none());
}

#[test]
fn separator_priority_order() {
    // " - " wins even when a colon comes earlier in the text
    let r = parse_day_header("Day 3\u{ff1a}x - y");
    assert!(r.is_none()); // number part "3：x" is not an integer
}

#[test]
fn header_number_accepts_sign() {
    let r = parse_day_header("Day -3 - Back").unwrap();
    assert_eq!(r.0, -3);
    assert_eq!(r.1, "Back");
    let r = parse_day_header("Day +5 - Ahead").unwrap();
    assert_eq!(r.0, 5);
    assert_eq!(r.1, "Ahead");
}

#[test]
fn header_number_overflow_is_rejected() {
    assert!(parse_day_header("Day 2147483648 - Big").is_none());
    let r = parse_day_header("Day 2147483647 - Max").unwrap();
    assert_eq!(r.0, 2147483647);
}

#[test]
fn heading_spaces_are_trimmed() {
    let req = parse_markdown_plan("  ##   Day 1 - Padded   \n  text  ", "2024-01-01").unwrap();
    assert_eq!(req.days[0].title, "Padded");
    assert_eq!(req.days[0].prompt, "text");
}

#[test]
fn crlf_line_endings_are_handled() {
    let req = parse_markdown_plan("# N\r\n## Day 1 - T\r\nP\r\n", "2024-01-01").unwrap();
    assert_eq!(req.name, "N");
    assert_eq!(req.days[0].title, "T");
    assert_eq!(req.days[0].prompt, "P");
}
