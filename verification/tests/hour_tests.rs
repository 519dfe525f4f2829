use chrono::TimeZone;
use timeparse::en::hour::interpret;
use timeparse::interpret::MatchBounds;
use timeparse::tokens::Token;
use timeparse::tokens::When;

fn fixed_time() -> i64 {
    chrono::Local.with_ymd_and_hms(2019, 1, 1, 0, 0, 0).unwrap().timestamp()
}

#[test]
fn test_pm() {
    let mut result = interpret("5pm", false, fixed_time());
    assert_eq!(result.tokens, Some(vec![Token::Hour(5), Token::When(When::PM)]));
    assert_eq!(result.bounds, Some(MatchBounds { start_idx: 0, end_idx: 2 }));
    assert_eq!(result.get_hours(), 61200);

    result = interpret("at 5 pm", false, fixed_time());
    assert_eq!(result.tokens, Some(vec![Token::Hour(5), Token::When(When::PM)]));
    assert_eq!(result.bounds, Some(MatchBounds { start_idx: 3, end_idx: 6 }));
    assert_eq!(result.get_hours(), 61200);

    result = interpret("at 12 p.", false, fixed_time());
    assert_eq!(result.tokens, Some(vec![Token::Hour(12), Token::When(When::PM)]));
    assert_eq!(result.bounds, Some(MatchBounds { start_idx: 3, end_idx: 7 }));
    assert_eq!(result.get_hours(), 86400);
}

#[test]
fn test_am() {
    let mut result = interpret("5am", false, fixed_time());
    assert_eq!(result.tokens, Some(vec![Token::Hour(5), Token::When(When::AM)]));
    assert_eq!(result.bounds, Some(MatchBounds { start_idx: 0, end_idx: 2 }));
    assert_eq!(result.get_hours(), 18000);

    result = interpret("at 5 a.m.", false, fixed_time());
    assert_eq!(result.tokens, Some(vec![Token::Hour(5), Token::When(When::AM)]));
    assert_eq!(result.bounds, Some(MatchBounds { start_idx: 3, end_idx: 8 }));
    assert_eq!(result.get_hours(), 18000);

    result = interpret("at 12 a.", false, fixed_time());
    assert_eq!(result.tokens, Some(vec![Token::Hour(12), Token::When(When::AM)]));
    assert_eq!(result.bounds, Some(MatchBounds { start_idx: 3, end_idx: 7 }));
    assert_eq!(result.get_hours(), 43200);
}

#[test]
fn interpret_no_match_keeps_tail_only() {
    let result = interpret("no time here", false, fixed_time());
    assert_eq!(result.tokens, None);
    assert_eq!(result.bounds, None);
    assert_eq!(result.time_shift, None);
    assert_eq!(result.tail_start, 0);
    assert_eq!(result.get_hours(), 0);
}

#[test]
fn interpret_exact_match_flag_still_accepts_exact_words() {
    let result = interpret("at 5 pm", true, fixed_time());
    assert_eq!(result.tokens, Some(vec![Token::Hour(5), Token::When(When::PM)]));
    assert_eq!(result.bounds, Some(MatchBounds { start_idx: 3, end_idx: 6 }));
}

#[test]
fn interpret_rejects_out_of_range_hour() {
    let result = interpret("13 xx", false, fixed_time());
    assert_eq!(result.tokens, None);
    assert_eq!(result.bounds, None);
}

#[test]
fn interpret_skips_into_out_of_range_number() {
    // The search also tries every later position, so the trailing digit
    // of an out-of-range number can still start a match of its own.
    let result = interpret("13pm", false, fixed_time());
    assert_eq!(result.tokens, Some(vec![Token::Hour(3), Token::When(When::PM)]));
}
