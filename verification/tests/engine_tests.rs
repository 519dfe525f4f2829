use timeparse::best_fit::best_fit;
use timeparse::interpret::Deriver;
use timeparse::interpret::Rule;
use timeparse::interpret::run_rule_interpreter;
use timeparse::rule::RuleStep;
use timeparse::en::hour::extract_core;
use timeparse::en::hour::hour_rule;
use timeparse::recognize::NumKind;
use timeparse::recognize::Recognizer;
use timeparse::recognize::recognize_bounded_number;
use timeparse::recognize::recognize_word;
use timeparse::scan::scan;
use timeparse::tokens::ErrorKind;
use timeparse::tokens::PToken;
use timeparse::tokens::Token;
use timeparse::tokens::When;

fn word(target: &str, max_dist: usize, token: Token) -> Recognizer {
    Recognizer::Word { target: target.as_bytes().to_vec(), max_dist, token, priority: 1 }
}

#[test]
fn recognize_word_exact_accepts_equal_only() {
    let token = PToken::PToken(Token::When(When::PM), 1);
    let r = recognize_word("pm", "pm", 0, token);
    let tm = r.unwrap();
    assert_eq!(tm.token, token);
    assert_eq!(tm.dist, 0);
    assert_eq!(tm.end, 2);

    let r = recognize_word("pn", "pm", 0, token);
    assert_eq!(r.unwrap_err(), ErrorKind::Unknown);
}

#[test]
fn recognize_word_fuzzy_accepts_within_distance() {
    let token = PToken::PToken(Token::Weekday(timeparse::tokens::Weekday::Friday), 0);
    // one substitution
    let tm = recognize_word("fridey", "friday", 1, token).unwrap();
    assert_eq!(tm.dist, 1);
    // an adjacent transposition counts as one edit
    let tm = recognize_word("firday", "friday", 1, token).unwrap();
    assert_eq!(tm.dist, 1);
    // two edits exceed a tolerance of one
    let r = recognize_word("fredey", "friday", 1, token);
    assert_eq!(r.unwrap_err(), ErrorKind::Unknown);
    // but fit within a tolerance of two
    let tm = recognize_word("fredey", "friday", 2, token).unwrap();
    assert_eq!(tm.dist, 2);
}

#[test]
fn recognize_word_empty_input_fails_empty() {
    let token = PToken::PToken(Token::Week, 0);
    assert_eq!(recognize_word("", "week", 2, token).unwrap_err(), ErrorKind::Empty);
    assert_eq!(recognize_word(" , 5", "week", 2, token).unwrap_err(), ErrorKind::Empty);
}

#[test]
fn recognize_word_skips_leading_separators() {
    let token = PToken::PToken(Token::Week, 0);
    let tm = recognize_word(" , week", "week", 0, token).unwrap();
    assert_eq!(tm.end, 7);
}

#[test]
fn recognize_bounded_number_bounds() {
    let r = recognize_bounded_number("13", 0, 12, NumKind::HourValue);
    assert_eq!(r.unwrap_err(), ErrorKind::OutOfBounds);

    let tm = recognize_bounded_number("12", 0, 12, NumKind::HourValue).unwrap();
    assert_eq!(tm.token, PToken::PToken(Token::Hour(12), 0));
    assert_eq!(tm.dist, 0);
    assert_eq!(tm.end, 2);
}

#[test]
fn recognize_bounded_number_no_digits_fails_unknown() {
    let r = recognize_bounded_number("pm", 0, 12, NumKind::HourValue);
    assert_eq!(r.unwrap_err(), ErrorKind::Unknown);
}

#[test]
fn recognize_bounded_number_overflow_fails_unknown() {
    let r = recognize_bounded_number("99999999999999999999999999", 0, 12, NumKind::HourValue);
    assert_eq!(r.unwrap_err(), ErrorKind::Unknown);
}

#[test]
fn best_fit_tie_is_ambiguous() {
    // "a" lies one edit from both targets: the selector refuses to guess.
    let cands = vec![
        word("am", 1, Token::When(When::AM)),
        word("a.", 1, Token::Week),
    ];
    let r = best_fit("a", false, &cands);
    assert_eq!(r.unwrap_err(), ErrorKind::Ambiguous);
}

#[test]
fn best_fit_selects_closer_candidate() {
    // "a." matches its own spelling at distance zero and "am" at one.
    let cands = vec![
        word("am", 1, Token::When(When::AM)),
        word("a.", 1, Token::Week),
    ];
    let tm = best_fit("a.", false, &cands).unwrap();
    assert_eq!(tm.token, PToken::PToken(Token::Week, 1));
    assert_eq!(tm.dist, 0);
}

#[test]
fn best_fit_no_candidate_is_unknown() {
    let cands = vec![
        word("am", 0, Token::When(When::AM)),
        word("pm", 0, Token::When(When::PM)),
    ];
    let r = best_fit("noon", false, &cands);
    assert_eq!(r.unwrap_err(), ErrorKind::Unknown);
}

#[test]
fn best_fit_exact_flag_forces_plain_comparison() {
    let cands = vec![word("friday", 2, Token::Weekday(timeparse::tokens::Weekday::Friday))];
    assert!(best_fit("fridey", false, &cands).is_ok());
    assert_eq!(best_fit("fridey", true, &cands).unwrap_err(), ErrorKind::Unknown);
}

#[test]
fn extract_core_pm() {
    let matches = extract_core("5pm", false);
    assert_eq!(matches.len(), 1);
    assert_eq!(matches[0].tokens, vec![Token::Hour(5), Token::When(When::PM)]);
    assert_eq!(matches[0].start_idx, 0);
    assert_eq!(matches[0].end_idx, 2);
    assert_eq!(matches[0].time_shift.hours, 61200);
}

#[test]
fn extract_core_am_dotted() {
    let matches = extract_core("at 5 a.m.", false);
    assert_eq!(matches.len(), 1);
    assert_eq!(matches[0].tokens, vec![Token::Hour(5), Token::When(When::AM)]);
    assert_eq!(matches[0].start_idx, 3);
    assert_eq!(matches[0].end_idx, 8);
    assert_eq!(matches[0].time_shift.hours, 18000);
}

#[test]
fn extract_core_midnight_edge() {
    // 12 AM is midnight: the hour keeps its value and gets no offset,
    // so it is not conflated with 12 PM.
    let matches = extract_core("at 12 a.", false);
    assert_eq!(matches.len(), 1);
    assert_eq!(matches[0].tokens, vec![Token::Hour(12), Token::When(When::AM)]);
    assert_eq!(matches[0].time_shift.hours, 43200);

    let matches = extract_core("at 12 p.", false);
    assert_eq!(matches[0].time_shift.hours, 86400);
}

#[test]
fn extract_core_no_match_is_empty() {
    let matches = extract_core("nothing to see", false);
    assert_eq!(matches.len(), 0);
}

#[test]
fn scan_finds_multiple_ordered_matches() {
    let rules = vec![hour_rule()];
    let matches = scan("5pm 7am", false, 0, &rules);
    assert_eq!(matches.len(), 2);
    assert_eq!(matches[0].tokens, vec![Token::Hour(5), Token::When(When::PM)]);
    assert_eq!(matches[1].tokens, vec![Token::Hour(7), Token::When(When::AM)]);
    // spans are non-decreasing and each match starts at or after the
    // end of the previous one
    assert!(matches[0].start_idx <= matches[1].start_idx);
    assert!(matches[1].start_idx >= matches[0].end_idx);
}

#[test]
fn rule_orders_picked_tokens_by_priority() {
    // The picks name the marker slot first, but the hour token carries
    // the smaller priority, so the stable sort puts it back in front.
    let steps = vec![
        RuleStep::One(Recognizer::Number {
            low: 0,
            high: 12,
            kind: NumKind::HourValue,
            priority: 0,
        }),
        RuleStep::One(word("pm", 0, Token::When(When::PM))),
    ];
    let rule = Rule { steps, picks: vec![1, 0], deriver: Deriver::HourMeridiem };
    let r = run_rule_interpreter("5pm", false, 0, &rule);
    assert_eq!(r.tokens, Some(vec![Token::Hour(5), Token::When(When::PM)]));
    assert_eq!(r.get_hours(), 61200);
}

#[test]
fn scan_same_input_twice_is_identical() {
    let rules = vec![hour_rule()];
    let first = scan("at 5 pm or 7 a.m.", false, 1546300800, &rules);
    let second = scan("at 5 pm or 7 a.m.", false, 1546300800, &rules);
    assert_eq!(first, second);
}
