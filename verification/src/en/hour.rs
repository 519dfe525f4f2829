//! The hour-and-meridiem rule: an hour value from 0 to 12 followed by a
//! meridiem marker ("a.m.", "a.", "am", "p.m.", "p.", "pm"). The derived
//! value is the total hour count in seconds, with twelve hours added for
//! a PM marker.

use vstd::prelude::*;
use vstd::string::StringSliceAdditionalSpecFns;

use crate::clock::now_timestamp;
use crate::distance::ascii_seq;
use crate::interpret::Deriver;
use crate::interpret::Rule;
use crate::interpret::RuleModel;
use crate::interpret::RuleOutcome;
use crate::interpret::rule_outcome_spec;
use crate::interpret::rule_wf;
use crate::interpret::run_rule_at;
use crate::recognize::NumKind;
use crate::recognize::RecModel;
use crate::recognize::Recognizer;
use crate::recognize::rec_wf;
use crate::rule::RuleStep;
use crate::rule::StepModel;
use crate::scan::Match;
use crate::scan::match_models;
use crate::scan::rules_wf;
use crate::scan::scan_bytes;
use crate::scan::scan_from;
use crate::tokens::Token;
use crate::tokens::When;

verus! {

/// The model of a fuzzy word recognizer over the bytes of its target.
pub open spec fn word_model(target: &str, max_dist: usize, token: Token, priority: isize) -> RecModel {
    RecModel::Word { target: target.spec_bytes(), max_dist, token, priority }
}

/// A fuzzy word recognizer for `target`.
fn word_rec(target: &str, max_dist: usize, token: Token, priority: isize) -> (r: Recognizer)
    requires
        target.is_ascii(),
    ensures
        r@ == word_model(target, max_dist, token, priority),
        rec_wf(r@),
{
    proof {
        vstd::utf8::is_ascii_chars_encode_utf8(target@);
        assert(ascii_seq(target.spec_bytes()));
    }
    Recognizer::Word {
        target: vstd::slice::slice_to_vec(target.as_bytes()),
        max_dist,
        token,
        priority,
    }
}

/// The model of the hour-and-meridiem rule: an hour value from 0 to 12,
/// then the best fit among the meridiem spellings, with the hour slot at
/// priority 0 and the marker slot at priority 1 both feeding the
/// derivation.
pub open spec fn hour_rule_model() -> RuleModel {
    RuleModel {
        steps: seq![
            StepModel::One(
                RecModel::Number { low: 0, high: 12, kind: NumKind::HourValue, priority: 0 },
            ),
            StepModel::AnyOf(
                seq![
                    word_model("a.m.", 0, Token::When(When::AM), 1),
                    word_model("a.", 0, Token::When(When::AM), 1),
                    word_model("am", 0, Token::When(When::AM), 1),
                    word_model("p.m.", 0, Token::When(When::PM), 1),
                    word_model("p.", 0, Token::When(When::PM), 1),
                    word_model("pm", 0, Token::When(When::PM), 1),
                ],
            ),
        ],
        picks: seq![0usize, 1usize],
        deriver: Deriver::HourMeridiem,
    }
}

/// Builds the hour-and-meridiem rule.
pub fn hour_rule() -> (r: Rule)
    ensures
        r@ == hour_rule_model(),
        rule_wf(r@),
{
    proof {
        reveal_strlit("a.m.");
        reveal_strlit("a.");
        reveal_strlit("am");
        reveal_strlit("p.m.");
        reveal_strlit("p.");
        reveal_strlit("pm");
    }
    let mut cands: Vec<Recognizer> = Vec::new();
    cands.push(word_rec("a.m.", 0, Token::When(When::AM), 1));
    cands.push(word_rec("a.", 0, Token::When(When::AM), 1));
    cands.push(word_rec("am", 0, Token::When(When::AM), 1));
    cands.push(word_rec("p.m.", 0, Token::When(When::PM), 1));
    cands.push(word_rec("p.", 0, Token::When(When::PM), 1));
    cands.push(word_rec("pm", 0, Token::When(When::PM), 1));
    let mut steps: Vec<RuleStep> = Vec::new();
    steps.push(
        RuleStep::One(
            Recognizer::Number { low: 0, high: 12, kind: NumKind::HourValue, priority: 0 },
        ),
    );
    steps.push(RuleStep::AnyOf(cands));
    let mut picks: Vec<usize> = Vec::new();
    picks.push(0);
    picks.push(1);
    let r = Rule { steps, picks, deriver: Deriver::HourMeridiem };
    proof {
        assert(r@.steps =~~= hour_rule_model().steps);
        assert(r@.picks =~= hour_rule_model().picks);
        assert(r@ =~~= hour_rule_model());
    }
    r
}

/// Runs the hour-and-meridiem rule interpreter against `input` with the
/// given reference timestamp.
pub fn interpret(input: &str, exact_match: bool, ref_time: i64) -> (r: RuleOutcome)
    ensures
        r@ == rule_outcome_spec(hour_rule_model(), input.spec_bytes(), 0, exact_match),
{
    let rule = hour_rule();
    run_rule_at(input.as_bytes(), 0, exact_match, ref_time, &rule)
}

/// Scans `input` with the built-in rule list (the hour-and-meridiem
/// rule), fetching the reference timestamp from the clock: the matches
/// depend on the input, the flag and the rule list alone.
pub fn extract_core(input: &str, exact_match: bool) -> (r: Vec<Match>)
    ensures
        match_models(r@) == scan_from(
            input.spec_bytes(),
            exact_match,
            seq![hour_rule_model()],
            0,
            0,
        ),
{
    let mut rules: Vec<Rule> = Vec::new();
    rules.push(hour_rule());
    proof {
        assert(rules@.map_values(|ru: Rule| ru@) =~= seq![hour_rule_model()]);
        assert(rules_wf(seq![hour_rule_model()]));
    }
    let ref_time = now_timestamp();
    scan_bytes(input.as_bytes(), exact_match, ref_time, &rules)
}

} // verus!
