//! The scanning loop: repeatedly applies a prioritized list of rule
//! interpreters across the input, accepts the first that matches,
//! translates its span to absolute coordinates, and advances past it.

use vstd::prelude::*;
use vstd::string::StringSliceAdditionalSpecFns;

use crate::interpret::MatchBounds;
use crate::interpret::OutcomeModel;
use crate::interpret::Rule;
use crate::interpret::RuleModel;
use crate::interpret::TimeShift;
use crate::interpret::lemma_outcome_full_consumes;
use crate::interpret::rule_outcome_spec;
use crate::interpret::rule_wf;
use crate::interpret::run_rule_at;
use crate::tokens::Token;

verus! {

/// One accepted match: the derived tokens, the derived time adjustment,
/// and the match's absolute start and end offsets in the scanned input.
#[derive(Debug, Clone, PartialEq, Eq)]
pub struct Match {
    pub tokens: Vec<Token>,
    pub time_shift: TimeShift,
    pub start_idx: usize,
    pub end_idx: usize,
}

/// The mathematical model of a `Match`.
#[verifier::ext_equal]
pub struct MatchModel {
    pub tokens: Seq<Token>,
    pub time_shift: TimeShift,
    pub start_idx: int,
    pub end_idx: int,
}

impl View for Match {
    type V = MatchModel;

    open spec fn view(&self) -> MatchModel {
        MatchModel {
            tokens: self.tokens@,
            time_shift: self.time_shift,
            start_idx: self.start_idx as int,
            end_idx: self.end_idx as int,
        }
    }
}

/// Every rule of a list is well formed.
pub open spec fn rules_wf(rules: Seq<RuleModel>) -> bool {
    forall|i: int| 0 <= i < rules.len() ==> rule_wf(#[trigger] rules[i])
}

/// Every rule of a list has at least two steps, so every match it
/// produces spans at least two characters.
pub open spec fn rules_two_steps(rules: Seq<RuleModel>) -> bool {
    forall|i: int| 0 <= i < rules.len() ==> #[trigger] rules[i].steps.len() >= 2
}

/// The outcome of the first rule, in list order, that fully matches the
/// input at the current position, if any: rule order acts as priority.
pub open spec fn first_full(rules: Seq<RuleModel>, s: Seq<u8>, cur: int, exact: bool) -> Option<
    OutcomeModel,
>
    decreases rules.len(),
{
    if rules.len() == 0 {
        Option::None
    } else {
        let o = rule_outcome_spec(rules.first(), s, cur, exact);
        if o.is_full() {
            Option::Some(o)
        } else {
            first_full(rules.drop_first(), s, cur, exact)
        }
    }
}

/// A first full outcome is fully populated, consumes at least one byte,
/// and its span stays within the input.
pub proof fn lemma_first_full(rules: Seq<RuleModel>, s: Seq<u8>, cur: int, exact: bool)
    requires
        rules_wf(rules),
        0 <= cur <= s.len(),
        s.len() <= usize::MAX,
    ensures
        first_full(rules, s, cur, exact) matches Some(o) ==> {
            &&& o.is_full()
            &&& o.time_shift is Some
            &&& cur < o.tail_start <= s.len()
            &&& o.bounds matches Some(b) && b.end_idx == o.tail_start - cur - 1 && b.start_idx
                <= o.tail_start - cur && (rules_two_steps(rules) ==> b.start_idx <= b.end_idx)
        },
    decreases rules.len(),
{
    if rules.len() > 0 {
        assert(rule_wf(rules[0]));
        lemma_outcome_full_consumes(rules.first(), s, cur, exact);
        if !rule_outcome_spec(rules.first(), s, cur, exact).is_full() {
            assert(forall|i: int|
                0 <= i < rules.drop_first().len() ==> #[trigger] rules.drop_first()[i] == rules[i
                    + 1]);
            lemma_first_full(rules.drop_first(), s, cur, exact);
        }
    }
}

/// The matches the scanning loop produces from position `cur` with the
/// running offset `offset`: the first full outcome, translated to
/// absolute coordinates, followed by the matches of the remainder; the
/// loop stops as soon as no rule matches.
pub open spec fn scan_from(
    s: Seq<u8>,
    exact: bool,
    rules: Seq<RuleModel>,
    cur: int,
    offset: int,
) -> Seq<MatchModel>
    decreases s.len() - cur
        when 0 <= cur <= s.len() && s.len() <= usize::MAX && rules_wf(rules)
        via scan_from_dec
{
    match first_full(rules, s, cur, exact) {
        Option::None => Seq::empty(),
        Option::Some(o) => {
            let b = o.bounds->Some_0;
            seq![
                MatchModel {
                    tokens: o.tokens->Some_0,
                    time_shift: o.time_shift->Some_0,
                    start_idx: offset + b.start_idx,
                    end_idx: offset + b.end_idx,
                },
            ] + scan_from(s, exact, rules, o.tail_start as int, offset + b.end_idx)
        },
    }
}

#[via_fn]
proof fn scan_from_dec(s: Seq<u8>, exact: bool, rules: Seq<RuleModel>, cur: int, offset: int) {
    lemma_first_full(rules, s, cur, exact);
}

/// The models of a vector of matches.
pub open spec fn match_models(v: Seq<Match>) -> Seq<MatchModel> {
    v.map_values(|m: Match| m@)
}

/// Scans the byte slice `s`: for each position, tries every rule in
/// order, accepts the first full outcome, records its match with
/// absolute offsets, and continues past it until no rule matches.
pub fn scan_bytes(s: &[u8], exact: bool, ref_time: i64, rules: &Vec<Rule>) -> (r: Vec<Match>)
    requires
        rules_wf(rules@.map_values(|ru: Rule| ru@)),
    ensures
        match_models(r@) == scan_from(s@, exact, rules@.map_values(|ru: Rule| ru@), 0, 0),
{
    proof {
        vstd::slice::axiom_spec_len(s);
    }
    let ghost rmodels = rules@.map_values(|ru: Rule| ru@);
    let mut out: Vec<Match> = Vec::new();
    let mut cur: usize = 0;
    let mut offset: usize = 0;
    loop
        invariant
            s@.len() <= usize::MAX,
            cur <= s@.len(),
            offset + out@.len() == cur,
            rmodels == rules@.map_values(|ru: Rule| ru@),
            rules_wf(rmodels),
            scan_from(s@, exact, rmodels, 0, 0) == match_models(out@) + scan_from(
                s@,
                exact,
                rmodels,
                cur as int,
                offset as int,
            ),
        decreases s@.len() - cur,
    {
        let mut found: Option<(Vec<Token>, MatchBounds, TimeShift, usize)> = Option::None;
        let mut k: usize = 0;
        proof {
            assert(rmodels.skip(0) =~= rmodels);
        }
        while k < rules.len() && found.is_none()
            invariant
                s@.len() <= usize::MAX,
                cur <= s@.len(),
                k <= rules@.len(),
                rmodels == rules@.map_values(|ru: Rule| ru@),
                rules_wf(rmodels),
                match found {
                    Option::None => first_full(rmodels, s@, cur as int, exact) == first_full(
                        rmodels.skip(k as int),
                        s@,
                        cur as int,
                        exact,
                    ),
                    Option::Some((toks, b, ts, tail)) => first_full(rmodels, s@, cur as int, exact)
                        == Option::Some(
                        OutcomeModel {
                            tail_start: tail,
                            tokens: Option::Some(toks@),
                            bounds: Option::Some(b),
                            time_shift: Option::Some(ts),
                        },
                    ),
                },
            decreases rules@.len() - k,
        {
            proof {
                assert(rmodels.skip(k as int).first() == rmodels[k as int]);
                assert(rmodels.skip(k as int).drop_first() =~= rmodels.skip(k + 1));
                assert(rule_wf(rmodels[k as int]));
            }
            let o = run_rule_at(s, cur, exact, ref_time, &rules[k]);
            match (o.tokens, o.bounds, o.time_shift) {
                (Option::Some(toks), Option::Some(b), Option::Some(ts)) => {
                    proof {
                        assert(first_full(rmodels, s@, cur as int, exact) == Option::Some(o@));
                    }
                    found = Option::Some((toks, b, ts, o.tail_start));
                },
                _ => {
                    proof {
                        assert(!o@.is_full());
                    }
                },
            }
            k = k + 1;
        }
        match found {
            Option::None => {
                proof {
                    assert(rmodels.skip(rmodels.len() as int) =~= Seq::<RuleModel>::empty());
                    assert(first_full(rmodels, s@, cur as int, exact) is None);
                    assert(scan_from(s@, exact, rmodels, cur as int, offset as int)
                        =~= Seq::<MatchModel>::empty());
                    assert(match_models(out@) + Seq::<MatchModel>::empty() =~= match_models(out@));
                }
                return out;
            },
            Option::Some((toks, b, ts, tail)) => {
                proof {
                    lemma_first_full(rmodels, s@, cur as int, exact);
                }
                let m = Match {
                    tokens: toks,
                    time_shift: ts,
                    start_idx: offset + b.start_idx,
                    end_idx: offset + b.end_idx,
                };
                let ghost prev_out = out@;
                let ghost prev_offset = offset as int;
                out.push(m);
                offset = offset + b.end_idx;
                cur = tail;
                proof {
                    assert(match_models(prev_out.push(m)) =~= match_models(prev_out).push(m@));
                    assert(match_models(out@) + scan_from(
                        s@,
                        exact,
                        rmodels,
                        cur as int,
                        offset as int,
                    ) =~= match_models(prev_out) + (seq![m@] + scan_from(
                        s@,
                        exact,
                        rmodels,
                        cur as int,
                        offset as int,
                    )));
                }
            },
        }
    }
}

/// Every match the scanning loop produces starts at or after the
/// running offset, and the offset only grows.
pub proof fn lemma_scan_starts_ge(
    s: Seq<u8>,
    exact: bool,
    rules: Seq<RuleModel>,
    cur: int,
    offset: int,
)
    requires
        rules_wf(rules),
        0 <= cur <= s.len(),
        s.len() <= usize::MAX,
        offset >= 0,
    ensures
        forall|k: int|
            0 <= k < scan_from(s, exact, rules, cur, offset).len() ==> #[trigger] scan_from(
                s,
                exact,
                rules,
                cur,
                offset,
            )[k].start_idx >= offset,
    decreases s.len() - cur,
{
    lemma_first_full(rules, s, cur, exact);
    match first_full(rules, s, cur, exact) {
        Option::None => {},
        Option::Some(o) => {
            let b = o.bounds->Some_0;
            let off2 = offset + b.end_idx;
            let rest = scan_from(s, exact, rules, o.tail_start as int, off2);
            let m0 = MatchModel {
                tokens: o.tokens->Some_0,
                time_shift: o.time_shift->Some_0,
                start_idx: offset + b.start_idx,
                end_idx: offset + b.end_idx,
            };
            let ms = scan_from(s, exact, rules, cur, offset);
            assert(ms == seq![m0] + rest);
            lemma_scan_starts_ge(s, exact, rules, o.tail_start as int, off2);
            assert forall|k: int| 0 <= k < ms.len() implies #[trigger] ms[k].start_idx >= offset by {
                if k == 0 {
                    assert(ms[0] == m0);
                } else {
                    assert(ms[k] == rest[k - 1]);
                }
            }
        },
    }
}

/// The returned match spans are chained: every match starts at or after
/// the end of the match before it.
pub proof fn lemma_scan_chain(s: Seq<u8>, exact: bool, rules: Seq<RuleModel>, cur: int, offset: int)
    requires
        rules_wf(rules),
        0 <= cur <= s.len(),
        s.len() <= usize::MAX,
        offset >= 0,
    ensures
        forall|k: int|
            0 <= k && k + 1 < scan_from(s, exact, rules, cur, offset).len() ==> scan_from(
                s,
                exact,
                rules,
                cur,
                offset,
            )[k + 1].start_idx >= #[trigger] scan_from(s, exact, rules, cur, offset)[k].end_idx,
    decreases s.len() - cur,
{
    lemma_first_full(rules, s, cur, exact);
    match first_full(rules, s, cur, exact) {
        Option::None => {},
        Option::Some(o) => {
            let b = o.bounds->Some_0;
            let tail = o.tail_start as int;
            let off2 = offset + b.end_idx;
            let rest = scan_from(s, exact, rules, tail, off2);
            let m0 = MatchModel {
                tokens: o.tokens->Some_0,
                time_shift: o.time_shift->Some_0,
                start_idx: offset + b.start_idx,
                end_idx: offset + b.end_idx,
            };
            let ms = scan_from(s, exact, rules, cur, offset);
            assert(ms == seq![m0] + rest);
            lemma_scan_chain(s, exact, rules, tail, off2);
            lemma_scan_starts_ge(s, exact, rules, tail, off2);
            assert forall|k: int| 0 <= k && k + 1 < ms.len() implies ms[k + 1].start_idx
                >= #[trigger] ms[k].end_idx by {
                assert(ms[k + 1] == rest[k]);
                if k == 0 {
                    assert(ms[0] == m0);
                    assert(rest[0].start_idx >= off2);
                } else {
                    assert(ms[k] == rest[k - 1]);
                    assert(rest[k].start_idx >= rest[k - 1].end_idx);
                }
            }
        },
    }
}

/// When every rule has at least two steps, each match's span is
/// well formed: its start does not exceed its end.
pub proof fn lemma_scan_spans_wf(
    s: Seq<u8>,
    exact: bool,
    rules: Seq<RuleModel>,
    cur: int,
    offset: int,
)
    requires
        rules_wf(rules),
        rules_two_steps(rules),
        0 <= cur <= s.len(),
        s.len() <= usize::MAX,
        offset >= 0,
    ensures
        forall|k: int|
            0 <= k < scan_from(s, exact, rules, cur, offset).len() ==> #[trigger] scan_from(
                s,
                exact,
                rules,
                cur,
                offset,
            )[k].start_idx <= scan_from(s, exact, rules, cur, offset)[k].end_idx,
    decreases s.len() - cur,
{
    lemma_first_full(rules, s, cur, exact);
    match first_full(rules, s, cur, exact) {
        Option::None => {},
        Option::Some(o) => {
            let b = o.bounds->Some_0;
            let off2 = offset + b.end_idx;
            let rest = scan_from(s, exact, rules, o.tail_start as int, off2);
            let m0 = MatchModel {
                tokens: o.tokens->Some_0,
                time_shift: o.time_shift->Some_0,
                start_idx: offset + b.start_idx,
                end_idx: offset + b.end_idx,
            };
            let ms = scan_from(s, exact, rules, cur, offset);
            assert(ms == seq![m0] + rest);
            lemma_scan_spans_wf(s, exact, rules, o.tail_start as int, off2);
            assert forall|k: int| 0 <= k < ms.len() implies #[trigger] ms[k].start_idx
                <= ms[k].end_idx by {
                if k == 0 {
                    assert(ms[0] == m0);
                } else {
                    assert(ms[k] == rest[k - 1]);
                }
            }
        },
    }
}

/// The spans of the matches returned by a scan are non-overlapping and
/// non-decreasing: every match starts at or after the end of the match
/// before it, and, when every rule has at least two steps, each span's
/// start does not exceed its end and the start offsets never decrease
/// across the whole returned sequence.
pub proof fn lemma_scan_spans_ordered(s: Seq<u8>, exact: bool, rules: Seq<RuleModel>)
    requires
        rules_wf(rules),
        rules_two_steps(rules),
        s.len() <= usize::MAX,
    ensures
        ({
            let ms = scan_from(s, exact, rules, 0, 0);
            &&& forall|k: int| 0 <= k && k + 1 < ms.len() ==> ms[k + 1].start_idx
                >= #[trigger] ms[k].end_idx
            &&& forall|k: int| 0 <= k < ms.len() ==> #[trigger] ms[k].start_idx <= ms[k].end_idx
            &&& forall|i: int, j: int| 0 <= i <= j < ms.len() ==> ms[i].start_idx
                <= ms[j].start_idx
        }),
{
    let ms = scan_from(s, exact, rules, 0, 0);
    lemma_scan_chain(s, exact, rules, 0, 0);
    lemma_scan_spans_wf(s, exact, rules, 0, 0);
    assert forall|i: int, j: int| 0 <= i <= j < ms.len() implies ms[i].start_idx
        <= ms[j].start_idx by {
        lemma_starts_monotonic(ms, i, j);
    }
}

/// In a chained sequence of well-formed spans, start offsets never
/// decrease.
proof fn lemma_starts_monotonic(ms: Seq<MatchModel>, i: int, j: int)
    requires
        0 <= i <= j < ms.len(),
        forall|k: int| 0 <= k && k + 1 < ms.len() ==> ms[k + 1].start_idx
            >= #[trigger] ms[k].end_idx,
        forall|k: int| 0 <= k < ms.len() ==> #[trigger] ms[k].start_idx <= ms[k].end_idx,
    ensures
        ms[i].start_idx <= ms[j].start_idx,
    decreases j - i,
{
    if i < j {
        lemma_starts_monotonic(ms, i, j - 1);
        assert(ms[j].start_idx >= ms[j - 1].end_idx);
    }
}

/// Scanning is deterministic: two runs over the same input with the
/// same flag and the same rule list satisfy the scanning contract with
/// the same match models, so their match lists are identical.
pub proof fn lemma_scan_deterministic(
    r1: Seq<Match>,
    r2: Seq<Match>,
    s: Seq<u8>,
    exact: bool,
    rules: Seq<RuleModel>,
)
    requires
        match_models(r1) == scan_from(s, exact, rules, 0, 0),
        match_models(r2) == scan_from(s, exact, rules, 0, 0),
    ensures
        match_models(r1) == match_models(r2),
{
}

/// Scans `input`: the public entry of the scanning loop, stated over
/// the bytes of the input.
pub fn scan(input: &str, exact: bool, ref_time: i64, rules: &Vec<Rule>) -> (r: Vec<Match>)
    requires
        rules_wf(rules@.map_values(|ru: Rule| ru@)),
    ensures
        match_models(r@) == scan_from(
            input.spec_bytes(),
            exact,
            rules@.map_values(|ru: Rule| ru@),
            0,
            0,
        ),
{
    scan_bytes(input.as_bytes(), exact, ref_time, rules)
}

} // verus!
