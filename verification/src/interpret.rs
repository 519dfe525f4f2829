//! The rule interpreter: wraps a rule with the token slots that feed its
//! semantic derivation, computes the match span, orders the selected
//! tokens by priority, and derives the semantic value.

use vstd::multiset::Multiset;
use vstd::prelude::*;
use vstd::string::StringSliceAdditionalSpecFns;

use crate::rule::RuleStep;
use crate::rule::StepModel;
use crate::rule::find_from;
use crate::rule::find_rule_match;
use crate::rule::lemma_find_from_props;
use crate::rule::lemma_run_steps_props;
use crate::rule::run_steps_spec;
use crate::rule::steps_wf;
use crate::tokens::PToken;
use crate::tokens::Token;
use crate::tokens::TokenMatch;

verus! {

/// A character span of a match, as inclusive indices relative to the
/// input the rule was invoked on. When characters were skipped before
/// the match, the start index is the skip count plus one; the end index
/// is the input length minus the tail length minus one.
#[derive(Debug, Clone, Copy, PartialEq, Eq, Structural)]
pub struct MatchBounds {
    pub start_idx: usize,
    pub end_idx: usize,
}

/// The semantic value derived from a match: a time adjustment in
/// seconds.
#[derive(Debug, Clone, Copy, PartialEq, Eq, Structural)]
pub struct TimeShift {
    pub hours: u128,
}

/// The priority of a prioritized token; placeholders carry none.
pub open spec fn prio_of(p: PToken) -> isize {
    match p {
        PToken::PToken(_, pr) => pr,
        _ => 0,
    }
}

/// Places `x` into the priority-ordered sequence `s`, after every
/// element whose priority does not exceed its own, so that equal
/// priorities keep their original order.
pub open spec fn insert_by_prio(x: PToken, s: Seq<PToken>) -> Seq<PToken>
    decreases s.len(),
{
    if s.len() == 0 {
        seq![x]
    } else if prio_of(s.last()) > prio_of(x) {
        insert_by_prio(x, s.drop_last()).push(s.last())
    } else {
        s.push(x)
    }
}

/// Orders a token sequence by ascending priority, stably.
pub open spec fn sort_by_prio(s: Seq<PToken>) -> Seq<PToken>
    decreases s.len(),
{
    if s.len() == 0 {
        Seq::empty()
    } else {
        insert_by_prio(s.last(), sort_by_prio(s.drop_last()))
    }
}

/// The priority of a prioritized token; placeholders carry none.
pub fn token_priority(p: &PToken) -> (r: isize)
    ensures
        r == prio_of(*p),
{
    match p {
        PToken::PToken(_, pr) => *pr,
        _ => 0,
    }
}

/// Inserts `x` into the priority-ordered vector `v`.
fn insert_token(v: &mut Vec<PToken>, x: PToken)
    ensures
        final(v)@ == insert_by_prio(x, old(v)@),
{
    let ghost orig = v@;
    let mut i: usize = v.len();
    proof {
        assert(orig.take(orig.len() as int) =~= orig);
        assert(insert_by_prio(x, orig.take(orig.len() as int)) + orig.skip(orig.len() as int)
            =~= insert_by_prio(x, orig));
    }
    while i > 0 && token_priority(&v[i - 1]) > token_priority(&x)
        invariant
            i <= orig.len(),
            v@ == orig,
            insert_by_prio(x, orig) == insert_by_prio(x, orig.take(i as int)) + orig.skip(i as int),
        decreases i,
    {
        proof {
            assert(orig.take(i as int).last() == orig[i - 1]);
            assert(orig.take(i as int).drop_last() =~= orig.take(i - 1));
            assert(insert_by_prio(x, orig.take(i as int)) == insert_by_prio(
                x,
                orig.take(i - 1),
            ).push(orig[i - 1]));
            assert(insert_by_prio(x, orig.take(i - 1)).push(orig[i - 1]) + orig.skip(i as int)
                =~= insert_by_prio(x, orig.take(i - 1)) + orig.skip(i - 1));
        }
        i = i - 1;
    }
    proof {
        if i == 0 {
            assert(orig.take(0) =~= Seq::<PToken>::empty());
            assert(insert_by_prio(x, orig.take(0)) =~= seq![x]);
        } else {
            assert(orig.take(i as int).last() == orig[i - 1]);
            assert(insert_by_prio(x, orig.take(i as int)) == orig.take(i as int).push(x));
        }
        assert(insert_by_prio(x, orig) =~= orig.insert(i as int, x));
    }
    v.insert(i, x);
}

/// Orders the tokens of `v` by ascending priority, stably.
pub fn sort_tokens(v: &Vec<PToken>) -> (r: Vec<PToken>)
    ensures
        r@ == sort_by_prio(v@),
{
    let mut out: Vec<PToken> = Vec::new();
    let mut i: usize = 0;
    while i < v.len()
        invariant
            i <= v@.len(),
            out@ == sort_by_prio(v@.take(i as int)),
        decreases v@.len() - i,
    {
        proof {
            assert(v@.take(i + 1).drop_last() =~= v@.take(i as int));
            assert(v@.take(i + 1).last() == v@[i as int]);
        }
        insert_token(&mut out, v[i]);
        i = i + 1;
    }
    proof {
        assert(v@.take(v@.len() as int) =~= v@);
    }
    out
}

/// A token sequence ordered by ascending priority: tokens with smaller
/// priority values come first.
pub open spec fn prio_sorted(s: Seq<PToken>) -> bool {
    forall|i: int, j: int| 0 <= i <= j < s.len() ==> prio_of(s[i]) <= prio_of(s[j])
}

/// An ordered insertion keeps every priority within a common bound.
proof fn lemma_insert_by_prio_bound(x: PToken, s: Seq<PToken>, b: isize)
    requires
        prio_of(x) <= b,
        forall|i: int| 0 <= i < s.len() ==> prio_of(#[trigger] s[i]) <= b,
    ensures
        forall|k: int|
            0 <= k < insert_by_prio(x, s).len() ==> prio_of(#[trigger] insert_by_prio(x, s)[k])
                <= b,
    decreases s.len(),
{
    if s.len() == 0 {
        assert(insert_by_prio(x, s) =~= seq![x]);
    } else if prio_of(s.last()) > prio_of(x) {
        lemma_insert_by_prio_bound(x, s.drop_last(), b);
        let ins = insert_by_prio(x, s.drop_last());
        assert forall|k: int| 0 <= k < ins.push(s.last()).len() implies prio_of(
            #[trigger] ins.push(s.last())[k],
        ) <= b by {
            if k < ins.len() {
                assert(ins.push(s.last())[k] == ins[k]);
            } else {
                assert(ins.push(s.last())[k] == s.last());
            }
        }
    } else {
        assert forall|k: int| 0 <= k < s.push(x).len() implies prio_of(#[trigger] s.push(x)[k])
            <= b by {
            if k < s.len() {
                assert(s.push(x)[k] == s[k]);
            } else {
                assert(s.push(x)[k] == x);
            }
        }
    }
}

/// An ordered insertion keeps the sequence ordered by priority.
proof fn lemma_insert_by_prio_sorted(x: PToken, s: Seq<PToken>)
    requires
        prio_sorted(s),
    ensures
        prio_sorted(insert_by_prio(x, s)),
    decreases s.len(),
{
    if s.len() == 0 {
    } else if prio_of(s.last()) > prio_of(x) {
        assert(prio_sorted(s.drop_last()));
        lemma_insert_by_prio_sorted(x, s.drop_last());
        lemma_insert_by_prio_bound(x, s.drop_last(), prio_of(s.last()));
        let ins = insert_by_prio(x, s.drop_last()).push(s.last());
        assert forall|i: int, j: int| 0 <= i <= j < ins.len() implies prio_of(ins[i]) <= prio_of(
            ins[j],
        ) by {
            if j < ins.len() - 1 {
                assert(ins[i] == insert_by_prio(x, s.drop_last())[i]);
                assert(ins[j] == insert_by_prio(x, s.drop_last())[j]);
            } else if i < j {
                assert(ins[i] == insert_by_prio(x, s.drop_last())[i]);
                assert(ins[j] == s.last());
            }
        }
    } else {
        let ins = s.push(x);
        assert forall|i: int, j: int| 0 <= i <= j < ins.len() implies prio_of(ins[i]) <= prio_of(
            ins[j],
        ) by {
            if j < ins.len() - 1 {
                assert(ins[i] == s[i] && ins[j] == s[j]);
            } else if i < j {
                assert(ins[i] == s[i]);
                assert(prio_of(s[i]) <= prio_of(s.last()));
            }
        }
    }
}

/// An ordered insertion adds exactly the inserted token.
proof fn lemma_insert_by_prio_multiset(x: PToken, s: Seq<PToken>)
    ensures
        insert_by_prio(x, s).to_multiset() == s.to_multiset().insert(x),
        insert_by_prio(x, s).len() == s.len() + 1,
    decreases s.len(),
{
    broadcast use vstd::seq_lib::group_to_multiset_ensures;

    if s.len() == 0 {
        assert(insert_by_prio(x, s) =~= Seq::<PToken>::empty().push(x));
        assert(s.to_multiset() =~= Multiset::<PToken>::empty());
    } else if prio_of(s.last()) > prio_of(x) {
        lemma_insert_by_prio_multiset(x, s.drop_last());
        assert(s =~= s.drop_last().push(s.last()));
        assert(s.to_multiset() == s.drop_last().push(s.last()).to_multiset());
        assert(insert_by_prio(x, s).to_multiset() == s.drop_last().to_multiset().insert(x).insert(
            s.last(),
        ));
        assert(s.drop_last().to_multiset().insert(x).insert(s.last())
            =~= s.drop_last().to_multiset().insert(s.last()).insert(x));
    } else {
    }
}

/// The law of the interpreter's token ordering: ordering by priority
/// yields a permutation of the selected tokens in which tokens with
/// smaller priority values come first.
pub proof fn lemma_sort_by_prio_ordered(s: Seq<PToken>)
    ensures
        prio_sorted(sort_by_prio(s)),
        sort_by_prio(s).to_multiset() == s.to_multiset(),
        sort_by_prio(s).len() == s.len(),
    decreases s.len(),
{
    broadcast use vstd::seq_lib::group_to_multiset_ensures;

    if s.len() > 0 {
        lemma_sort_by_prio_ordered(s.drop_last());
        lemma_insert_by_prio_sorted(s.last(), sort_by_prio(s.drop_last()));
        lemma_insert_by_prio_multiset(s.last(), sort_by_prio(s.drop_last()));
        assert(s =~= s.drop_last().push(s.last()));
        assert(s.to_multiset() == s.drop_last().push(s.last()).to_multiset());
    }
}

/// Drops placeholders and priorities, keeping the tokens in order.
pub open spec fn strip_tokens_spec(s: Seq<PToken>) -> Seq<Token>
    decreases s.len(),
{
    if s.len() == 0 {
        Seq::empty()
    } else {
        strip_tokens_spec(s.drop_last()) + (match s.last() {
            PToken::PToken(t, _) => seq![t],
            _ => Seq::empty(),
        })
    }
}

/// When a sequence holds no placeholders, stripping keeps every token,
/// in order.
pub proof fn lemma_strip_keeps_tokens(s: Seq<PToken>)
    requires
        forall|i: int| 0 <= i < s.len() ==> s[i] is PToken,
    ensures
        strip_tokens_spec(s).len() == s.len(),
        forall|i: int|
            0 <= i < s.len() ==> match #[trigger] s[i] {
                PToken::PToken(t, _) => strip_tokens_spec(s)[i] == t,
                _ => false,
            },
    decreases s.len(),
{
    if s.len() > 0 {
        assert(forall|i: int| 0 <= i < s.drop_last().len() ==> #[trigger] s.drop_last()[i] == s[i]);
        lemma_strip_keeps_tokens(s.drop_last());
        assert(s[s.len() - 1] is PToken);
        assert forall|i: int| 0 <= i < s.len() implies match #[trigger] s[i] {
            PToken::PToken(t, _) => strip_tokens_spec(s)[i] == t,
            _ => false,
        } by {
            if i < s.len() - 1 {
                assert(strip_tokens_spec(s)[i] == strip_tokens_spec(s.drop_last())[i]);
                assert(s.drop_last()[i] == s[i]);
            } else {
                assert(s[i] == s.last());
            }
        }
    }
}

/// Drops placeholders and priorities, keeping the tokens in order.
pub fn strip_tokens(v: &Vec<PToken>) -> (r: Vec<Token>)
    ensures
        r@ == strip_tokens_spec(v@),
{
    let mut out: Vec<Token> = Vec::new();
    let mut i: usize = 0;
    while i < v.len()
        invariant
            i <= v@.len(),
            out@ == strip_tokens_spec(v@.take(i as int)),
        decreases v@.len() - i,
    {
        proof {
            assert(v@.take(i + 1).drop_last() =~= v@.take(i as int));
            assert(v@.take(i + 1).last() == v@[i as int]);
        }
        match v[i] {
            PToken::PToken(t, _) => {
                out.push(t);
                proof {
                    assert(out@ =~= strip_tokens_spec(v@.take(i + 1)));
                }
            },
            _ => {
                proof {
                    assert(out@ =~= strip_tokens_spec(v@.take(i + 1)));
                }
            },
        }
        i = i + 1;
    }
    proof {
        assert(v@.take(v@.len() as int) =~= v@);
    }
    out
}

/// The tokens selected, by position, from the matches of a rule's steps.
pub open spec fn picked(tms: Seq<TokenMatch>, picks: Seq<usize>) -> Seq<PToken> {
    Seq::new(picks.len(), |i: int| tms[picks[i] as int].token)
}

/// Selects the token of each configured slot from the step matches.
pub fn pick_tokens(tms: &Vec<TokenMatch>, picks: &Vec<usize>) -> (r: Vec<PToken>)
    requires
        forall|i: int| 0 <= i < picks@.len() ==> #[trigger] picks@[i] < tms@.len(),
    ensures
        r@ == picked(tms@, picks@),
{
    let mut out: Vec<PToken> = Vec::new();
    let mut i: usize = 0;
    while i < picks.len()
        invariant
            i <= picks@.len(),
            forall|k: int| 0 <= k < picks@.len() ==> #[trigger] picks@[k] < tms@.len(),
            out@.len() == i,
            forall|k: int| 0 <= k < i ==> out@[k] == tms@[picks@[k] as int].token,
        decreases picks@.len() - i,
    {
        out.push(tms[picks[i]].token);
        i = i + 1;
    }
    proof {
        assert(out@ =~= picked(tms@, picks@));
    }
    out
}

/// Selects which semantic derivation a rule performs.
#[derive(Debug, Clone, Copy, PartialEq, Eq, Structural)]
pub enum Deriver {
    /// An hour value with a meridiem marker: the marker's 12-hour offset
    /// is added to the hour, and the total is expressed in seconds.
    HourMeridiem,
}

/// The total hour count read from a token sequence: an hour token sets
/// the count, a PM marker adds twelve, an AM marker adds nothing, and
/// any other token is ignored.
pub open spec fn hour_sum(tokens: Seq<Token>) -> int
    decreases tokens.len(),
{
    if tokens.len() == 0 {
        0
    } else {
        match tokens.last() {
            Token::Hour(n) => n as int,
            Token::When(crate::tokens::When::PM) => hour_sum(tokens.drop_last()) + 12,
            _ => hour_sum(tokens.drop_last()),
        }
    }
}

/// The hour count is non-negative and grows by at most twelve per token.
pub proof fn lemma_hour_sum_bounds(tokens: Seq<Token>)
    ensures
        0 <= hour_sum(tokens) <= usize::MAX + 12 * tokens.len(),
    decreases tokens.len(),
{
    if tokens.len() > 0 {
        lemma_hour_sum_bounds(tokens.drop_last());
    }
}

/// The semantic value a deriver computes from the selected tokens, in
/// seconds.
pub open spec fn derive_shift(d: Deriver, tokens: Seq<Token>) -> int {
    match d {
        Deriver::HourMeridiem => hour_sum(tokens) * 3600,
    }
}

/// Derives the semantic value from the selected tokens. The reference
/// timestamp is handed to every derivation; the hour-and-meridiem
/// derivation does not depend on it.
pub fn derive(d: Deriver, tokens: &Vec<Token>, ref_time: i64) -> (r: TimeShift)
    ensures
        r.hours == derive_shift(d, tokens@),
{
    let _ = ref_time;
    match d {
        Deriver::HourMeridiem => {
            let mut hrs: u128 = 0;
            let mut i: usize = 0;
            while i < tokens.len()
                invariant
                    i <= tokens@.len(),
                    hrs == hour_sum(tokens@.take(i as int)),
                    hrs <= usize::MAX + 12 * i,
                decreases tokens@.len() - i,
            {
                proof {
                    assert(tokens@.take(i + 1).drop_last() =~= tokens@.take(i as int));
                    assert(tokens@.take(i + 1).last() == tokens@[i as int]);
                    lemma_hour_sum_bounds(tokens@.take(i as int));
                }
                match tokens[i] {
                    Token::Hour(n) => {
                        hrs = n as u128;
                    },
                    Token::When(crate::tokens::When::PM) => {
                        hrs = hrs + 12;
                    },
                    _ => {},
                }
                i = i + 1;
            }
            proof {
                assert(tokens@.take(tokens@.len() as int) =~= tokens@);
                assert(hrs * 3600 <= (usize::MAX + 12 * tokens@.len()) * 3600 < u128::MAX)
                    by (nonlinear_arith)
                    requires
                        hrs <= usize::MAX + 12 * tokens@.len(),
                        tokens@.len() <= usize::MAX,
                ;
            }
            TimeShift { hours: hrs * 3600 }
        },
    }
}

/// A rule together with its interpretation: the recognizer sequence,
/// the token slots (by position) that feed the semantic derivation, and
/// the derivation to perform.
#[derive(Debug, Clone, PartialEq, Eq)]
pub struct Rule {
    pub steps: Vec<RuleStep>,
    pub picks: Vec<usize>,
    pub deriver: Deriver,
}

/// The mathematical model of a `Rule`.
#[verifier::ext_equal]
pub struct RuleModel {
    pub steps: Seq<StepModel>,
    pub picks: Seq<usize>,
    pub deriver: Deriver,
}

impl View for Rule {
    type V = RuleModel;

    open spec fn view(&self) -> RuleModel {
        RuleModel {
            steps: self.steps@.map_values(|st: RuleStep| st@),
            picks: self.picks@,
            deriver: self.deriver,
        }
    }
}

/// A rule is well formed when it has at least one step, every step is
/// well formed, and every pick indexes a step.
pub open spec fn rule_wf(r: RuleModel) -> bool {
    &&& r.steps.len() >= 1
    &&& steps_wf(r.steps)
    &&& forall|i: int| 0 <= i < r.picks.len() ==> #[trigger] r.picks[i] < r.steps.len()
}

/// The result of running one rule interpreter against a slice of text:
/// where the unmatched remainder begins, and, when the rule matched,
/// the selected tokens, the match span, and the derived semantic value.
#[derive(Debug, Clone, PartialEq, Eq)]
pub struct RuleOutcome {
    pub tail_start: usize,
    pub tokens: Option<Vec<Token>>,
    pub bounds: Option<MatchBounds>,
    pub time_shift: Option<TimeShift>,
}

/// The mathematical model of a `RuleOutcome`.
#[verifier::ext_equal]
pub struct OutcomeModel {
    pub tail_start: usize,
    pub tokens: Option<Seq<Token>>,
    pub bounds: Option<MatchBounds>,
    pub time_shift: Option<TimeShift>,
}

impl View for RuleOutcome {
    type V = OutcomeModel;

    open spec fn view(&self) -> OutcomeModel {
        OutcomeModel {
            tail_start: self.tail_start,
            tokens: match self.tokens {
                Option::Some(v) => Option::Some(v@),
                Option::None => Option::None,
            },
            bounds: self.bounds,
            time_shift: self.time_shift,
        }
    }
}

impl OutcomeModel {
    /// A fully populated outcome: the rule matched.
    pub open spec fn is_full(self) -> bool {
        self.tokens is Some && self.bounds is Some
    }
}

impl RuleOutcome {
    /// The derived time adjustment in seconds, zero when the rule did
    /// not match.
    pub fn get_hours(&self) -> (r: u128)
        ensures
            r == match self@.time_shift {
                Option::Some(ts) => ts.hours,
                Option::None => 0,
            },
    {
        match &self.time_shift {
            Option::Some(ts) => ts.hours,
            Option::None => 0,
        }
    }
}

/// What running a rule interpreter returns. When the rule matches
/// nowhere, only the unmatched remainder (the whole input from `from`)
/// is populated. When it first matches after skipping `i - from`
/// characters and consuming up to `end`, the outcome carries the
/// remainder position, the selected tokens ordered by priority and
/// stripped of placeholders, the span, and the derived value.
pub open spec fn rule_outcome_spec(r: RuleModel, s: Seq<u8>, from: int, exact: bool) -> OutcomeModel {
    match find_from(r.steps, s, from, exact) {
        Option::None => OutcomeModel {
            tail_start: from as usize,
            tokens: Option::None,
            bounds: Option::None,
            time_shift: Option::None,
        },
        Option::Some(i) => {
            let (tms, end) = run_steps_spec(r.steps, s, i, exact)->Some_0;
            let skipped = i - from;
            let toks = strip_tokens_spec(sort_by_prio(picked(tms, r.picks)));
            OutcomeModel {
                tail_start: end as usize,
                tokens: Option::Some(toks),
                bounds: Option::Some(
                    MatchBounds {
                        start_idx: if skipped == 0 {
                            0
                        } else {
                            (skipped + 1) as usize
                        },
                        end_idx: (end - from - 1) as usize,
                    },
                ),
                time_shift: Option::Some(
                    TimeShift { hours: derive_shift(r.deriver, toks) as u128 },
                ),
            }
        },
    }
}

/// Runs a rule interpreter against `s` from position `from`: searches
/// forward for the first position where the rule matches, computes the
/// span relative to `from`, selects and orders the configured token
/// slots, and derives the semantic value.
pub fn run_rule_at(s: &[u8], from: usize, exact: bool, ref_time: i64, rule: &Rule) -> (r:
    RuleOutcome)
    requires
        from <= s@.len(),
        rule_wf(rule@),
    ensures
        r@ == rule_outcome_spec(rule@, s@, from as int, exact),
{
    proof {
        vstd::slice::axiom_spec_len(s);
        lemma_find_from_props(rule@.steps, s@, from as int, exact);
    }
    match find_rule_match(&rule.steps, s, from, exact) {
        Option::None => RuleOutcome {
            tail_start: from,
            tokens: Option::None,
            bounds: Option::None,
            time_shift: Option::None,
        },
        Option::Some((i, tms, end)) => {
            proof {
                lemma_run_steps_props(rule@.steps, s@, i as int, exact);
            }
            let picked_toks = pick_tokens(&tms, &rule.picks);
            let sorted = sort_tokens(&picked_toks);
            let toks = strip_tokens(&sorted);
            let shift = derive(rule.deriver, &toks, ref_time);
            proof {
                lemma_hour_sum_bounds(toks@);
            }
            let skipped = i - from;
            let start_idx = if skipped == 0 {
                0
            } else {
                skipped + 1
            };
            RuleOutcome {
                tail_start: end,
                tokens: Option::Some(toks),
                bounds: Option::Some(MatchBounds { start_idx, end_idx: end - from - 1 }),
                time_shift: Option::Some(shift),
            }
        },
    }
}

/// Runs a rule interpreter against `input` from its start: the public
/// entry, stated over the bytes of the input. The reference timestamp
/// is handed to the rule's semantic derivation.
pub fn run_rule_interpreter(
    input: &str,
    exact_match: bool,
    reference_time: i64,
    rule: &Rule,
) -> (r: RuleOutcome)
    requires
        rule_wf(rule@),
    ensures
        r@ == rule_outcome_spec(rule@, input.spec_bytes(), 0, exact_match),
{
    run_rule_at(input.as_bytes(), 0, exact_match, reference_time, rule)
}

/// A full outcome consumes at least one byte: its remainder begins
/// after `from`, within the input, and its span end never reaches past
/// the consumed text.
pub proof fn lemma_outcome_full_consumes(r: RuleModel, s: Seq<u8>, from: int, exact: bool)
    requires
        rule_wf(r),
        0 <= from <= s.len(),
        s.len() <= usize::MAX,
    ensures
        ({
            let o = rule_outcome_spec(r, s, from, exact);
            o.is_full() ==> {
                &&& o.time_shift is Some
                &&& from < o.tail_start <= s.len()
                &&& o.bounds matches Some(b) && b.end_idx == o.tail_start - from - 1
                    && b.start_idx <= o.tail_start - from && (r.steps.len() >= 2 ==> b.start_idx
                    <= b.end_idx)
            }
        }),
{
    lemma_find_from_props(r.steps, s, from, exact);
    match find_from(r.steps, s, from, exact) {
        Option::None => {},
        Option::Some(i) => {
            lemma_run_steps_props(r.steps, s, i, exact);
        },
    }
}

} // verus!
