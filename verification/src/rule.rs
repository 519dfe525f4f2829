//! Rules: a fixed ordered sequence of recognizers applied contiguously,
//! searched forward from every position of the input until it matches.

use vstd::prelude::*;

use crate::best_fit::best_fit_at;
use crate::best_fit::best_fit_spec;
use crate::best_fit::lemma_best_fit_consumes;
use crate::best_fit::recs_wf;
use crate::recognize::RecModel;
use crate::recognize::Recognizer;
use crate::recognize::attempt;
use crate::recognize::attempt_spec;
use crate::recognize::lemma_attempt_consumes;
use crate::recognize::rec_wf;
use crate::tokens::ErrorKind;
use crate::tokens::TokenMatch;

verus! {

/// One step of a rule: a single recognizer, or a best-fit choice among
/// several alternatives for the same slot.
#[derive(Debug, Clone, PartialEq, Eq)]
pub enum RuleStep {
    One(Recognizer),
    AnyOf(Vec<Recognizer>),
}

/// The mathematical model of a `RuleStep`.
#[verifier::ext_equal]
pub enum StepModel {
    One(RecModel),
    AnyOf(Seq<RecModel>),
}

impl View for RuleStep {
    type V = StepModel;

    open spec fn view(&self) -> StepModel {
        match self {
            RuleStep::One(c) => StepModel::One(c@),
            RuleStep::AnyOf(cs) => StepModel::AnyOf(cs@.map_values(|c: Recognizer| c@)),
        }
    }
}

/// A step is well formed when its recognizers are.
pub open spec fn step_wf(st: StepModel) -> bool {
    match st {
        StepModel::One(c) => rec_wf(c),
        StepModel::AnyOf(cs) => recs_wf(cs),
    }
}

/// What one step returns at position `from` of `s`.
pub open spec fn step_spec(st: StepModel, s: Seq<u8>, from: int, exact: bool) -> Result<
    TokenMatch,
    ErrorKind,
> {
    match st {
        StepModel::One(c) => attempt_spec(c, s, from, exact),
        StepModel::AnyOf(cs) => best_fit_spec(cs, s, from, exact),
    }
}

/// Runs one step at position `from` of `s`.
pub fn run_step(st: &RuleStep, s: &[u8], from: usize, exact: bool) -> (r: Result<
    TokenMatch,
    ErrorKind,
>)
    requires
        from <= s@.len(),
        step_wf(st@),
    ensures
        r == step_spec(st@, s@, from as int, exact),
{
    match st {
        RuleStep::One(c) => attempt(c, s, from, exact),
        RuleStep::AnyOf(cs) => best_fit_at(s, from, exact, cs),
    }
}

/// A successful step consumes at least one byte and stops within the
/// input.
pub proof fn lemma_step_consumes(st: StepModel, s: Seq<u8>, from: int, exact: bool)
    requires
        0 <= from <= s.len(),
        s.len() <= usize::MAX,
    ensures
        step_spec(st, s, from, exact) matches Ok(tm) ==> from < tm.end <= s.len(),
{
    match st {
        StepModel::One(c) => lemma_attempt_consumes(c, s, from, exact),
        StepModel::AnyOf(cs) => lemma_best_fit_consumes(cs, s, from, exact),
    }
}

/// Every step of a sequence is well formed.
pub open spec fn steps_wf(steps: Seq<StepModel>) -> bool {
    forall|i: int| 0 <= i < steps.len() ==> step_wf(#[trigger] steps[i])
}

/// What applying the steps of a rule in order, contiguously from
/// position `from`, returns: the token match of every step and the
/// position just past the consumed text, or nothing as soon as a step
/// fails.
pub open spec fn run_steps_spec(
    steps: Seq<StepModel>,
    s: Seq<u8>,
    from: int,
    exact: bool,
) -> Option<(Seq<TokenMatch>, int)>
    decreases steps.len(),
{
    if steps.len() == 0 {
        Option::Some((Seq::empty(), from))
    } else {
        match run_steps_spec(steps.drop_last(), s, from, exact) {
            Option::None => Option::None,
            Option::Some((tms, p)) => match step_spec(steps.last(), s, p, exact) {
                Err(_) => Option::None,
                Ok(tm) => Option::Some((tms.push(tm), tm.end as int)),
            },
        }
    }
}

/// When the steps all match, there is one token match per step, the end
/// lies within the input, and a non-empty rule consumes at least one
/// byte.
pub proof fn lemma_run_steps_props(steps: Seq<StepModel>, s: Seq<u8>, from: int, exact: bool)
    requires
        0 <= from <= s.len(),
        s.len() <= usize::MAX,
    ensures
        run_steps_spec(steps, s, from, exact) matches Some(r) ==> {
            &&& r.0.len() == steps.len()
            &&& from <= r.1 <= s.len()
            &&& steps.len() > 0 ==> from < r.1
            &&& steps.len() >= 2 ==> from + 2 <= r.1
        },
    decreases steps.len(),
{
    if steps.len() > 0 {
        lemma_run_steps_props(steps.drop_last(), s, from, exact);
        match run_steps_spec(steps.drop_last(), s, from, exact) {
            Option::None => {},
            Option::Some((tms, p)) => {
                lemma_step_consumes(steps.last(), s, p, exact);
            },
        }
    }
}

/// Once a prefix of the steps fails, the whole rule fails.
pub proof fn lemma_run_steps_none(steps: Seq<StepModel>, s: Seq<u8>, from: int, exact: bool, n: int)
    requires
        0 <= n <= steps.len(),
        run_steps_spec(steps.take(n), s, from, exact) is None,
    ensures
        run_steps_spec(steps, s, from, exact) is None,
    decreases steps.len() - n,
{
    if n < steps.len() {
        assert(steps.take(n + 1).drop_last() =~= steps.take(n));
        lemma_run_steps_none(steps, s, from, exact, n + 1);
    } else {
        assert(steps.take(n) =~= steps);
    }
}

/// Applies the steps in order, contiguously from position `from`.
pub fn run_steps(steps: &Vec<RuleStep>, s: &[u8], from: usize, exact: bool) -> (r: Option<
    (Vec<TokenMatch>, usize),
>)
    requires
        from <= s@.len(),
        steps_wf(steps@.map_values(|st: RuleStep| st@)),
    ensures
        ({
            let m = run_steps_spec(steps@.map_values(|st: RuleStep| st@), s@, from as int, exact);
            match r {
                Option::None => m is None,
                Option::Some((v, p)) => m == Option::Some((v@, p as int)),
            }
        }),
{
    proof {
        vstd::slice::axiom_spec_len(s);
    }
    let ghost model = steps@.map_values(|st: RuleStep| st@);
    let mut out: Vec<TokenMatch> = Vec::new();
    let mut pos: usize = from;
    let mut i: usize = 0;
    while i < steps.len()
        invariant
            s@.len() <= usize::MAX,
            from <= pos <= s@.len(),
            i <= steps@.len(),
            model == steps@.map_values(|st: RuleStep| st@),
            steps_wf(model),
            run_steps_spec(model.take(i as int), s@, from as int, exact) == Option::Some(
                (out@, pos as int),
            ),
        decreases steps@.len() - i,
    {
        proof {
            assert(model.take(i + 1).drop_last() =~= model.take(i as int));
            assert(model.take(i + 1).last() == model[i as int]);
            assert(step_wf(model[i as int]));
        }
        match run_step(&steps[i], s, pos, exact) {
            Err(_) => {
                proof {
                    lemma_run_steps_none(model, s@, from as int, exact, i + 1);
                }
                return Option::None;
            },
            Ok(tm) => {
                proof {
                    lemma_step_consumes(model[i as int], s@, pos as int, exact);
                }
                out.push(tm);
                pos = tm.end;
            },
        }
        i = i + 1;
    }
    proof {
        assert(model.take(steps@.len() as int) =~= model);
    }
    Option::Some((out, pos))
}

/// The least position at or after `from` where the rule's steps all
/// match contiguously, if there is one.
pub open spec fn find_from(steps: Seq<StepModel>, s: Seq<u8>, from: int, exact: bool) -> Option<int>
    decreases s.len() - from + 1,
{
    if from > s.len() {
        Option::None
    } else if run_steps_spec(steps, s, from, exact) is Some {
        Option::Some(from)
    } else {
        find_from(steps, s, from + 1, exact)
    }
}

/// A found position lies between `from` and the end of the input, the
/// rule matches there, and at no earlier position.
pub proof fn lemma_find_from_props(steps: Seq<StepModel>, s: Seq<u8>, from: int, exact: bool)
    requires
        0 <= from,
    ensures
        find_from(steps, s, from, exact) matches Some(i) ==> {
            &&& from <= i <= s.len()
            &&& run_steps_spec(steps, s, i, exact) is Some
            &&& forall|j: int| from <= j < i ==> run_steps_spec(steps, s, j, exact) is None
        },
        find_from(steps, s, from, exact) is None ==> forall|j: int|
            from <= j <= s.len() ==> run_steps_spec(steps, s, j, exact) is None,
    decreases s.len() - from + 1,
{
    if from <= s.len() && !(run_steps_spec(steps, s, from, exact) is Some) {
        lemma_find_from_props(steps, s, from + 1, exact);
    }
}

/// Searches forward from `from` for the first position where the rule's
/// steps all match contiguously, skipping any leading characters that
/// belong to no recognizer.
pub fn find_rule_match(steps: &Vec<RuleStep>, s: &[u8], from: usize, exact: bool) -> (r: Option<
    (usize, Vec<TokenMatch>, usize),
>)
    requires
        from <= s@.len(),
        steps_wf(steps@.map_values(|st: RuleStep| st@)),
    ensures
        ({
            let model = steps@.map_values(|st: RuleStep| st@);
            match r {
                Option::None => find_from(model, s@, from as int, exact) is None,
                Option::Some((i, v, p)) => {
                    &&& find_from(model, s@, from as int, exact) == Option::Some(i as int)
                    &&& run_steps_spec(model, s@, i as int, exact) == Option::Some((v@, p as int))
                },
            }
        }),
{
    let ghost model = steps@.map_values(|st: RuleStep| st@);
    let mut i: usize = from;
    loop
        invariant
            from <= i <= s@.len(),
            model == steps@.map_values(|st: RuleStep| st@),
            steps_wf(model),
            find_from(model, s@, from as int, exact) == find_from(model, s@, i as int, exact),
        decreases s@.len() - i,
    {
        match run_steps(steps, s, i, exact) {
            Option::Some((v, p)) => {
                return Option::Some((i, v, p));
            },
            Option::None => {
                if i == s.len() {
                    proof {
                        assert(find_from(model, s@, i as int, exact) == find_from(
                            model,
                            s@,
                            i as int + 1,
                            exact,
                        ));
                        assert(find_from(model, s@, i as int + 1, exact) is None);
                    }
                    return Option::None;
                }
                i = i + 1;
            },
        }
    }
}

} // verus!
