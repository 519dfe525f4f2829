//! The best-fit alternative selector: runs every candidate recognizer at
//! the same position, keeps the minimum observed edit distance, selects
//! the unique candidate achieving it, and refuses to guess on a tie.

use vstd::prelude::*;
use vstd::string::StringSliceAdditionalSpecFns;

use crate::recognize::Recognizer;
use crate::recognize::RecModel;
use crate::recognize::attempt;
use crate::recognize::attempt_spec;
use crate::recognize::lemma_attempt_consumes;
use crate::recognize::rec_wf;
use crate::tokens::ErrorKind;
use crate::tokens::TokenMatch;

verus! {

/// Every recognizer of a candidate list is well formed.
pub open spec fn recs_wf(cs: Seq<RecModel>) -> bool {
    forall|i: int| 0 <= i < cs.len() ==> rec_wf(#[trigger] cs[i])
}

/// The state after folding the candidate list left to right: nothing
/// selected yet, or the first candidate achieving the least distance
/// seen so far together with how many candidates achieved it.
pub open spec fn bf_fold(cs: Seq<RecModel>, s: Seq<u8>, from: int, exact: bool) -> Option<
    (TokenMatch, int),
>
    decreases cs.len(),
{
    if cs.len() == 0 {
        Option::None
    } else {
        let st = bf_fold(cs.drop_last(), s, from, exact);
        match attempt_spec(cs.last(), s, from, exact) {
            Err(_) => st,
            Ok(tm) => match st {
                Option::None => Option::Some((tm, 1)),
                Option::Some((sel, cnt)) => if tm.dist < sel.dist {
                    Option::Some((tm, 1))
                } else if tm.dist == sel.dist {
                    Option::Some((sel, cnt + 1))
                } else {
                    Option::Some((sel, cnt))
                },
            },
        }
    }
}

/// What the best-fit selector returns: `Unknown` when no candidate
/// matches, the unique best match when exactly one candidate achieves
/// the least observed distance, and `Ambiguous` when two or more tie.
pub open spec fn best_fit_spec(cs: Seq<RecModel>, s: Seq<u8>, from: int, exact: bool) -> Result<
    TokenMatch,
    ErrorKind,
> {
    match bf_fold(cs, s, from, exact) {
        Option::None => Err(ErrorKind::Unknown),
        Option::Some((sel, cnt)) => if cnt == 1 {
            Ok(sel)
        } else {
            Err(ErrorKind::Ambiguous)
        },
    }
}

/// Runs every candidate recognizer at position `from` of `s` and selects
/// the unique one matching at the least edit distance.
pub fn best_fit_at(s: &[u8], from: usize, exact: bool, cs: &Vec<Recognizer>) -> (r: Result<
    TokenMatch,
    ErrorKind,
>)
    requires
        from <= s@.len(),
        recs_wf(cs@.map_values(|c: Recognizer| c@)),
    ensures
        r == best_fit_spec(cs@.map_values(|c: Recognizer| c@), s@, from as int, exact),
{
    let ghost model = cs@.map_values(|c: Recognizer| c@);
    let mut sel: Option<TokenMatch> = None;
    let mut cnt: usize = 0;
    let mut i: usize = 0;
    while i < cs.len()
        invariant
            from <= s@.len(),
            i <= cs@.len(),
            model == cs@.map_values(|c: Recognizer| c@),
            recs_wf(model),
            cnt <= i,
            match sel {
                Option::None => cnt == 0 && bf_fold(model.take(i as int), s@, from as int, exact)
                    is None,
                Option::Some(tm) => cnt >= 1 && bf_fold(model.take(i as int), s@, from as int, exact)
                    == Option::Some((tm, cnt as int)),
            },
        decreases cs@.len() - i,
    {
        proof {
            assert(model.take(i + 1).drop_last() =~= model.take(i as int));
            assert(model.take(i + 1).last() == model[i as int]);
            assert(rec_wf(model[i as int]));
        }
        let r = attempt(&cs[i], s, from, exact);
        match r {
            Err(_) => {},
            Ok(tm) => {
                match sel {
                    Option::None => {
                        sel = Some(tm);
                        cnt = 1;
                    },
                    Option::Some(prev) => {
                        if tm.dist < prev.dist {
                            sel = Some(tm);
                            cnt = 1;
                        } else if tm.dist == prev.dist {
                            cnt = cnt + 1;
                        }
                    },
                }
            },
        }
        i = i + 1;
    }
    proof {
        assert(model.take(cs@.len() as int) =~= model);
    }
    match sel {
        Option::None => Err(ErrorKind::Unknown),
        Option::Some(tm) => {
            if cnt == 1 {
                Ok(tm)
            } else {
                Err(ErrorKind::Ambiguous)
            }
        },
    }
}

/// Runs the best-fit selector from the start of `input`: the public
/// entry, stated over the bytes of the input.
pub fn best_fit(input: &str, exact: bool, cs: &Vec<Recognizer>) -> (r: Result<
    TokenMatch,
    ErrorKind,
>)
    requires
        recs_wf(cs@.map_values(|c: Recognizer| c@)),
    ensures
        r == best_fit_spec(cs@.map_values(|c: Recognizer| c@), input.spec_bytes(), 0, exact),
{
    best_fit_at(input.as_bytes(), 0, exact, cs)
}

/// Whether candidate `i` matches at this position.
pub open spec fn ok_at(cs: Seq<RecModel>, s: Seq<u8>, from: int, exact: bool, i: int) -> bool {
    attempt_spec(cs[i], s, from, exact) is Ok
}

/// The edit distance at which candidate `i` matches.
pub open spec fn dist_at(cs: Seq<RecModel>, s: Seq<u8>, from: int, exact: bool, i: int) -> usize {
    (attempt_spec(cs[i], s, from, exact)->Ok_0).dist
}

/// What the fold state means: nothing is selected exactly when no
/// candidate matches; otherwise the selected match comes from a
/// candidate whose distance no other match undercuts, a count of one
/// means the minimum is achieved by exactly one candidate, and a larger
/// count means at least two candidates tie at the minimum.
pub proof fn lemma_bf_fold_characterization(cs: Seq<RecModel>, s: Seq<u8>, from: int, exact: bool)
    ensures
        bf_fold(cs, s, from, exact) is None <==> (forall|i: int|
            0 <= i < cs.len() ==> !ok_at(cs, s, from, exact, i)),
        bf_fold(cs, s, from, exact) matches Some((sel, cnt)) ==> {
            &&& cnt >= 1
            &&& exists|i: int|
                0 <= i < cs.len() && #[trigger] attempt_spec(cs[i], s, from, exact) == Ok::<
                    TokenMatch,
                    ErrorKind,
                >(sel)
            &&& forall|i: int|
                0 <= i < cs.len() && #[trigger] ok_at(cs, s, from, exact, i) ==> dist_at(
                    cs,
                    s,
                    from,
                    exact,
                    i,
                ) >= sel.dist
            &&& cnt == 1 ==> forall|i: int, j: int|
                0 <= i < cs.len() && 0 <= j < cs.len() && #[trigger] ok_at(cs, s, from, exact, i)
                    && #[trigger] ok_at(cs, s, from, exact, j) && dist_at(cs, s, from, exact, i)
                    == sel.dist && dist_at(cs, s, from, exact, j) == sel.dist ==> i == j
            &&& cnt >= 2 ==> exists|i: int, j: int|
                0 <= i < j < cs.len() && #[trigger] ok_at(cs, s, from, exact, i)
                    && #[trigger] ok_at(cs, s, from, exact, j) && dist_at(cs, s, from, exact, i)
                    == sel.dist && dist_at(cs, s, from, exact, j) == sel.dist
        },
    decreases cs.len(),
{
    if cs.len() > 0 {
        let cs2 = cs.drop_last();
        let n = cs.len() - 1;
        assert(cs.last() == cs[n]);
        lemma_bf_fold_characterization(cs2, s, from, exact);
        assert(forall|i: int| 0 <= i < n ==> cs2[i] == cs[i]);
        assert(forall|i: int|
            0 <= i < n ==> #[trigger] ok_at(cs, s, from, exact, i) == ok_at(cs2, s, from, exact, i));
        assert(forall|i: int|
            0 <= i < n ==> #[trigger] dist_at(cs, s, from, exact, i) == dist_at(
                cs2,
                s,
                from,
                exact,
                i,
            ));
        assert(forall|i: int|
            0 <= i < n ==> #[trigger] attempt_spec(cs[i], s, from, exact) == attempt_spec(
                cs2[i],
                s,
                from,
                exact,
            ));
        match attempt_spec(cs.last(), s, from, exact) {
            Err(_) => {
                assert(!ok_at(cs, s, from, exact, n));
                match bf_fold(cs2, s, from, exact) {
                    Option::None => {},
                    Option::Some((sel, cnt)) => {
                        let i0 = choose|i: int|
                            0 <= i < cs2.len() && #[trigger] attempt_spec(cs2[i], s, from, exact)
                                == Ok::<TokenMatch, ErrorKind>(sel);
                        assert(attempt_spec(cs[i0], s, from, exact) == Ok::<TokenMatch, ErrorKind>(
                            sel,
                        ));
                        if cnt >= 2 {
                            let (ia, ja) = choose|i: int, j: int|
                                0 <= i < j < cs2.len() && #[trigger] ok_at(cs2, s, from, exact, i)
                                    && #[trigger] ok_at(cs2, s, from, exact, j) && dist_at(
                                    cs2,
                                    s,
                                    from,
                                    exact,
                                    i,
                                ) == sel.dist && dist_at(cs2, s, from, exact, j) == sel.dist;
                            assert(0 <= ia < ja < cs.len() && ok_at(cs, s, from, exact, ia)
                                && ok_at(cs, s, from, exact, ja) && dist_at(cs, s, from, exact, ia)
                                == sel.dist && dist_at(cs, s, from, exact, ja) == sel.dist);
                        }
                    },
                }
            },
            Ok(tm) => {
                assert(ok_at(cs, s, from, exact, n));
                assert(dist_at(cs, s, from, exact, n) == tm.dist);
                match bf_fold(cs2, s, from, exact) {
                    Option::None => {
                        assert(attempt_spec(cs[n], s, from, exact) == Ok::<TokenMatch, ErrorKind>(
                            tm,
                        ));
                    },
                    Option::Some((sel, cnt)) => {
                        let i0 = choose|i: int|
                            0 <= i < cs2.len() && #[trigger] attempt_spec(cs2[i], s, from, exact)
                                == Ok::<TokenMatch, ErrorKind>(sel);
                        assert(attempt_spec(cs[i0], s, from, exact) == Ok::<TokenMatch, ErrorKind>(
                            sel,
                        ));
                        assert(ok_at(cs, s, from, exact, i0) && dist_at(cs, s, from, exact, i0)
                            == sel.dist);
                        if tm.dist < sel.dist {
                            assert(attempt_spec(cs[n], s, from, exact) == Ok::<
                                TokenMatch,
                                ErrorKind,
                            >(tm));
                        } else if tm.dist == sel.dist {
                            assert(0 <= i0 < n && ok_at(cs, s, from, exact, i0) && ok_at(
                                cs,
                                s,
                                from,
                                exact,
                                n,
                            ) && dist_at(cs, s, from, exact, i0) == sel.dist && dist_at(
                                cs,
                                s,
                                from,
                                exact,
                                n,
                            ) == sel.dist);
                        } else {
                            if bf_fold(cs, s, from, exact)->Some_0.1 >= 2 {
                                let (ia, ja) = choose|i: int, j: int|
                                    0 <= i < j < cs2.len() && #[trigger] ok_at(
                                        cs2,
                                        s,
                                        from,
                                        exact,
                                        i,
                                    ) && #[trigger] ok_at(cs2, s, from, exact, j) && dist_at(
                                        cs2,
                                        s,
                                        from,
                                        exact,
                                        i,
                                    ) == sel.dist && dist_at(cs2, s, from, exact, j) == sel.dist;
                                assert(0 <= ia < ja < cs.len() && ok_at(cs, s, from, exact, ia)
                                    && ok_at(cs, s, from, exact, ja) && dist_at(
                                    cs,
                                    s,
                                    from,
                                    exact,
                                    ia,
                                ) == sel.dist && dist_at(cs, s, from, exact, ja) == sel.dist);
                            }
                        }
                    },
                }
            },
        }
        if bf_fold(cs, s, from, exact) is None {
            assert(bf_fold(cs2, s, from, exact) is None);
            assert forall|i: int| 0 <= i < cs.len() implies !ok_at(cs, s, from, exact, i) by {
                if i < n {
                    assert(!ok_at(cs2, s, from, exact, i));
                } else {
                    assert(cs[i] == cs.last());
                }
            }
        }
    }
    if bf_fold(cs, s, from, exact) is Some {
        lemma_bf_fold_is_attempt(cs, s, from, exact);
        let sel = bf_fold(cs, s, from, exact)->Some_0.0;
        let iw = choose|i: int|
            0 <= i < cs.len() && attempt_spec(#[trigger] cs[i], s, from, exact) == Ok::<
                TokenMatch,
                ErrorKind,
            >(sel);
        assert(ok_at(cs, s, from, exact, iw));
    }
}

/// The best-fit contract in terms of the candidates themselves: no
/// candidate matching yields `Unknown`; a successful result is the
/// match of a candidate that achieves the least observed distance,
/// achieved by no other candidate; a tie at the least distance yields
/// `Ambiguous`.
pub proof fn lemma_best_fit_characterization(cs: Seq<RecModel>, s: Seq<u8>, from: int, exact: bool)
    ensures
        best_fit_spec(cs, s, from, exact) == Err::<TokenMatch, ErrorKind>(ErrorKind::Unknown)
            <==> (forall|i: int| 0 <= i < cs.len() ==> !ok_at(cs, s, from, exact, i)),
        best_fit_spec(cs, s, from, exact) matches Ok(tm) ==> {
            &&& exists|i: int|
                0 <= i < cs.len() && #[trigger] attempt_spec(cs[i], s, from, exact) == Ok::<
                    TokenMatch,
                    ErrorKind,
                >(tm)
            &&& forall|i: int|
                0 <= i < cs.len() && #[trigger] ok_at(cs, s, from, exact, i) ==> dist_at(
                    cs,
                    s,
                    from,
                    exact,
                    i,
                ) >= tm.dist
            &&& forall|i: int, j: int|
                0 <= i < cs.len() && 0 <= j < cs.len() && #[trigger] ok_at(cs, s, from, exact, i)
                    && #[trigger] ok_at(cs, s, from, exact, j) && dist_at(cs, s, from, exact, i)
                    == tm.dist && dist_at(cs, s, from, exact, j) == tm.dist ==> i == j
        },
        best_fit_spec(cs, s, from, exact) == Err::<TokenMatch, ErrorKind>(ErrorKind::Ambiguous)
            ==> exists|i: int, j: int|
            0 <= i < j < cs.len() && #[trigger] ok_at(cs, s, from, exact, i) && #[trigger] ok_at(
                cs,
                s,
                from,
                exact,
                j,
            ) && dist_at(cs, s, from, exact, i) == dist_at(cs, s, from, exact, j),
{
    lemma_bf_fold_characterization(cs, s, from, exact);
}

/// A selected best fit is the result of one of the candidates, so it
/// consumes at least one byte and stops within the input.
pub proof fn lemma_bf_fold_is_attempt(cs: Seq<RecModel>, s: Seq<u8>, from: int, exact: bool)
    ensures
        bf_fold(cs, s, from, exact) matches Some((sel, cnt)) ==> cnt >= 1 && exists|i: int|
            0 <= i < cs.len() && attempt_spec(#[trigger] cs[i], s, from, exact) == Ok::<
                TokenMatch,
                ErrorKind,
            >(sel),
    decreases cs.len(),
{
    if cs.len() > 0 {
        lemma_bf_fold_is_attempt(cs.drop_last(), s, from, exact);
        if bf_fold(cs, s, from, exact) is Some {
            let (sel, cnt) = bf_fold(cs, s, from, exact)->Some_0;
            let last = cs.last();
            if attempt_spec(last, s, from, exact) == Ok::<TokenMatch, ErrorKind>(sel) {
                assert(cs[cs.len() - 1] == last);
            } else {
                let (psel, pcnt) = bf_fold(cs.drop_last(), s, from, exact)->Some_0;
                assert(psel == sel);
                let i = choose|i: int|
                    0 <= i < cs.drop_last().len() && attempt_spec(
                        #[trigger] cs.drop_last()[i],
                        s,
                        from,
                        exact,
                    ) == Ok::<TokenMatch, ErrorKind>(sel);
                assert(cs[i] == cs.drop_last()[i]);
            }
        }
    }
}

/// A successful best fit consumes at least one byte and stops within
/// the input.
pub proof fn lemma_best_fit_consumes(cs: Seq<RecModel>, s: Seq<u8>, from: int, exact: bool)
    requires
        0 <= from <= s.len(),
        s.len() <= usize::MAX,
    ensures
        best_fit_spec(cs, s, from, exact) matches Ok(tm) ==> from < tm.end <= s.len(),
{
    lemma_bf_fold_is_attempt(cs, s, from, exact);
    if best_fit_spec(cs, s, from, exact) is Ok {
        let tm = best_fit_spec(cs, s, from, exact)->Ok_0;
        let i = choose|i: int|
            0 <= i < cs.len() && attempt_spec(#[trigger] cs[i], s, from, exact) == Ok::<
                TokenMatch,
                ErrorKind,
            >(tm);
        lemma_attempt_consumes(cs[i], s, from, exact);
    }
}

} // verus!
