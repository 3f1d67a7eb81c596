//! Iterative fixing: diagnose, plan and apply, round after round, until a
//! round changes nothing or the round limit is reached.
use vstd::prelude::*;
use crate::apply::{all_fixes, apply_outcome, apply_plan, ApplyResult};
use crate::diagnostics::{Diagnostic, Diagnostics};
use crate::fix::{diag_fits, generate_plan, plan_matches, FixPlan, Plan};
use crate::text::{chars_eq_lit, chars_of, lines, owned};

verus! {

/// `p` is the repair plan made for the diagnostics `d` of source `s`: one
/// plan per diagnostic, in order, each repeating it and carrying its fixes.
pub open spec fn plan_for(p: FixPlan, d: Diagnostics, s: Seq<char>) -> bool {
    &&& p.file@ == d.file@
    &&& p.ok
    &&& p.plans@.len() == d.diagnostics@.len()
    &&& forall|k: int| 0 <= k < p.plans@.len() ==> plan_matches(#[trigger] p.plans@[k], d.diagnostics@[k], lines(s))
}

/// A round after which the fixing stops: nothing applied, or the source
/// unchanged.
pub open spec fn settles(s: Seq<char>, r: ApplyResult) -> bool {
    r.applied == 0 || r.patched_source@ == s
}

/// A round on `s` with diagnostics `d` stays within the machine's limits
/// on positions.
pub open spec fn round_fits(d: Diagnostics, s: Seq<char>) -> bool {
    &&& s.len() < usize::MAX / 2
    &&& forall|k: int| 0 <= k < d.diagnostics@.len() ==> diag_fits(#[trigger] d.diagnostics@[k])
}

/// The source that round `k` works on: the original, then what each round
/// left.
pub open spec fn round_source(src: Seq<char>, rs: Seq<ApplyResult>, k: int) -> Seq<char> {
    if k == 0 {
        src
    } else {
        rs[k - 1].patched_source@
    }
}

/// Round `k` applied the plan made for some diagnostics that `diagnose`
/// returned on that round's source.
pub open spec fn round_done<F: Fn(String) -> Diagnostics>(
    diagnose: F,
    src: Seq<char>,
    rs: Seq<ApplyResult>,
    k: int,
) -> bool {
    exists|a: String, d: Diagnostics, p: FixPlan|
        #![trigger diagnose.ensures((a,), d), plan_for(p, d, a@)]
        a@ == round_source(src, rs, k) && diagnose.ensures((a,), d) && plan_for(p, d, a@) && apply_outcome(p, a@, rs[k])
}

fn diag_fits_check(d: &Diagnostic) -> (r: bool)
    ensures
        r == diag_fits(*d),
{
    let m = chars_of(d.message.as_str());
    let code = chars_of(d.code.as_str());
    m.len() < usize::MAX / 2 && (!chars_eq_lit(&code, "LEX005") || d.col < usize::MAX)
}

fn round_fits_check(d: &Diagnostics, s: &str) -> (r: bool)
    ensures
        r == round_fits(*d, s@),
{
    let sc = chars_of(s);
    if sc.len() >= usize::MAX / 2 {
        return false;
    }
    let mut k: usize = 0;
    while k < d.diagnostics.len()
        invariant
            k <= d.diagnostics@.len(),
            forall|j: int| 0 <= j < k ==> diag_fits(#[trigger] d.diagnostics@[j]),
        decreases d.diagnostics@.len() - k,
    {
        if !diag_fits_check(&d.diagnostics[k]) {
            return false;
        }
        k += 1;
    }
    true
}

/// Whether the plan's actions can be counted in a `usize`.
fn fixes_countable(plans: &Vec<Plan>) -> (r: bool)
    ensures
        r == (all_fixes(plans@).len() <= usize::MAX),
{
    let mut total: usize = 0;
    let mut i: usize = 0;
    while i < plans.len()
        invariant
            i <= plans@.len(),
            total == all_fixes(plans@.take(i as int)).len(),
        decreases plans@.len() - i,
    {
        assert(plans@.take(i + 1).drop_last() == plans@.take(i as int));
        proof {
            lemma_all_fixes_grows(plans@, i as int);
        }
        let n = plans[i].fixes.len();
        if total > usize::MAX - n {
            return false;
        }
        total = total + n;
        i += 1;
    }
    assert(plans@.take(plans@.len() as int) == plans@);
    true
}

proof fn lemma_all_fixes_grows(ps: Seq<Plan>, i: int)
    requires
        0 <= i < ps.len(),
    ensures
        forall|j: int| i < j <= ps.len() ==> all_fixes(ps.take(i + 1)).len() <= all_fixes(#[trigger] ps.take(j)).len(),
        all_fixes(ps.take(i + 1)).len() == all_fixes(ps.take(i)).len() + ps[i].fixes@.len(),
    decreases ps.len() - i,
{
    assert(ps.take(i + 1).drop_last() == ps.take(i));
    if i + 1 < ps.len() {
        lemma_all_fixes_grows(ps, i + 1);
    }
}

/// The diagnostics `diagnose` gives for `s` exceed the machine's position
/// limits, or the plan made for them has more actions than a `usize` counts.
pub open spec fn stopped_at_limit<F: Fn(String) -> Diagnostics>(diagnose: F, s: Seq<char>) -> bool {
    exists|a: String, d: Diagnostics|
        #![trigger diagnose.ensures((a,), d)]
        a@ == s && diagnose.ensures((a,), d) && (!round_fits(d, s) || exists|p: FixPlan|
            #![trigger plan_for(p, d, s)]
            plan_for(p, d, s) && all_fixes(p.plans@).len() > usize::MAX)
}

/// Fixes a source iteratively: each round takes the diagnostics `diagnose`
/// gives for the current source, makes their repair plan and applies it; the
/// rounds stop after one that applies nothing or leaves the source unchanged,
/// after `max_rounds` rounds, or before a round whose source, diagnostics or
/// plan exceed the machine's position limits. Returns the final source and
/// each round's result.
pub fn apply_iterative<F: Fn(String) -> Diagnostics>(src: &str, max_rounds: usize, diagnose: F) -> (r: (
    String,
    Vec<ApplyResult>,
))
    requires
        forall|a: String| diagnose.requires((a,)),
    ensures
        r.1@.len() <= max_rounds,
        forall|k: int| 0 <= k < r.1@.len() ==> round_done(diagnose, src@, r.1@, k),
        forall|k: int| 0 <= k < r.1@.len() - 1 ==> !settles(round_source(src@, r.1@, k), #[trigger] r.1@[k]),
        r.0@ == round_source(src@, r.1@, r.1@.len() as int),
        r.1@.len() < max_rounds ==> (r.1@.len() > 0 && settles(
            round_source(src@, r.1@, r.1@.len() - 1),
            r.1@[r.1@.len() - 1],
        )) || stopped_at_limit(diagnose, r.0@),
{
    let mut current = owned(src);
    let mut results: Vec<ApplyResult> = Vec::new();
    let mut round: usize = 0;
    while round < max_rounds
        invariant
            forall|a: String| diagnose.requires((a,)),
            round == results@.len(),
            round <= max_rounds,
            current@ == round_source(src@, results@, round as int),
            forall|k: int| 0 <= k < results@.len() ==> round_done(diagnose, src@, results@, k),
            forall|k: int| 0 <= k < results@.len() ==> !settles(round_source(src@, results@, k), #[trigger] results@[k]),
        decreases max_rounds - round,
    {
        let arg = current.clone();
        let diags = diagnose(arg);
        if !round_fits_check(&diags, current.as_str()) {
            proof {
                assert(diagnose.ensures((arg,), diags));
            }
            return (current, results);
        }
        let plan = generate_plan(&diags, current.as_str());
        if !fixes_countable(&plan.plans) {
            proof {
                assert(plan_for(plan, diags, current@));
                assert(diagnose.ensures((arg,), diags));
            }
            return (current, results);
        }
        let result = apply_plan(&plan, current.as_str());
        let done = result.applied == 0 || chars_eq_lit(&chars_of(result.patched_source.as_str()), current.as_str());
        let next = result.patched_source.clone();
        let ghost old_results = results@;
        results.push(result);
        proof {
            assert forall|k: int| 0 <= k < results@.len() implies round_done(diagnose, src@, results@, k) by {
                if k < old_results.len() {
                    assert(round_done(diagnose, src@, old_results, k));
                    if k > 0 {
                        assert(results@[k - 1] == old_results[k - 1]);
                    }
                    assert(round_source(src@, results@, k) == round_source(src@, old_results, k));
                    let w = choose|a: String, d: Diagnostics, p: FixPlan|
                        #![trigger diagnose.ensures((a,), d), plan_for(p, d, a@)]
                        a@ == round_source(src@, old_results, k) && diagnose.ensures((a,), d) && plan_for(p, d, a@)
                            && apply_outcome(p, a@, old_results[k]);
                    assert(results@[k] == old_results[k]);
                    assert(diagnose.ensures((w.0,), w.1) && plan_for(w.2, w.1, w.0@));
                } else {
                    assert(results@[k] == result);
                    assert(arg@ == round_source(src@, results@, k));
                    assert(diagnose.ensures((arg,), diags) && plan_for(plan, diags, arg@));
                }
            }
        }
        round = round + 1;
        if done {
            proof {
                assert forall|k: int| 0 <= k < results@.len() - 1 implies !settles(
                    round_source(src@, results@, k),
                    #[trigger] results@[k],
                ) by {
                    assert(results@[k] == old_results[k]);
                    if k > 0 {
                        assert(results@[k - 1] == old_results[k - 1]);
                    }
                    assert(round_source(src@, results@, k) == round_source(src@, old_results, k));
                }
                assert(results@[results@.len() - 1] == result);
            }
            current = next;
            return (current, results);
        }
        current = next;
    }
    (current, results)
}

} // verus!
