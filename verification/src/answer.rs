//! What the proposer answers depends on the request alone.

use crate::error::CuResult;
use crate::inventory::InventoryModel;
use crate::lexical::lemma_better_irreflexive;
use crate::lexical::lemma_lists_irreflexive;
use crate::model::CuContract;
use crate::model::CuProfile;
use crate::model::Model;
use crate::propose::decides;
use crate::propose::lane_workers;
use crate::propose::least_rate;
use crate::propose::pick;
use crate::propose::worker_predictions;
use crate::propose::workers_of;
use crate::propose::CuCandidate;
use crate::propose::ProposeRequest;
use crate::propose::SameFn;
use crate::search::agrees;
use crate::search::attempt;
use crate::search::climb;
use crate::search::explored;
use crate::search::is_ranked;
use crate::search::lemma_ranks_transitive;
use crate::search::list_schedule;
use crate::search::random_move;
use crate::search::ranked_view;
use crate::search::ranks_before;
use crate::search::ranks_explored;
use crate::search::ranks_runnable;
use crate::search::score_of;
use crate::search::tiers;
use crate::search::wander;
use crate::search::Climb;
use crate::search::ScoreFn;
use crate::search::KICK;
use crate::shape::lists_of;
use crate::timeline::pairs_of;
use crate::timeline::Assignment;
use crate::timeline::Evaluation;
use crate::timeline::EvaluationModel;
use crate::validity::valid;
use crate::validity::validation_accepts_exactly_the_valid_plans;
use vstd::prelude::*;

verus! {

/// Whether two models say the same.
pub open spec fn alike(a: Model, b: Model) -> bool {
    &&& a.inventory@ == b.inventory@
    &&& lists_of(a.units@) == lists_of(b.units@)
    &&& a.cost@ == b.cost@
    &&& lists_of(a.preds@) == lists_of(b.preds@)
    &&& a.copperlist_ns == b.copperlist_ns
    &&& a.cycle_ns == b.cycle_ns
    &&& pairs_of(a.chains@) == pairs_of(b.chains@)
    &&& lists_of(a.sources@) == lists_of(b.sources@)
    &&& a.cpus@ == b.cpus@
    &&& a.max_in_flight == b.max_in_flight
    &&& a.policy == b.policy
    &&& a.deadline_objective == b.deadline_objective
}

proof fn lemma_models_alike(
    a: Model,
    b: Model,
    inventory: InventoryModel,
    contract: CuContract,
    profile: CuProfile,
    rate: Option<u64>,
)
    requires
        a.models(inventory, contract, profile, rate),
        b.models(inventory, contract, profile, rate),
    ensures
        alike(a, b),
{
    assert forall|c: int| 0 <= c < a.chains@.len() implies #[trigger] a.chains@[c]@ == b.chains@[c]@ by {
        assert(a.chains@[c]@ == inventory.chain_units(contract.chains@[c]));
        assert(b.chains@[c]@ == inventory.chain_units(contract.chains@[c]));
    }
    assert(pairs_of(a.chains@) =~= pairs_of(b.chains@));
}

proof fn lemma_units_alike(a: Model, b: Model)
    requires
        alike(a, b),
    ensures
        a.units@.len() == b.units@.len(),
        a.sources@.len() == b.sources@.len(),
{
    assert(lists_of(a.units@).len() == lists_of(b.units@).len());
    assert(lists_of(a.sources@).len() == lists_of(b.sources@).len());
}

proof fn lemma_wander_alike(a: Model, b: Model, lanes: Seq<Seq<usize>>, state: u64, n: nat)
    requires
        alike(a, b),
    ensures
        wander(a, lanes, state, n) == wander(b, lanes, state, n),
    decreases n,
{
    if n > 0 {
        lemma_wander_alike(a, b, lanes, state, (n - 1) as nat);
    }
}

proof fn lemma_climb_alike(a: Model, b: Model, f: ScoreFn, c: Climb, n: nat)
    requires
        alike(a, b),
    ensures
        climb(a, f, c, n) == climb(b, f, c, n),
    decreases n,
{
    if n > 0 {
        lemma_climb_alike(a, b, f, c, (n - 1) as nat);
        let now = climb(a, f, c, (n - 1) as nat);
        let (candidate, s) = random_move(now.current, now.rng);
        assert(score_of(a, f, candidate) == score_of(b, f, candidate));
        assert(score_of(a, f, now.current) == score_of(b, f, now.current));
        assert(score_of(a, f, now.best) == score_of(b, f, now.best));
        lemma_wander_alike(a, b, now.best, s, KICK as nat);
    }
}

proof fn lemma_explored_alike(a: Model, b: Model, f: ScoreFn, seed: u64, moves: nat, n: nat)
    requires
        alike(a, b),
    ensures
        explored(a, f, seed, moves, n) == explored(b, f, seed, moves, n),
    decreases n,
{
    if n > 0 {
        let k = (n - 1) as nat;
        lemma_explored_alike(a, b, f, seed, moves, k);
        lemma_units_alike(a, b);
        assert(list_schedule(a) == list_schedule(b));
        lemma_wander_alike(a, b, list_schedule(a), seed.wrapping_add(k as u64), a.units@.len() * 2);
        let seen = explored(a, f, seed, moves, k);
        assert(attempt(a, seed, k, seen) == attempt(b, seed, k, seen));
        lemma_climb_alike(a, b, f, attempt(a, seed, k, seen), moves);
    }
}

/// An assignment with its score.
type Ranked = (Seq<u64>, Seq<Seq<usize>>);

/// Whether entries ascend in rank and have scores of one length.
spec fn ascends(list: Seq<Ranked>, width: nat) -> bool {
    &&& forall|i: int| 0 <= i < list.len() ==> (#[trigger] list[i]).0.len() == width
    &&& forall|i: int, j: int| 0 <= i < j < list.len() ==> ranks_before(#[trigger] list[i], #[trigger] list[j])
}

proof fn lemma_ranks_irreflexive(x: Ranked)
    ensures
        !ranks_before(x, x),
{
    lemma_better_irreflexive(x.0);
    lemma_lists_irreflexive(x.1);
}

/// The last entry of one list is the last one of the other.
proof fn lemma_last_rank(a: Seq<Ranked>, b: Seq<Ranked>, width: nat)
    requires
        ascends(a, width),
        ascends(b, width),
        a.len() > 0,
        b.len() > 0,
        forall|x: Ranked| #[trigger] a.contains(x) <==> b.contains(x),
    ensures
        a.last() == b.last(),
{
    assert(a.contains(a.last()));
    assert(b.contains(b.last()));
    assert(a.contains(b.last()));
    let i = b.index_of(a.last());
    let j = a.index_of(b.last());
    if i < b.len() - 1 && j < a.len() - 1 {
        assert(ranks_before(b[i], b.last()));
        assert(ranks_before(a[j], a.last()));
        lemma_ranks_transitive(a.last(), b.last(), a.last());
        lemma_ranks_irreflexive(a.last());
    }
}

/// Lists that ascend in rank and hold the same entries are the same.
proof fn lemma_ranking_unique(a: Seq<Ranked>, b: Seq<Ranked>, width: nat)
    requires
        ascends(a, width),
        ascends(b, width),
        forall|x: Ranked| #[trigger] a.contains(x) <==> b.contains(x),
    ensures
        a == b,
    decreases a.len(),
{
    if a.len() == 0 {
        if b.len() > 0 {
            assert(b.contains(b[0]));
            assert(a.contains(b[0]));
        }
        assert(a =~= b);
    } else {
        assert(a.contains(a[0]));
        assert(b.contains(a[0]));
        lemma_last_rank(a, b, width);
        let top = a.last();
        let p = a.drop_last();
        let q = b.drop_last();
        assert forall|x: Ranked| #[trigger] p.contains(x) <==> q.contains(x) by {
            if p.contains(x) {
                let i = p.index_of(x);
                assert(a[i] == x && ranks_before(a[i], a.last()));
                lemma_ranks_irreflexive(x);
                assert(a.contains(x));
                let j = b.index_of(x);
                assert(q[j] == x);
            }
            if q.contains(x) {
                let i = q.index_of(x);
                assert(b[i] == x && ranks_before(b[i], b.last()));
                lemma_ranks_irreflexive(x);
                assert(b.contains(x));
                assert(a.contains(x));
                let j = a.index_of(x);
                assert(p[j] == x);
            }
        }
        lemma_ranking_unique(p, q, width);
        assert(a =~= p.push(top));
        assert(b =~= q.push(top));
    }
}

/// What a ranked list says.
pub open spec fn ranked_views(list: Seq<(Vec<u64>, Assignment)>) -> Seq<(Seq<u64>, Seq<Seq<usize>>)> {
    Seq::new(list.len(), |i: int| ranked_view(list[i]))
}

proof fn lemma_like_entries(x: Seq<(Vec<u64>, Assignment)>, y: Seq<(Vec<u64>, Assignment)>, k: int)
    requires
        ranked_views(x) == ranked_views(y),
        0 <= k < x.len(),
    ensures
        k < y.len(),
        ranked_view(x[k]) == ranked_view(y[k]),
{
    assert(ranked_views(x).len() == x.len());
    assert(ranked_views(y).len() == y.len());
    assert(ranked_views(x)[k] == ranked_view(x[k]));
    assert(ranked_views(y)[k] == ranked_view(y[k]));
}

proof fn lemma_holds_ranked(
    a: Model,
    b: Model,
    f: ScoreFn,
    all: Set<Seq<Seq<usize>>>,
    x: Seq<(Vec<u64>, Assignment)>,
    y: Seq<(Vec<u64>, Assignment)>,
    entry: Ranked,
)
    requires
        alike(a, b),
        ranks_explored(a, f, x, all),
        ranks_explored(b, f, y, all),
        ranked_views(x).contains(entry),
    ensures
        ranked_views(y).contains(entry),
{
    let i = ranked_views(x).index_of(entry);
    assert(ranked_view(x[i]) == entry);
    assert(is_ranked(x, entry.1));
    assert(is_ranked(y, entry.1));
    let j = choose|j: int| 0 <= j < y.len() && (#[trigger] y[j]).1@ == entry.1;
    assert(a.evaluation(entry.1) == b.evaluation(entry.1));
    assert(ranked_views(y)[j] == entry);
}

/// Two lists that rank what was explored are the same.
proof fn lemma_lists_alike(
    a: Model,
    b: Model,
    f: ScoreFn,
    all: Set<Seq<Seq<usize>>>,
    x: Seq<(Vec<u64>, Assignment)>,
    y: Seq<(Vec<u64>, Assignment)>,
)
    requires
        alike(a, b),
        ranks_runnable(a, x),
        ranks_runnable(b, y),
        ranks_explored(a, f, x, all),
        ranks_explored(b, f, y, all),
    ensures
        ranked_views(x) == ranked_views(y),
{
    let p = ranked_views(x);
    let q = ranked_views(y);
    let width = tiers(a.deadline_objective);
    assert(ascends(p, width)) by {
        assert forall|i: int| 0 <= i < p.len() implies (#[trigger] p[i]).0.len() == width by {
            assert(x[i].0@.len() == width);
        }
        assert forall|i: int, j: int| 0 <= i < j < p.len() implies ranks_before(#[trigger] p[i], #[trigger] p[j]) by {
            assert(ranks_before(ranked_view(x[i]), ranked_view(x[j])));
        }
    }
    assert(ascends(q, width)) by {
        assert forall|i: int| 0 <= i < q.len() implies (#[trigger] q[i]).0.len() == width by {
            assert(y[i].0@.len() == width);
        }
        assert forall|i: int, j: int| 0 <= i < j < q.len() implies ranks_before(#[trigger] q[i], #[trigger] q[j]) by {
            assert(ranks_before(ranked_view(y[i]), ranked_view(y[j])));
        }
    }
    assert forall|e: Ranked| #[trigger] p.contains(e) <==> q.contains(e) by {
        if p.contains(e) {
            lemma_holds_ranked(a, b, f, all, x, y, e);
        }
        if q.contains(e) {
            lemma_holds_ranked(b, a, f, all, y, x, e);
        }
    }
    lemma_ranking_unique(p, q, width);
}

proof fn lemma_pick_alike(
    g: SameFn,
    x: Seq<(Vec<u64>, Assignment)>,
    y: Seq<(Vec<u64>, Assignment)>,
    limit: nat,
    n: nat,
)
    requires
        ranked_views(x) == ranked_views(y),
        n <= x.len(),
    ensures
        pick(g, x, limit, n) == pick(g, y, limit, n),
        forall|i: int| 0 <= i < pick(g, x, limit, n).len() ==> 0 <= #[trigger] pick(g, x, limit, n)[i] < n,
    decreases n,
{
    if n > 0 {
        lemma_pick_alike(g, x, y, limit, (n - 1) as nat);
        let rest = pick(g, x, limit, (n - 1) as nat);
        lemma_like_entries(x, y, n - 1);
        assert forall|i: int| 0 <= i < rest.len() implies x[#[trigger] rest[i]].0@ == y[rest[i]].0@ by {
            lemma_like_entries(x, y, rest[i]);
        }
        assert((exists|i: int| 0 <= i < rest.len() && g(x[n - 1].0@, x[#[trigger] rest[i]].0@)) == (exists|i: int|
            0 <= i < rest.len() && g(y[n - 1].0@, y[#[trigger] rest[i]].0@))) by {
            if exists|i: int| 0 <= i < rest.len() && g(x[n - 1].0@, x[#[trigger] rest[i]].0@) {
                let i = choose|i: int| 0 <= i < rest.len() && g(x[n - 1].0@, x[#[trigger] rest[i]].0@);
                assert(g(y[n - 1].0@, y[rest[i]].0@));
            }
            if exists|i: int| 0 <= i < rest.len() && g(y[n - 1].0@, y[#[trigger] rest[i]].0@) {
                let i = choose|i: int| 0 <= i < rest.len() && g(y[n - 1].0@, y[#[trigger] rest[i]].0@);
                assert(g(x[n - 1].0@, x[rest[i]].0@));
            }
        }
    }
}

proof fn lemma_workers_alike(a: Model, b: Model, lanes: Seq<Seq<usize>>, e: EvaluationModel, n: nat)
    requires
        alike(a, b),
    ensures
        lane_workers(a, lanes, n) == lane_workers(b, lanes, n),
        worker_predictions(a, lanes, e, n) == worker_predictions(b, lanes, e, n),
    decreases n,
{
    if n > 0 {
        lemma_workers_alike(a, b, lanes, e, (n - 1) as nat);
    }
}

proof fn lemma_least_alike(a: Model, b: Model, lanes: Seq<Seq<usize>>, e: EvaluationModel, n: nat)
    requires
        alike(a, b),
    ensures
        least_rate(a, lanes, e, n) == least_rate(b, lanes, e, n),
    decreases n,
{
    if n > 0 {
        lemma_least_alike(a, b, lanes, e, (n - 1) as nat);
    }
}

/// Whether two candidates say the same.
pub open spec fn same_candidate(a: CuCandidate, b: CuCandidate) -> bool {
    &&& a.score@ == b.score@
    &&& a.plan.inventory@ == b.plan.inventory@
    &&& a.plan.max_in_flight == b.plan.max_in_flight
    &&& workers_of(a.plan.workers@) == workers_of(b.plan.workers@)
    &&& a.plan.dispatcher == b.plan.dispatcher
    &&& a.prediction.chains.map() == b.prediction.chains.map()
    &&& a.prediction.workers.map() == b.prediction.workers.map()
    &&& a.prediction.sources.map() == b.prediction.sources.map()
}

/// Whether two answers say the same.
pub open spec fn same_answer(a: CuResult<Vec<CuCandidate>>, b: CuResult<Vec<CuCandidate>>) -> bool {
    match (a, b) {
        (Ok(x), Ok(y)) => x@.len() == y@.len() && forall|i: int|
            0 <= i < x@.len() ==> same_candidate(#[trigger] x@[i], y@[i]),
        (Err(x), Err(y)) => x@ == y@,
        _ => false,
    }
}

/// The choice among what was explored is the same.
proof fn lemma_choices_alike<F: Fn(&Evaluation) -> Vec<u64>, G: Fn(&Vec<u64>, &Vec<u64>) -> bool>(
    request: ProposeRequest<'_>,
    score: F,
    same: G,
    f: ScoreFn,
    g: SameFn,
    a: Model,
    x: Seq<(Vec<u64>, Assignment)>,
    p: Seq<int>,
    b: Model,
    y: Seq<(Vec<u64>, Assignment)>,
    q: Seq<int>,
)
    requires
        request.inventory is Some,
        agrees(score, f),
        decides(same, g),
        request.chooses(score, same, a, x, p),
        request.chooses(score, same, b, y, q),
    ensures
        alike(a, b),
        ranked_views(x) == ranked_views(y),
        p == q,
{
    let attempts: nat = if request.restarts == 0 {
        1
    } else {
        request.restarts as nat
    };
    lemma_models_alike(a, b, request.inventory->0@, *request.contract, *request.profile, request.rate_target_hz);
    lemma_explored_alike(a, b, f, request.seed, request.moves as nat, attempts);
    lemma_lists_alike(a, b, f, explored(a, f, request.seed, request.moves as nat, attempts), x, y);
    assert(ranked_views(x).len() == ranked_views(y).len());
    lemma_pick_alike(g, x, y, request.candidates as nat, x.len());
}

/// The schedules of like entries are the same, and validation finds nothing
/// wrong with one exactly when it is valid.
proof fn lemma_schedules_alike(
    request: ProposeRequest<'_>,
    a: Model,
    x: (Vec<u64>, Assignment),
    b: Model,
    y: (Vec<u64>, Assignment),
)
    requires
        request.shape@.wf(),
        request.inventory is Some,
        request.inventory->0@.steps.len() <= usize::MAX,
        request.shape@.keys.len() <= usize::MAX,
        alike(a, b),
        ranked_view(x) == ranked_view(y),
    ensures
        request.schedule(a, x) == request.schedule(b, y),
        request.schedule(a, x).failure(request.pools@, request.shape@) is None <==> valid(
            request.schedule(a, x),
            request.pools@,
            request.shape@,
        ),
{
    let lanes = x.1@;
    lemma_workers_alike(a, b, lanes, a.evaluation(lanes), lanes.len());
    validation_accepts_exactly_the_valid_plans(request.schedule(a, x), request.pools@, request.shape@);
}

/// The candidates of like entries say the same.
proof fn lemma_candidates_alike(
    request: ProposeRequest<'_>,
    a: Model,
    x: (Vec<u64>, Assignment),
    s: CuCandidate,
    b: Model,
    y: (Vec<u64>, Assignment),
    t: CuCandidate,
)
    requires
        request.inventory is Some,
        alike(a, b),
        a.models(request.inventory->0@, *request.contract, *request.profile, request.rate_target_hz),
        ranked_view(x) == ranked_view(y),
        request.is_candidate(a, x, s),
        request.is_candidate(b, y, t),
    ensures
        same_candidate(s, t),
{
    let lanes = x.1@;
    let e = a.evaluation(lanes);
    assert(e == b.evaluation(lanes));
    lemma_workers_alike(a, b, lanes, e, lanes.len());
    lemma_least_alike(a, b, lanes, e, lanes.len());
}

/// Whether an answer is that of a choice.
spec fn tells(
    request: ProposeRequest<'_>,
    model: Model,
    list: Seq<(Vec<u64>, Assignment)>,
    chosen: Seq<int>,
    r: CuResult<Vec<CuCandidate>>,
) -> bool {
    match r {
        Ok(candidates) => candidates@.len() == chosen.len() && forall|i: int|
            0 <= i < chosen.len() ==> #[trigger] request.is_candidate(model, list[chosen[i]], candidates@[i]),
        Err(e) => exists|i: int| 0 <= i < chosen.len() && #[trigger] request.fails_at(model, list, chosen, i, e@),
    }
}

/// The answers of like choices say the same.
proof fn lemma_answers_alike(
    request: ProposeRequest<'_>,
    a: Model,
    x: Seq<(Vec<u64>, Assignment)>,
    b: Model,
    y: Seq<(Vec<u64>, Assignment)>,
    chosen: Seq<int>,
    first: CuResult<Vec<CuCandidate>>,
    second: CuResult<Vec<CuCandidate>>,
)
    requires
        request.wf(),
        request.inventory is Some,
        request.inventory->0@.steps.len() <= usize::MAX,
        request.shape@.keys.len() <= usize::MAX,
        alike(a, b),
        a.models(request.inventory->0@, *request.contract, *request.profile, request.rate_target_hz),
        ranked_views(x) == ranked_views(y),
        forall|i: int| 0 <= i < chosen.len() ==> 0 <= (#[trigger] chosen[i]) < x.len(),
        tells(request, a, x, chosen, first),
        tells(request, b, y, chosen, second),
    ensures
        same_answer(first, second),
{
    assert forall|i: int| 0 <= i < chosen.len() implies ranked_view(x[#[trigger] chosen[i]]) == ranked_view(y[chosen[i]]) by {
        lemma_like_entries(x, y, chosen[i]);
    }
    match (first, second) {
        (Ok(s), Ok(t)) => {
            assert forall|i: int| 0 <= i < s@.len() implies same_candidate(#[trigger] s@[i], t@[i]) by {
                assert(request.is_candidate(a, x[chosen[i]], s@[i]));
                assert(request.is_candidate(b, y[chosen[i]], t@[i]));
                lemma_candidates_alike(request, a, x[chosen[i]], s@[i], b, y[chosen[i]], t@[i]);
            }
        },
        (Ok(s), Err(e)) => {
            let i = choose|i: int| 0 <= i < chosen.len() && #[trigger] request.fails_at(b, y, chosen, i, e@);
            assert(request.is_candidate(a, x[chosen[i]], s@[i]));
            lemma_schedules_alike(request, a, x[chosen[i]], b, y[chosen[i]]);
        },
        (Err(e), Ok(t)) => {
            let i = choose|i: int| 0 <= i < chosen.len() && #[trigger] request.fails_at(a, x, chosen, i, e@);
            assert(request.is_candidate(b, y[chosen[i]], t@[i]));
            lemma_schedules_alike(request, a, x[chosen[i]], b, y[chosen[i]]);
        },
        (Err(d), Err(e)) => {
            let i = choose|i: int| 0 <= i < chosen.len() && #[trigger] request.fails_at(a, x, chosen, i, d@);
            let j = choose|j: int| 0 <= j < chosen.len() && #[trigger] request.fails_at(b, y, chosen, j, e@);
            lemma_schedules_alike(request, a, x[chosen[i]], b, y[chosen[i]]);
            lemma_schedules_alike(request, a, x[chosen[j]], b, y[chosen[j]]);
            if i < j {
                assert(valid(request.schedule(b, y[chosen[i]]), request.pools@, request.shape@));
            } else if j < i {
                assert(valid(request.schedule(a, x[chosen[j]]), request.pools@, request.shape@));
            }
        },
    }
}

/// The same request has the same answer: where the scores and the decision on
/// equal candidates are functions of what they are given, two answers to one
/// request say the same.
pub proof fn same_request_same_answer<F: Fn(&Evaluation) -> Vec<u64>, G: Fn(&Vec<u64>, &Vec<u64>) -> bool>(
    request: ProposeRequest<'_>,
    score: F,
    same: G,
    f: ScoreFn,
    g: SameFn,
    first: CuResult<Vec<CuCandidate>>,
    second: CuResult<Vec<CuCandidate>>,
)
    requires
        request.wf(),
        request.inventory is Some,
        request.inventory->0@.steps.len() <= usize::MAX,
        request.shape@.keys.len() <= usize::MAX,
        agrees(score, f),
        decides(same, g),
        request.answers(score, same, first),
        request.answers(score, same, second),
    ensures
        same_answer(first, second),
{
    let (a, x, p) = choose|model: Model, list: Seq<(Vec<u64>, Assignment)>, chosen: Seq<int>| #[trigger]
        request.chooses(score, same, model, list, chosen) && tells(request, model, list, chosen, first);
    let (b, y, q) = choose|model: Model, list: Seq<(Vec<u64>, Assignment)>, chosen: Seq<int>| #[trigger]
        request.chooses(score, same, model, list, chosen) && tells(request, model, list, chosen, second);
    lemma_choices_alike(request, score, same, f, g, a, x, p, b, y, q);
    lemma_answers_alike(request, a, x, b, y, p, first, second);
}

} // verus!
