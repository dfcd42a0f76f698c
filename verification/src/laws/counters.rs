//! The counters agree with what happened.
use vstd::prelude::*;

use super::{accounts, roster, sequences};
use crate::counting;
use crate::engine::model::{self, EngineState, EngineView, TraceView, Turn};
use crate::engine::{turns, upkeep};
use crate::ids::SeqId;
use crate::metrics::{self, EngineMetrics};
use crate::runtime::ModelRuntime;
use crate::scheduler::{PlanView, SchedulerPolicy};
use crate::sequence::{self, SeqView};

verus! {

/// Every preemption is counted as recovered by recompute or by swap (up to
/// wrap-around).
pub open spec fn recoveries_add_up(engine: EngineView) -> bool {
    engine.metrics.preemptions == metrics::bumped(
        engine.metrics.preemptions_recompute,
        engine.metrics.preemptions_swap as nat,
    )
}

/// Counting a split number of events splits the count.
proof fn lemma_bumps_add_up(all: u64, first: u64, second: u64, events: nat, part: nat)
    requires
        all == metrics::bumped(first, second as nat),
        part <= events,
    ensures
        metrics::bumped(all, events) == metrics::bumped(
            metrics::bumped(first, part),
            metrics::bumped(second, (events - part) as nat) as nat,
        ),
{
    let m: int = 0x1_0000_0000_0000_0000;
    vstd::arithmetic::div_mod::lemma_add_mod_noop(first + part, second + (events - part), m);
    vstd::arithmetic::div_mod::lemma_add_mod_noop_right(events as int, first + second, m);
}

/// **Recoveries add up.** However a step goes, every preemption it counts is
/// counted as one recovery.
pub proof fn law_recoveries_add_up(engine: EngineView, plan: PlanView, turns: Seq<Turn>)
    requires
        recoveries_add_up(engine),
    ensures
        recoveries_add_up(engine.stepped(plan, turns)),
{
    let arranged = engine.arranged(plan);
    turns::lemma_executed_frame(arranged, plan, turns, arranged.running.len());
    let evicted = engine.evicted(plan.preempt);
    let short = model::not_longer_than(engine.config.swap_threshold_tokens);
    evicted.lemma_filter_len(short);
    lemma_bumps_add_up(
        engine.metrics.preemptions,
        engine.metrics.preemptions_recompute,
        engine.metrics.preemptions_swap,
        evicted.len(),
        evicted.filter(short).len(),
    );
}

/// Filtering by what holds of everything keeps everything.
proof fn lemma_all_kept<T>(items: Seq<T>, keep: spec_fn(T) -> bool)
    requires
        forall|i: int| 0 <= i < items.len() ==> keep(#[trigger] items[i]),
    ensures
        items.filter(keep) == items,
    decreases items.len(),
{
    reveal(Seq::filter);
    if items.len() > 0 {
        let rest = items.drop_last();
        assert forall|i: int| 0 <= i < rest.len() implies keep(#[trigger] rest[i]) by {
            assert(rest[i] == items[i]);
        }
        lemma_all_kept(rest, keep);
        assert(keep(items[items.len() - 1]));
        assert(rest.push(items.last()) =~= items);
    }
}

/// **Recovery follows the threshold.** A threshold that no victim exceeds counts
/// only recomputes; one that every victim exceeds counts only swaps.
pub proof fn law_recovery_follows_the_threshold(
    engine: EngineView,
    plan: PlanView,
    turns: Seq<Turn>,
)
    ensures
        ({
            let evicted = engine.evicted(plan.preempt);
            let limit = engine.config.swap_threshold_tokens;
            let before = engine.metrics;
            let after = engine.stepped(plan, turns).metrics;
            &&& (forall|i: int| 0 <= i < evicted.len() ==> (#[trigger] evicted[i]).len() <= limit)
                ==> after.preemptions_swap == before.preemptions_swap
            &&& (forall|i: int| 0 <= i < evicted.len() ==> (#[trigger] evicted[i]).len() > limit)
                ==> after.preemptions_recompute == before.preemptions_recompute
        }),
{
    let arranged = engine.arranged(plan);
    turns::lemma_executed_frame(arranged, plan, turns, arranged.running.len());
    let evicted = engine.evicted(plan.preempt);
    let limit = engine.config.swap_threshold_tokens;
    let short = model::not_longer_than(limit);
    if forall|i: int| 0 <= i < evicted.len() ==> (#[trigger] evicted[i]).len() <= limit {
        lemma_all_kept(evicted, short);
    }
    if forall|i: int| 0 <= i < evicted.len() ==> (#[trigger] evicted[i]).len() > limit {
        if evicted.filter(short).len() > 0 {
            let j = crate::engine::upkeep::lemma_filter_source(evicted, short, 0);
        }
    }
}

/// **Counters agree with the trace.** A successful step counts itself, the
/// sequences that its trace lists as admitted, preempted and finished, and
/// reports the step index it had.
pub proof fn law_counters_agree_with_the_trace(
    engine: EngineView,
    plan: PlanView,
    turns: Seq<Turn>,
)
    requires
        engine.step_result(plan, turns) is Ok,
    ensures
        ({
            let trace = engine.step_result(plan, turns)->Ok_0;
            let before = engine.metrics;
            let after = engine.stepped(plan, turns).metrics;
            &&& after.steps == metrics::bumped(before.steps, 1)
            &&& after.sequences_admitted == metrics::bumped(
                before.sequences_admitted,
                trace.admitted.len(),
            )
            &&& after.preemptions == metrics::bumped(before.preemptions, trace.preempted.len())
            &&& after.sequences_finished == metrics::bumped(
                before.sequences_finished,
                trace.finished.len(),
            )
            &&& trace.step == engine.step_count
            &&& engine.stepped(plan, turns).step_count == metrics::bumped(engine.step_count, 1)
        }),
{
    let arranged = engine.arranged(plan);
    turns::lemma_executed_frame(arranged, plan, turns, arranged.running.len());
}

/// Counting in two goes is counting the sum.
proof fn lemma_bump_twice(counter: u64, a: nat, b: nat)
    ensures
        metrics::bumped(metrics::bumped(counter, a), b) == metrics::bumped(counter, a + b),
{
    let m: int = 0x1_0000_0000_0000_0000;
    vstd::arithmetic::div_mod::lemma_add_mod_noop_right(b as int, counter + a, m);
}

/// How many tokens a sequence has generated.
pub open spec fn output_lens() -> spec_fn(SeqView) -> nat {
    |seq: SeqView| seq.output.len()
}

/// How many tokens all of the engine's sequences have generated.
pub open spec fn outputs(engine: EngineView) -> nat {
    roster::total_weight(engine, output_lens())
}

/// Turns that do not fail count every token that they append.
pub proof fn lemma_executed_tokens(engine: EngineView, plan: PlanView, turns: Seq<Turn>, n: nat)
    requires
        n <= engine.running.len(),
        engine.executed(plan, turns, n).error is None,
    ensures
        ({
            let after = engine.executed(plan, turns, n).engine;
            let grown = counting::sum(after.running, output_lens()) - counting::sum(
                engine.running,
                output_lens(),
            );
            &&& grown >= 0
            &&& after.metrics.tokens_generated == metrics::bumped(
                engine.metrics.tokens_generated,
                grown as nat,
            )
        }),
    decreases n,
{
    if n > 0 {
        let k = (n - 1) as nat;
        let idx = n - 1;
        lemma_executed_tokens(engine, plan, turns, k);
        turns::lemma_executed_frame(engine, plan, turns, k);
        let before = engine.executed(plan, turns, k).engine;
        let after = engine.executed(plan, turns, n).engine;
        let start = counting::sum(engine.running, output_lens());
        let (x, y) = (
            counting::sum(before.running, output_lens()),
            counting::sum(after.running, output_lens()),
        );
        assert(after.running =~= before.running.update(idx, after.running[idx]));
        counting::lemma_sum_update(before.running, idx, after.running[idx], output_lens());
        lemma_bump_twice(engine.metrics.tokens_generated, (x - start) as nat, 1);
        assert(y == x || y == x + 1);
    }
}

/// **Every generated token is counted.** A successful step adds to the count of
/// generated tokens exactly as many as all outputs together have grown by.
pub proof fn law_generated_tokens_are_counted(
    engine: EngineView,
    plan: PlanView,
    turns: Seq<Turn>,
)
    requires
        engine.step_result(plan, turns) is Ok,
    ensures
        outputs(engine.stepped(plan, turns)) >= outputs(engine),
        engine.stepped(plan, turns).metrics.tokens_generated == metrics::bumped(
            engine.metrics.tokens_generated,
            (outputs(engine.stepped(plan, turns)) - outputs(engine)) as nat,
        ),
{
    let arranged = engine.arranged(plan);
    let n = arranged.running.len();
    let executed = arranged.executed(plan, turns, n).engine;
    let weight = output_lens();
    let done = executed.running.filter(model::is_done());
    roster::lemma_arranged_weight(engine, plan, weight);
    lemma_executed_tokens(arranged, plan, turns, n);
    turns::lemma_executed_frame(arranged, plan, turns, n);
    roster::lemma_sum_kept(done, model::to_unmapped(), weight);
    counting::lemma_sum_add(executed.finished, done.map_values(model::to_unmapped()), weight);
    counting::lemma_sum_split(executed.running, model::is_done(), model::is_not_done(), weight);
}

/// One for every sequence.
pub open spec fn each() -> spec_fn(SeqView) -> nat {
    |seq: SeqView| 1
}

/// Adding up ones counts.
proof fn lemma_each(seqs: Seq<SeqView>)
    ensures
        counting::sum(seqs, each()) == seqs.len(),
    decreases seqs.len(),
{
    if seqs.len() > 0 {
        lemma_each(seqs.drop_last());
    }
}

/// How many sequences the engine holds.
pub open spec fn population(engine: EngineView) -> nat {
    engine.waiting.len() + engine.running.len() + engine.finished.len()
}

/// A step keeps the number of sequences.
pub proof fn lemma_population(engine: EngineView, plan: PlanView, turns: Seq<Turn>)
    ensures
        population(engine.stepped(plan, turns)) == population(engine),
{
    let after = engine.stepped(plan, turns);
    roster::lemma_stepped_weight(engine, plan, turns, each());
    lemma_each(engine.waiting);
    lemma_each(engine.running);
    lemma_each(engine.finished);
    lemma_each(after.waiting);
    lemma_each(after.running);
    lemma_each(after.finished);
}

/// Applying a plan keeps the number of sequences that wait or run.
pub proof fn lemma_arranged_population(engine: EngineView, plan: PlanView)
    ensures
        engine.arranged(plan).waiting.len() + engine.arranged(plan).running.len()
            == engine.waiting.len() + engine.running.len(),
{
    let after = engine.arranged(plan);
    roster::lemma_moves_keep(each());
    roster::lemma_arranged_weight(engine, plan, each());
    lemma_each(engine.waiting);
    lemma_each(engine.running);
    lemma_each(after.waiting);
    lemma_each(after.running);
}

/// The ids that the traces list as finished, one trace after the other.
pub open spec fn finished_ids(traces: Seq<TraceView>) -> Seq<SeqId>
    decreases traces.len(),
{
    if traces.len() == 0 {
        Seq::empty()
    } else {
        finished_ids(traces.drop_last()) + traces.last().finished
    }
}

/// What a run from `start` to `post` with the given traces adds up to.
#[verifier::opaque]
pub open spec fn adds_up(start: EngineView, traces: Seq<TraceView>, post: EngineView) -> bool {
    &&& forall|i: int|
        0 <= i < traces.len() ==> (#[trigger] traces[i]).step == metrics::bumped(
            start.step_count,
            i as nat,
        )
    &&& post.step_count == metrics::bumped(start.step_count, traces.len())
    &&& post.metrics.steps == metrics::bumped(start.metrics.steps, traces.len())
    &&& model::ids_of(post.finished) == model::ids_of(start.finished) + finished_ids(traces)
    &&& post.metrics.sequences_finished == metrics::bumped(
        start.metrics.sequences_finished,
        finished_ids(traces).len(),
    )
    &&& population(post) == population(start)
    &&& outputs(post) >= outputs(start)
    &&& post.metrics.tokens_generated == metrics::bumped(
        start.metrics.tokens_generated,
        (outputs(post) - outputs(start)) as nat,
    )
}

/// One step more adds up if the run so far does.
proof fn lemma_one_more_adds_up(
    start: EngineView,
    traces: Seq<TraceView>,
    last: EngineView,
    plan: PlanView,
    turns: Seq<Turn>,
)
    requires
        adds_up(start, traces, last),
        last.step_result(plan, turns) is Ok,
    ensures
        adds_up(
            start,
            traces.push(last.step_result(plan, turns)->Ok_0),
            last.stepped(plan, turns),
        ),
{
    reveal(adds_up);
    let trace = last.step_result(plan, turns)->Ok_0;
    let post = last.stepped(plan, turns);
    let all = traces.push(trace);
    let arranged = last.arranged(plan);
    let n = arranged.running.len();
    let executed = arranged.executed(plan, turns, n).engine;
    let done = executed.running.filter(model::is_done());
    turns::lemma_executed_frame(arranged, plan, turns, n);
    law_counters_agree_with_the_trace(last, plan, turns);
    law_generated_tokens_are_counted(last, plan, turns);
    lemma_population(last, plan, turns);
    assert(all.drop_last() =~= traces);
    assert(model::ids_of(done.map_values(model::to_unmapped())) =~= model::ids_of(done));
    assert(model::ids_of(post.finished) =~= model::ids_of(last.finished) + trace.finished);
    assert(finished_ids(all) == finished_ids(traces) + trace.finished);
    assert(model::ids_of(post.finished) =~= model::ids_of(start.finished) + finished_ids(all));
    lemma_bump_twice(start.step_count, traces.len(), 1);
    lemma_bump_twice(start.metrics.steps, traces.len(), 1);
    lemma_bump_twice(
        start.metrics.sequences_finished,
        finished_ids(traces).len(),
        trace.finished.len(),
    );
    lemma_bump_twice(
        start.metrics.tokens_generated,
        (outputs(last) - outputs(start)) as nat,
        (outputs(post) - outputs(last)) as nat,
    );
    assert forall|i: int| 0 <= i < all.len() implies (#[trigger] all[i]).step == metrics::bumped(
        start.step_count,
        i as nat,
    ) by {
        if i < traces.len() {
            assert(all[i] == traces[i]);
        }
    }
}

/// Taking no step adds up.
proof fn lemma_nothing_adds_up(engine: EngineView)
    ensures
        adds_up(engine, Seq::empty(), engine),
{
    reveal(adds_up);
    let ids = model::ids_of(engine.finished);
    assert(ids + finished_ids(Seq::empty()) =~= ids);
}

/// The first `n` steps of a run add up.
proof fn lemma_trail_adds_up<R: ModelRuntime, P: SchedulerPolicy>(
    trail: Seq<EngineState<R, P>>,
    traces: Seq<TraceView>,
    n: int,
)
    requires
        model::runs(trail, traces),
        0 <= n <= traces.len(),
    ensures
        adds_up(trail[0].core, traces.take(n), trail[n].core),
    decreases n,
{
    if n == 0 {
        assert(traces.take(0) =~= Seq::empty());
        lemma_nothing_adds_up(trail[0].core);
    } else {
        lemma_trail_adds_up(trail, traces, n - 1);
        assert(model::runs_at(trail, traces, n - 1));
        let (plan, turns, states) =
            choose|plan: PlanView, turns: Seq<Turn>, states: Seq<R>| #[trigger]
            trail[n - 1].steps_by(plan, turns, states, Ok(traces[n - 1]), trail[n]);
        lemma_one_more_adds_up(trail[0].core, traces.take(n - 1), trail[n - 1].core, plan, turns);
        assert(traces.take(n) =~= traces.take(n - 1).push(traces[n - 1]));
    }
}

/// **A run adds up.** Its traces are numbered in order; the finished sequences
/// are those that its traces list, one trace after the other, and are counted;
/// no sequence comes or goes; and every generated token is counted.
pub proof fn law_runs_add_up<R: ModelRuntime, P: SchedulerPolicy>(
    start: EngineState<R, P>,
    traces: Seq<TraceView>,
    post: EngineState<R, P>,
)
    requires
        model::runs_to(start, traces, post),
    ensures
        adds_up(start.core, traces, post.core),
{
    let trail = choose|trail: Seq<EngineState<R, P>>| #[trigger]
        model::runs(trail, traces) && trail[0] == start && trail.last() == post;
    lemma_trail_adds_up(trail, traces, traces.len() as int);
    assert(traces.take(traces.len() as int) =~= traces);
}

/// The engine holds requests that have generated nothing yet, and has done
/// nothing yet.
pub open spec fn untouched(engine: EngineView) -> bool {
    &&& engine.running.len() == 0
    &&& engine.finished.len() == 0
    &&& engine.metrics == EngineMetrics::zero()
    &&& engine.step_count == 0
    &&& forall|i: int|
        0 <= i < engine.waiting.len() ==> (#[trigger] engine.waiting[i]).output.len() == 0
}

/// **A whole run adds up.** When a new engine has run until it is idle, its
/// traces are numbered from zero, as many sequences have finished as were
/// submitted, in the order in which the traces list them, and the counters say
/// how many they are, how many steps they took and how many tokens they have.
pub proof fn law_whole_runs_add_up<R: ModelRuntime, P: SchedulerPolicy>(
    start: EngineState<R, P>,
    traces: Seq<TraceView>,
    post: EngineState<R, P>,
)
    requires
        untouched(start.core),
        model::runs_to(start, traces, post),
        post.core.idle(),
    ensures
        forall|i: int|
            0 <= i < traces.len() ==> (#[trigger] traces[i]).step == metrics::bumped(0, i as nat),
        model::ids_of(post.core.finished) == finished_ids(traces),
        post.core.finished.len() == start.core.waiting.len(),
        post.core.metrics.steps == metrics::bumped(0, traces.len()),
        post.core.metrics.sequences_finished == metrics::bumped(0, start.core.waiting.len()),
        post.core.metrics.tokens_generated == metrics::bumped(
            0,
            counting::sum(post.core.finished, output_lens()),
        ),
{
    reveal(adds_up);
    law_runs_add_up(start, traces, post);
    counting::lemma_sum_nothing(start.core.waiting, output_lens());
    assert(model::ids_of(start.core.finished) + finished_ids(traces) =~= finished_ids(traces));
    assert(model::ids_of(post.core.finished).len() == post.core.finished.len());
}

/// **Counting adds, and wraps around.** Unless it wraps, a counter after `n` events
/// is `n` higher; when it does, it is so up to multiples of the counter's range.
pub proof fn law_counting_adds(counter: u64, n: nat)
    ensures
        counter + n <= u64::MAX ==> metrics::bumped(counter, n) == counter + n,
        (counter + n - metrics::bumped(counter, n)) % 0x1_0000_0000_0000_0000 == 0,
        metrics::bumped(metrics::bumped(counter, n), 1) == metrics::bumped(counter, n + 1),
{
    let m: int = 0x1_0000_0000_0000_0000;
    lemma_bump_twice(counter, n, 1);
    vstd::arithmetic::div_mod::lemma_fundamental_div_mod(counter + n, m);
    vstd::arithmetic::div_mod::lemma_mod_multiples_basic((counter + n) / m, m);
    assert(counter + n - metrics::bumped(counter, n) == (counter + n) / m * m);
}

/// **A new engine's counters are at zero.**
pub proof fn law_counters_start_at_zero()
    ensures
        ({
            let zero = EngineMetrics::zero();
            &&& zero.steps == 0
            &&& zero.sequences_admitted == 0
            &&& zero.sequences_finished == 0
            &&& zero.tokens_generated == 0
            &&& zero.preemptions == 0
            &&& zero.preemptions_recompute == 0
            &&& zero.preemptions_swap == 0
            &&& zero.blocks_shared == 0
        }),
{
}

/// Turns that do not fail count every block that is mapped without being taken
/// from the free ones.
proof fn lemma_executed_shares(engine: EngineView, plan: PlanView, turns: Seq<Turn>, n: nat)
    requires
        engine.mid_step(plan, 0),
        n <= engine.running.len(),
        engine.executed(plan, turns, n).error is None,
    ensures
        ({
            let after = engine.executed(plan, turns, n).engine;
            let mapped = accounts::mapped_blocks(after.running) - accounts::mapped_blocks(
                engine.running,
            );
            let taken = engine.pool.free.len() - after.pool.free.len();
            &&& 0 <= taken <= mapped
            &&& after.metrics.blocks_shared == metrics::bumped(
                engine.metrics.blocks_shared,
                (mapped - taken) as nat,
            )
        }),
    decreases n,
{
    if n > 0 {
        let k = (n - 1) as nat;
        let idx = n - 1;
        lemma_executed_shares(engine, plan, turns, k);
        turns::lemma_executed_frame(engine, plan, turns, k);
        upkeep::lemma_executed_mid_step(engine, plan, turns, k);
        let before = engine.executed(plan, turns, k).engine;
        let after = engine.executed(plan, turns, n).engine;
        let seq = before.running[idx];
        let lens = accounts::table_lens();
        let ask = before.ask(plan, idx);
        let mid = if ask is Prefill {
            before.prefix_mapped(idx).engine
        } else {
            before
        };
        if ask is Prefill {
            upkeep::lemma_prefix_mapped(before, plan, idx);
            sequences::law_mapping_shares_or_caches(before.pool, seq.unmapped_hashes());
            sequence::lemma_share_growth(before.pool, seq.unmapped_hashes());
        }
        let pool = mid.pool;
        assert forall|m: nat| m <= pool.free.len() implies (#[trigger] pool.taken(m)).free.len()
            == pool.free.len() - m by {
            pool.lemma_taken(m);
        }
        assert(after.running =~= before.running.update(idx, after.running[idx]));
        counting::lemma_sum_update(before.running, idx, after.running[idx], lens);
        let x = accounts::mapped_blocks(before.running) - accounts::mapped_blocks(engine.running)
            - (engine.pool.free.len() - before.pool.free.len());
        let shared = if ask is Prefill {
            sequence::share_blocks(before.pool, seq.unmapped_hashes()).shared
        } else {
            0
        };
        lemma_bump_twice(engine.metrics.blocks_shared, x as nat, shared);
        assert(after.running[idx].table.len() - seq.table.len() == shared + (
        before.pool.free.len() - after.pool.free.len()));
    }
}

/// **Every shared block is counted.** In a successful step that preempts and
/// finishes nobody, the tables grow by the blocks that leave the free list and
/// those that are shared, and it is the shared ones that are counted.
pub proof fn law_shared_blocks_are_counted<R: ModelRuntime, P: SchedulerPolicy>(
    start: EngineState<R, P>,
    trace: TraceView,
    post: EngineState<R, P>,
)
    requires
        start.core.wf(),
        start.steppable(),
        forall|i: int|
            0 <= i < start.core.waiting.len() ==> (
            #[trigger] start.core.waiting[i]).table.len() == 0,
        start.steps(Ok(trace), post),
        trace.preempted.len() == 0,
        trace.finished.len() == 0,
    ensures
        ({
            let mapped = accounts::mapped_blocks(post.core.running) - accounts::mapped_blocks(
                start.core.running,
            );
            let taken = start.core.pool.free.len() - post.core.pool.free.len();
            &&& 0 <= taken <= mapped
            &&& post.core.metrics.blocks_shared as int == (start.core.metrics.blocks_shared
                + mapped - taken) % 0x1_0000_0000_0000_0000
        }),
{
    let (plan, turns, states) = choose|plan: PlanView, turns: Seq<Turn>, states: Seq<R>| #[trigger]
        start.steps_by(plan, turns, states, Ok(trace), post);
    let engine = start.core;
    let arranged = engine.arranged(plan);
    let n = arranged.running.len();
    assert(engine.executable(plan));
    upkeep::lemma_stepped_wf(engine, plan, turns);
    lemma_executed_shares(arranged, plan, turns, n);
    turns::lemma_executed_frame(arranged, plan, turns, n);
    let executed = arranged.executed(plan, turns, n).engine;
    let lens = accounts::table_lens();
    // Nobody is evicted, and whoever is admitted holds no blocks.
    let mid = engine.after_preempt(plan.preempt);
    let evicted = engine.evicted(plan.preempt);
    assert(evicted.len() == 0);
    assert(mid.waiting =~= engine.waiting);
    let admitted = mid.admissible(plan.prefill);
    let joined = admitted.map_values(model::to_running());
    assert forall|i: int| 0 <= i < joined.len() implies lens(#[trigger] joined[i]) == 0 by {
        let j = upkeep::lemma_filter_source(mid.waiting, model::named_in(plan.prefill), i);
        assert(engine.waiting[j].table.len() == 0);
    }
    counting::lemma_sum_nothing(joined, lens);
    counting::lemma_sum_add(mid.running, joined, lens);
    counting::lemma_sum_split(
        engine.running,
        model::named_in(plan.preempt),
        model::not_named_in(plan.preempt),
        lens,
    );
    // Nobody finishes.
    let done = executed.running.filter(model::is_done());
    assert(done.len() == 0);
    counting::lemma_sum_split(executed.running, model::is_done(), model::is_not_done(), lens);
}

} // verus!
