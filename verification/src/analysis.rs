//! The full measured-forgetting analysis, around the influence of each message.
//!
//! The analysis runs in two halves around the influence computation: the
//! compressible zone and its message signals come first (`compressible_range`,
//! `message_signals`); given the influence key of each message of the zone,
//! `analyze` classifies, scores, finds chains and saturation, plans
//! and builds the summariser's input.

use vstd::prelude::*;

use crate::chains::{causal_chains, detect_chains, CausalChain};
use crate::compaction::{build_compaction_input, lemma_entries_local, preserved_text, summariser_text};
use crate::forgetting::{classification, score_messages, scored_message, ProblemClass, ScoredMessage};
use crate::influence::{is_kth_smallest, kth_smallest};
use crate::plan::{
    detect_saturation, dominant_error, error_count, keys_of, lemma_error_lines_local,
    lemma_planned_lists_local, median_key, plan_compression, planned_lists,
    summariser_instruction_text, summariser_system_text,
};
use crate::Message;

verus! {

/// The compressible zone `(start, end)`: the messages after the original
/// question, except the `recent` last ones (as many of those as there are).
pub open spec fn zone_bounds(n: nat, q: nat, recent: nat) -> (nat, nat) {
    let after = (n - (q + 1)) as nat;
    let keep = if recent <= after {
        recent
    } else {
        after
    };
    (q + 1, (n - keep) as nat)
}

/// The compressible zone of a conversation of `len` messages whose original
/// question is at `original_question_idx`, keeping `recent_count` recent messages.
pub fn compressible_range(len: usize, original_question_idx: usize, recent_count: usize) -> (res:
    std::ops::Range<usize>)
    requires
        original_question_idx < len,
    ensures
        res.start == zone_bounds(len as nat, original_question_idx as nat, recent_count as nat).0,
        res.end == zone_bounds(len as nat, original_question_idx as nat, recent_count as nat).1,
        res.start <= res.end <= len,
{
    let after = len - (original_question_idx + 1);
    let keep = if recent_count <= after {
        recent_count
    } else {
        after
    };
    (original_question_idx + 1)..(len - keep)
}

/// The compressible zone starts right after the question and ends where the
/// recent zone begins; the recent zone holds `recent` messages, or all the
/// messages after the question when there are fewer.
pub proof fn law_zone_bounds(n: nat, q: nat, recent: nat)
    requires
        q < n,
    ensures
        zone_bounds(n, q, recent).0 == q + 1,
        zone_bounds(n, q, recent).0 <= zone_bounds(n, q, recent).1 <= n,
        recent <= n - (q + 1) ==> n - zone_bounds(n, q, recent).1 == recent,
        recent > n - (q + 1) ==> zone_bounds(n, q, recent).1 == q + 1,
{
}

/// Statistics of an analysis. Influences are given by their keys.
#[derive(Debug, Clone)]
pub struct CompactionStats {
    pub total_messages: usize,
    pub preserved_count: usize,
    pub light_compressed: usize,
    pub heavy_compressed: usize,
    pub error_count: usize,
    pub chain_count: usize,
    /// The key of the median influence, when there are scored messages.
    pub median_influence_key: Option<u64>,
    /// The key of the largest influence, when there are scored messages.
    pub max_influence_key: Option<u64>,
}

/// The result of the analysis: what the summariser gets, what is kept
/// verbatim, and the statistics.
pub struct CompactionAnalysis {
    pub text_for_summariser: String,
    pub preserved_text: String,
    pub summariser_system: String,
    pub summariser_instruction: String,
    pub problem_class: ProblemClass,
    pub stats: CompactionStats,
}

/// The scored messages of the compressible zone, with the given influence keys.
pub open spec fn zone_scored(msgs: Seq<Message>, q: nat, recent: nat, keys: Seq<u64>) -> Seq<
    ScoredMessage,
> {
    let (start, end) = zone_bounds(msgs.len(), q, recent);
    Seq::new(
        (end - start) as nat,
        |i: int| scored_message(msgs, start as int, i, msgs[q as int].content@, keys[i]),
    )
}

/// What the analysis gives for a conversation and the influence keys of its zone.
pub open spec fn analysis_matches(
    res: CompactionAnalysis,
    msgs: Seq<Message>,
    q: nat,
    recent: nat,
    keys: Seq<u64>,
) -> bool {
    let scored = zone_scored(msgs, q, recent, keys);
    let chains = causal_chains(scored);
    let class = classification(msgs[q as int].content@, msgs);
    let errors = error_count(scored);
    let lists = planned_lists(scored, median_key(scored), chains, class, msgs);
    &&& res.problem_class == class
    &&& res.stats.total_messages == scored.len()
    &&& res.stats.error_count == errors
    &&& res.stats.chain_count == chains.len()
    &&& if scored.len() == 0 {
        &&& res.stats.preserved_count == 0
        &&& res.stats.light_compressed == 0
        &&& res.stats.heavy_compressed == 0
        &&& res.text_for_summariser@ == summariser_text(seq![], seq![], msgs)
        &&& res.preserved_text@ == Seq::<char>::empty()
        &&& res.summariser_system@ == Seq::<char>::empty()
        &&& res.summariser_instruction@ == Seq::<char>::empty()
        &&& res.stats.median_influence_key is None
        &&& res.stats.max_influence_key is None
    } else {
        &&& res.stats.preserved_count == lists.0.len()
        &&& res.stats.light_compressed == lists.1.len()
        &&& res.stats.heavy_compressed == lists.2.len()
        &&& res.text_for_summariser@ == summariser_text(lists.1, lists.2, msgs)
        &&& res.preserved_text@ == preserved_text(lists.0, msgs)
        &&& res.summariser_system@ == summariser_system_text()
        &&& res.summariser_instruction@ == summariser_instruction_text(
            class,
            errors as usize,
            dominant_error(scored, msgs),
        )
        &&& res.stats.median_influence_key == Some(median_key(scored))
        &&& res.stats.max_influence_key matches Some(m) && is_kth_smallest(
            keys_of(scored),
            scored.len() - 1,
            m,
        )
    }
}

/// Run the measured forgetting analysis once the influence of each
/// message of the compressible zone is known: `influence_keys[i]` is the key
/// of the influence of the `i`-th message of the zone.
pub fn analyze(
    messages: &[Message],
    original_question_idx: usize,
    recent_count: usize,
    influence_keys: &[u64],
) -> (res: CompactionAnalysis)
    requires
        original_question_idx < messages@.len(),
        influence_keys@.len() == zone_bounds(
            messages@.len(),
            original_question_idx as nat,
            recent_count as nat,
        ).1 - zone_bounds(messages@.len(), original_question_idx as nat, recent_count as nat).0,
    ensures
        analysis_matches(
            res,
            messages@,
            original_question_idx as nat,
            recent_count as nat,
            influence_keys@,
        ),
{
    let range = compressible_range(messages.len(), original_question_idx, recent_count);
    let user_question = messages[original_question_idx].content.as_str();

    let problem_class = ProblemClass::classify(user_question, messages);
    let scored = score_messages(messages, range, user_question, influence_keys);
    let ghost zone = zone_scored(
        messages@,
        original_question_idx as nat,
        recent_count as nat,
        influence_keys@,
    );
    assert(scored@ =~= zone);
    let chains = detect_chains(scored.as_slice());
    let saturation = detect_saturation(scored.as_slice(), messages);
    let plan = plan_compression(scored.as_slice(), chains.as_slice(), &saturation, problem_class, messages);
    let (text_for_summariser, preserved) = build_compaction_input(&plan, messages);

    let mut keys: Vec<u64> = Vec::new();
    let mut k: usize = 0;
    while k < scored.len()
        invariant
            k <= scored.len(),
            keys@ == keys_of(scored@).take(k as int),
        decreases scored.len() - k,
    {
        keys.push(scored[k].influence_key);
        k = k + 1;
        assert(keys@ =~= keys_of(scored@).take(k as int));
    }
    assert(keys@ =~= keys_of(scored@));
    let (median_influence_key, max_influence_key) = if scored.len() > 0 {
        let m = kth_smallest(&keys, scored.len() / 2);
        proof {
            crate::influence::lemma_kth_smallest_unique(
                keys_of(scored@),
                (scored@.len() / 2) as int,
                m,
                median_key(scored@),
            );
        }
        (Some(m), Some(kth_smallest(&keys, scored.len() - 1)))
    } else {
        (None, None)
    };
    proof {
        if scored@.len() == 0 {
            assert(plan.compress_light@ =~= Seq::<usize>::empty());
            assert(plan.compress_heavy@ =~= Seq::<usize>::empty());
            assert(plan.preserve_verbatim@ =~= Seq::<usize>::empty());
            assert(preserved@ =~= Seq::<char>::empty());
            assert(plan.summariser_system@ =~= Seq::<char>::empty());
            assert(plan.summariser_instruction@ =~= Seq::<char>::empty());
        }
    }

    let stats = CompactionStats {
        total_messages: scored.len(),
        preserved_count: plan.preserve_verbatim.len(),
        light_compressed: plan.compress_light.len(),
        heavy_compressed: plan.compress_heavy.len(),
        error_count: saturation.error_count,
        chain_count: chains.len(),
        median_influence_key,
        max_influence_key,
    };
    let res = CompactionAnalysis {
        text_for_summariser,
        preserved_text: preserved,
        summariser_system: plan.summariser_system,
        summariser_instruction: plan.summariser_instruction,
        problem_class,
        stats,
    };
    res
}

/// The recent zone never reaches the summariser. Two conversations of the
/// same length that agree up to the end of the compressible zone, and whose
/// tasks are classified alike, give the same analysis for the same influence
/// keys: the same text to summarise, preserved text, prompts, class and
/// statistics.
pub proof fn law_recent_zone_stays_out(
    res1: CompactionAnalysis,
    res2: CompactionAnalysis,
    msgs1: Seq<Message>,
    msgs2: Seq<Message>,
    q: nat,
    recent: nat,
    keys: Seq<u64>,
)
    requires
        q < msgs1.len() <= usize::MAX,
        msgs2.len() == msgs1.len(),
        forall|i: int|
            0 <= i < zone_bounds(msgs1.len(), q, recent).1 ==> #[trigger] msgs2[i] == msgs1[i],
        classification(msgs1[q as int].content@, msgs2) == classification(
            msgs1[q as int].content@,
            msgs1,
        ),
        analysis_matches(res1, msgs1, q, recent, keys),
        analysis_matches(res2, msgs2, q, recent, keys),
    ensures
        res1.text_for_summariser@ == res2.text_for_summariser@,
        res1.preserved_text@ == res2.preserved_text@,
        res1.summariser_system@ == res2.summariser_system@,
        res1.summariser_instruction@ == res2.summariser_instruction@,
        res1.problem_class == res2.problem_class,
        res1.stats.total_messages == res2.stats.total_messages,
        res1.stats.preserved_count == res2.stats.preserved_count,
        res1.stats.light_compressed == res2.stats.light_compressed,
        res1.stats.heavy_compressed == res2.stats.heavy_compressed,
        res1.stats.error_count == res2.stats.error_count,
        res1.stats.chain_count == res2.stats.chain_count,
        res1.stats.median_influence_key == res2.stats.median_influence_key,
        res1.stats.max_influence_key == res2.stats.max_influence_key,
{
    let (start, end) = zone_bounds(msgs1.len(), q, recent);
    let bound = end as usize;
    assert(msgs2[q as int] == msgs1[q as int]);
    let scored = zone_scored(msgs1, q, recent, keys);
    assert(zone_scored(msgs2, q, recent, keys) =~= scored) by {
        assert forall|i: int| 0 <= i < scored.len() implies #[trigger] zone_scored(
            msgs2,
            q,
            recent,
            keys,
        )[i] == scored[i] by {
            assert(msgs2[start + i] == msgs1[start + i]);
            if i > 0 {
                assert(msgs2[start + i - 1] == msgs1[start + i - 1]);
            }
        }
    }
    assert forall|p: int| 0 <= p < scored.len() implies #[trigger] scored[p].index < bound by {
        assert(scored[p].index == start + p);
    }
    assert forall|i: int| 0 <= i < bound && i < msgs1.len() implies #[trigger] msgs1[i]
        == msgs2[i] by {
        assert(msgs2[i] == msgs1[i]);
    }
    let chains = causal_chains(scored);
    let class = classification(msgs1[q as int].content@, msgs1);
    let median = median_key(scored);
    lemma_planned_lists_local(scored, median, chains, class, msgs1, msgs2, bound);
    lemma_error_lines_local(scored, msgs1, msgs2, bound);
    let lists = planned_lists(scored, median, chains, class, msgs1);
    lemma_entries_local(lists.0, msgs1, msgs2, |m: Message| crate::compaction::preserved_entry(m), bound);
    lemma_entries_local(lists.1, msgs1, msgs2, |m: Message| crate::compaction::light_entry(m), bound);
    lemma_entries_local(lists.2, msgs1, msgs2, |m: Message| crate::compaction::heavy_entry(m), bound);
    assert(summariser_text(seq![], seq![], msgs1) == summariser_text(seq![], seq![], msgs2));
    if scored.len() > 0 {
        let m1 = res1.stats.max_influence_key->0;
        let m2 = res2.stats.max_influence_key->0;
        crate::influence::lemma_kth_smallest_unique(keys_of(scored), scored.len() - 1, m1, m2);
    }
}

} // verus!
