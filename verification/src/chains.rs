//! Trace topology: causal chains among scored messages.
//!
//! A chain exists when message B depends on A, and C depends on B. Chains are
//! binding units: they are compressed together to preserve the trace shape.

use vstd::prelude::*;

use crate::forgetting::ScoredMessage;

verus! {

/// A causal chain: messages that form a trace (A → B → C).
#[derive(Debug, Clone)]
pub struct CausalChain {
    /// Indices into the messages array (global indices).
    pub indices: Vec<usize>,
    /// For each member, the position in the scored messages whose influence
    /// it contributes to the chain's combined influence (none when the first
    /// member was not scored). The combined influence is their sum, in order.
    pub influence_sources: Vec<Option<usize>>,
}

/// A chain as values: its member indices and the sources of their influences.
pub struct ChainModel {
    pub indices: Seq<usize>,
    pub sources: Seq<Option<usize>>,
}

impl View for CausalChain {
    type V = ChainModel;

    open spec fn view(&self) -> ChainModel {
        ChainModel { indices: self.indices@, sources: self.influence_sources@ }
    }
}

/// The chains found so far, and the messages they hold, in the order they joined.
pub struct ChainState {
    pub chains: Seq<ChainModel>,
    pub members: Seq<usize>,
}

/// The first position of `scored` whose message has index `idx`.
pub open spec fn first_scored_with_index(scored: Seq<ScoredMessage>, idx: usize) -> Option<usize>
    decreases scored.len(),
{
    if scored.len() == 0 {
        None
    } else if scored[0].index == idx {
        Some(0)
    } else {
        match first_scored_with_index(scored.drop_first(), idx) {
            Some(p) => Some((p + 1) as usize),
            None => None,
        }
    }
}

/// The first chain whose last member is `dep`.
pub open spec fn chain_ending_with(chains: Seq<ChainModel>, dep: usize) -> Option<int>
    decreases chains.len(),
{
    if chains.len() == 0 {
        None
    } else if chains[0].indices.len() > 0 && chains[0].indices.last() == dep {
        Some(0)
    } else {
        match chain_ending_with(chains.drop_first(), dep) {
            Some(c) => Some(c + 1),
            None => None,
        }
    }
}

/// One step of the forward walk, at scored position `p`: a message not yet in
/// a chain that depends on the last member of a chain extends that chain;
/// otherwise, when what it depends on is in no chain either, the two start a
/// new chain.
pub open spec fn chain_step(st: ChainState, scored: Seq<ScoredMessage>, p: int) -> ChainState {
    let sm = scored[p];
    if st.members.contains(sm.index) {
        st
    } else {
        match sm.depends_on {
            None => st,
            Some(dep) => match chain_ending_with(st.chains, dep) {
                Some(c) => ChainState {
                    chains: st.chains.update(
                        c,
                        ChainModel {
                            indices: st.chains[c].indices.push(sm.index),
                            sources: st.chains[c].sources.push(Some(p as usize)),
                        },
                    ),
                    members: st.members.push(sm.index),
                },
                None => if !st.members.contains(dep) {
                    ChainState {
                        chains: st.chains.push(
                            ChainModel {
                                indices: seq![dep, sm.index],
                                sources: seq![
                                    first_scored_with_index(scored, dep),
                                    Some(p as usize),
                                ],
                            },
                        ),
                        members: st.members.push(dep).push(sm.index),
                    }
                } else {
                    st
                },
            },
        }
    }
}

/// The state after walking the first `n` scored messages.
pub open spec fn chains_upto(scored: Seq<ScoredMessage>, n: nat) -> ChainState
    decreases n,
{
    if n == 0 {
        ChainState { chains: seq![], members: seq![] }
    } else {
        chain_step(chains_upto(scored, (n - 1) as nat), scored, n - 1)
    }
}

/// The causal chains among `scored`.
pub open spec fn causal_chains(scored: Seq<ScoredMessage>) -> Seq<ChainModel> {
    chains_upto(scored, scored.len()).chains
}

/// The index of a message that is a member of some chain.
pub open spec fn in_some_chain(chains: Seq<ChainModel>, idx: usize) -> bool {
    exists|c: int| 0 <= c < chains.len() && #[trigger] chains[c].indices.contains(idx)
}

/// Whether `v` holds `x`.
fn vec_has(v: &Vec<usize>, x: usize) -> (res: bool)
    ensures
        res == v@.contains(x),
{
    let mut i: usize = 0;
    while i < v.len()
        invariant
            i <= v.len(),
            forall|j: int| 0 <= j < i ==> v@[j] != x,
        decreases v.len() - i,
    {
        if v[i] == x {
            return true;
        }
        i = i + 1;
    }
    false
}

/// The first position of `scored` whose message has index `idx`.
fn find_scored(scored: &[ScoredMessage], idx: usize) -> (res: Option<usize>)
    ensures
        res == first_scored_with_index(scored@, idx),
{
    let mut i: usize = 0;
    while i < scored.len()
        invariant
            i <= scored.len(),
            forall|j: int| 0 <= j < i ==> scored@[j].index != idx,
        decreases scored.len() - i,
    {
        if scored[i].index == idx {
            proof {
                lemma_first_scored(scored@, idx, i as int);
            }
            return Some(i);
        }
        i = i + 1;
    }
    proof {
        lemma_first_scored_none(scored@, idx);
    }
    None
}

proof fn lemma_first_scored(scored: Seq<ScoredMessage>, idx: usize, i: int)
    requires
        0 <= i < scored.len(),
        scored[i].index == idx,
        forall|j: int| 0 <= j < i ==> scored[j].index != idx,
        i <= usize::MAX,
    ensures
        first_scored_with_index(scored, idx) == Some(i as usize),
    decreases i,
{
    if i > 0 {
        lemma_first_scored(scored.drop_first(), idx, i - 1);
    }
}

proof fn lemma_first_scored_none(scored: Seq<ScoredMessage>, idx: usize)
    requires
        forall|j: int| 0 <= j < scored.len() ==> scored[j].index != idx,
    ensures
        first_scored_with_index(scored, idx) is None,
    decreases scored.len(),
{
    if scored.len() > 0 {
        lemma_first_scored_none(scored.drop_first(), idx);
    }
}

proof fn lemma_chain_ending(chains: Seq<ChainModel>, dep: usize, c: int)
    requires
        0 <= c < chains.len(),
        chains[c].indices.len() > 0 && chains[c].indices.last() == dep,
        forall|j: int|
            0 <= j < c ==> !(chains[j].indices.len() > 0 && chains[j].indices.last() == dep),
    ensures
        chain_ending_with(chains, dep) == Some(c),
    decreases c,
{
    if c > 0 {
        lemma_chain_ending(chains.drop_first(), dep, c - 1);
    }
}

proof fn lemma_chain_ending_none(chains: Seq<ChainModel>, dep: usize)
    requires
        forall|j: int|
            0 <= j < chains.len() ==> !(chains[j].indices.len() > 0 && chains[j].indices.last()
                == dep),
    ensures
        chain_ending_with(chains, dep) is None,
    decreases chains.len(),
{
    if chains.len() > 0 {
        lemma_chain_ending_none(chains.drop_first(), dep);
    }
}

/// The first chain whose last member is `dep`.
fn find_chain_ending(chains: &Vec<CausalChain>, dep: usize) -> (res: Option<usize>)
    ensures
        res matches Some(c) ==> c < chains@.len(),
        res matches Some(c) ==> chain_ending_with(chains@.map_values(|ch: CausalChain| ch@), dep)
            == Some(c as int),
        res is None ==> chain_ending_with(chains@.map_values(|ch: CausalChain| ch@), dep) is None,
{
    let ghost model = chains@.map_values(|ch: CausalChain| ch@);
    let mut k: usize = 0;
    while k < chains.len()
        invariant
            k <= chains.len(),
            model == chains@.map_values(|ch: CausalChain| ch@),
            forall|j: int|
                0 <= j < k ==> !(model[j].indices.len() > 0 && model[j].indices.last() == dep),
        decreases chains.len() - k,
    {
        let n = chains[k].indices.len();
        if n > 0 && chains[k].indices[n - 1] == dep {
            proof {
                lemma_chain_ending(model, dep, k as int);
            }
            return Some(k);
        }
        k = k + 1;
    }
    proof {
        lemma_chain_ending_none(model, dep);
    }
    None
}

/// Detect causal chains in the scored messages, walking them forward.
pub fn detect_chains(scored: &[ScoredMessage]) -> (res: Vec<CausalChain>)
    ensures
        res@.map_values(|ch: CausalChain| ch@) == causal_chains(scored@),
{
    let mut chains: Vec<CausalChain> = Vec::new();
    let mut members: Vec<usize> = Vec::new();
    let mut p: usize = 0;
    while p < scored.len()
        invariant
            p <= scored.len(),
            chains@.map_values(|ch: CausalChain| ch@) == chains_upto(scored@, p as nat).chains,
            members@ == chains_upto(scored@, p as nat).members,
        decreases scored.len() - p,
    {
        let ghost before = chains@.map_values(|ch: CausalChain| ch@);
        let sm = scored[p];
        if !vec_has(&members, sm.index) {
            if let Some(dep) = sm.depends_on {
                match find_chain_ending(&chains, dep) {
                    Some(c) => {
                        let mut chain = chains.remove(c);
                        chain.indices.push(sm.index);
                        chain.influence_sources.push(Some(p));
                        chains.insert(c, chain);
                        members.push(sm.index);
                        proof {
                            assert(chains@.map_values(|ch: CausalChain| ch@) =~= before.update(
                                c as int,
                                ChainModel {
                                    indices: before[c as int].indices.push(sm.index),
                                    sources: before[c as int].sources.push(Some(p)),
                                },
                            ));
                        }
                    },
                    None => {
                        if !vec_has(&members, dep) {
                            let first = find_scored(scored, dep);
                            let mut indices: Vec<usize> = Vec::new();
                            indices.push(dep);
                            indices.push(sm.index);
                            let mut sources: Vec<Option<usize>> = Vec::new();
                            sources.push(first);
                            sources.push(Some(p));
                            assert(indices@ =~= seq![dep, sm.index]);
                            assert(sources@ =~= seq![first_scored_with_index(scored@, dep), Some(p)]);
                            chains.push(CausalChain { indices, influence_sources: sources });
                            members.push(dep);
                            members.push(sm.index);
                            proof {
                                assert(chains@.map_values(|ch: CausalChain| ch@) =~= before.push(
                                    ChainModel {
                                        indices: seq![dep, sm.index],
                                        sources: seq![
                                            first_scored_with_index(scored@, dep),
                                            Some(p),
                                        ],
                                    },
                                ));
                            }
                        }
                    },
                }
            }
        }
        p = p + 1;
    }
    chains
}

// ── Laws of chains ───────────────────────────────────────────────────

/// A chain has at least two members; each member after the first is a scored
/// message that depends on the member before it, and contributes its own
/// influence; the first member contributes the influence of the first scored
/// message with its index.
pub open spec fn chain_is_trace(ch: ChainModel, scored: Seq<ScoredMessage>) -> bool {
    &&& ch.indices.len() >= 2
    &&& ch.sources.len() == ch.indices.len()
    &&& ch.sources[0] == first_scored_with_index(scored, ch.indices[0])
    &&& forall|k: int|
        1 <= k < ch.indices.len() ==> {
            &&& (#[trigger] ch.sources[k]) is Some
            &&& ch.sources[k]->0 < scored.len()
            &&& scored[ch.sources[k]->0 as int].index == ch.indices[k]
            &&& scored[ch.sources[k]->0 as int].depends_on == Some(ch.indices[k - 1])
        }
}

/// No scored message depends on itself.
pub open spec fn no_self_dependency(scored: Seq<ScoredMessage>) -> bool {
    forall|p: int| 0 <= p < scored.len() ==> #[trigger] scored[p].depends_on != Some(scored[p].index)
}

/// No message index occurs twice among all the chains' members.
pub open spec fn members_distinct(chains: Seq<ChainModel>) -> bool {
    forall|c1: int, k1: int, c2: int, k2: int|
        0 <= c1 < chains.len() && 0 <= c2 < chains.len() && 0 <= k1 < chains[c1].indices.len()
            && 0 <= k2 < chains[c2].indices.len() && #[trigger] chains[c1].indices[k1]
            == #[trigger] chains[c2].indices[k2] ==> c1 == c2 && k1 == k2
}

/// The walk's state is sound: every chain is a trace, every member of a chain
/// is recorded, and every recorded message is in some chain.
pub open spec fn state_wf(st: ChainState, scored: Seq<ScoredMessage>) -> bool {
    &&& forall|c: int| 0 <= c < st.chains.len() ==> chain_is_trace(#[trigger] st.chains[c], scored)
    &&& forall|c: int, k: int|
        0 <= c < st.chains.len() && 0 <= k < st.chains[c].indices.len() ==> st.members.contains(
            #[trigger] st.chains[c].indices[k],
        )
    &&& forall|x: usize| #[trigger] st.members.contains(x) ==> in_some_chain(st.chains, x)
}

proof fn lemma_chain_ending_props(chains: Seq<ChainModel>, dep: usize)
    ensures
        chain_ending_with(chains, dep) matches Some(c) ==> {
            &&& 0 <= c < chains.len()
            &&& chains[c].indices.len() > 0
            &&& chains[c].indices.last() == dep
        },
    decreases chains.len(),
{
    if chains.len() > 0 {
        lemma_chain_ending_props(chains.drop_first(), dep);
    }
}

proof fn lemma_step_extend(st: ChainState, scored: Seq<ScoredMessage>, p: int, dep: usize, c: int)
    requires
        state_wf(st, scored),
        no_self_dependency(scored) ==> members_distinct(st.chains),
        0 <= p < scored.len(),
        p <= usize::MAX,
        !st.members.contains(scored[p].index),
        scored[p].depends_on == Some(dep),
        chain_ending_with(st.chains, dep) == Some(c),
    ensures
        state_wf(chain_step(st, scored, p), scored),
        no_self_dependency(scored) ==> members_distinct(chain_step(st, scored, p).chains),
{
    let sm = scored[p];
    let st2 = chain_step(st, scored, p);
    lemma_chain_ending_props(st.chains, dep);
    let old = st.chains[c];
    let new = ChainModel {
        indices: old.indices.push(sm.index),
        sources: old.sources.push(Some(p as usize)),
    };
    assert(st2.chains == st.chains.update(c, new));
    assert(st2.members == st.members.push(sm.index));
    assert(chain_is_trace(new, scored)) by {
        assert(chain_is_trace(old, scored));
        assert forall|k: int| 1 <= k < new.indices.len() implies {
            &&& (#[trigger] new.sources[k]) is Some
            &&& new.sources[k]->0 < scored.len()
            &&& scored[new.sources[k]->0 as int].index == new.indices[k]
            &&& scored[new.sources[k]->0 as int].depends_on == Some(
                new.indices[k - 1],
            )
        } by {
            if k < old.indices.len() {
                assert(old.sources[k] is Some);
            }
        }
    }
    assert forall|c2: int, k: int|
        0 <= c2 < st2.chains.len() && 0 <= k < st2.chains[c2].indices.len()
            implies st2.members.contains(#[trigger] st2.chains[c2].indices[k]) by {
        if c2 == c && k == old.indices.len() {
            assert(st2.members[st.members.len() as int] == sm.index);
        } else {
            assert(st.members.contains(st.chains[c2].indices[k]));
            let i = choose|i: int|
                0 <= i < st.members.len() && st.members[i]
                    == st.chains[c2].indices[k];
            assert(st2.members[i] == st.chains[c2].indices[k]);
        }
    }
    assert forall|x: usize| #[trigger] st2.members.contains(x) implies in_some_chain(
        st2.chains,
        x,
    ) by {
        if x == sm.index {
            assert(st2.chains[c].indices[old.indices.len() as int] == x);
            assert(st2.chains[c].indices.contains(x));
        } else {
            let i = choose|i: int| 0 <= i < st2.members.len() && st2.members[i] == x;
            assert(st.members[i] == x);
            assert(st.members.contains(x));
            assert(in_some_chain(st.chains, x));
            let c2 = choose|c2: int|
                0 <= c2 < st.chains.len() && #[trigger] st.chains[c2].indices.contains(x);
            let k = choose|k: int|
                0 <= k < st.chains[c2].indices.len() && st.chains[c2].indices[k] == x;
            assert(st2.chains[c2].indices[k] == x);
            assert(st2.chains[c2].indices.contains(x));
        }
    }
    if no_self_dependency(scored) {
        assert forall|c1: int, k1: int, c2: int, k2: int|
            0 <= c1 < st2.chains.len() && 0 <= c2 < st2.chains.len() && 0 <= k1
                < st2.chains[c1].indices.len() && 0 <= k2
                < st2.chains[c2].indices.len() && #[trigger] st2.chains[c1].indices[k1]
                == #[trigger] st2.chains[c2].indices[k2] implies c1 == c2 && k1
            == k2 by {
            let fresh1 = c1 == c && k1 == old.indices.len();
            let fresh2 = c2 == c && k2 == old.indices.len();
            if fresh1 && !fresh2 {
                assert(st.members.contains(st.chains[c2].indices[k2]));
            } else if fresh2 && !fresh1 {
                assert(st.members.contains(st.chains[c1].indices[k1]));
            } else if !fresh1 && !fresh2 {
                assert(st.chains[c1].indices[k1] == st.chains[c2].indices[k2]);
            }
        }
    }
}

proof fn lemma_step_new(st: ChainState, scored: Seq<ScoredMessage>, p: int, dep: usize)
    requires
        state_wf(st, scored),
        no_self_dependency(scored) ==> members_distinct(st.chains),
        0 <= p < scored.len(),
        p <= usize::MAX,
        !st.members.contains(scored[p].index),
        scored[p].depends_on == Some(dep),
        chain_ending_with(st.chains, dep) is None,
    ensures
        state_wf(chain_step(st, scored, p), scored),
        no_self_dependency(scored) ==> members_distinct(chain_step(st, scored, p).chains),
{
    let sm = scored[p];
    let st2 = chain_step(st, scored, p);
    if !st.members.contains(dep) {
        let new = ChainModel {
            indices: seq![dep, sm.index],
            sources: seq![first_scored_with_index(scored, dep), Some(p as usize)],
        };
        assert(st2.chains == st.chains.push(new));
        assert(st2.members == st.members.push(dep).push(sm.index));
        assert(chain_is_trace(new, scored)) by {
            assert forall|k: int| 1 <= k < new.indices.len() implies {
                &&& (#[trigger] new.sources[k]) is Some
                &&& new.sources[k]->0 < scored.len()
                &&& scored[new.sources[k]->0 as int].index == new.indices[k]
                &&& scored[new.sources[k]->0 as int].depends_on == Some(
                    new.indices[k - 1],
                )
            } by {
                assert(k == 1);
            }
        }
        let m = st.members.len() as int;
        assert forall|c2: int, k: int|
            0 <= c2 < st2.chains.len() && 0 <= k < st2.chains[c2].indices.len()
                implies st2.members.contains(#[trigger] st2.chains[c2].indices[k]) by {
            if c2 == st.chains.len() {
                if k == 0 {
                    assert(st2.members[m] == dep);
                } else {
                    assert(st2.members[m + 1] == sm.index);
                }
            } else {
                assert(st.members.contains(st.chains[c2].indices[k]));
                let i = choose|i: int|
                    0 <= i < st.members.len() && st.members[i]
                        == st.chains[c2].indices[k];
                assert(st2.members[i] == st.chains[c2].indices[k]);
            }
        }
        assert forall|x: usize| #[trigger] st2.members.contains(x) implies in_some_chain(
            st2.chains,
            x,
        ) by {
            let c2 = st.chains.len() as int;
            if x == dep {
                assert(st2.chains[c2].indices[0] == x);
                assert(st2.chains[c2].indices.contains(x));
            } else if x == sm.index {
                assert(st2.chains[c2].indices[1] == x);
                assert(st2.chains[c2].indices.contains(x));
            } else {
                let i = choose|i: int| 0 <= i < st2.members.len() && st2.members[i] == x;
                assert(st.members[i] == x);
                assert(st.members.contains(x));
                assert(in_some_chain(st.chains, x));
                let c3 = choose|c3: int|
                    0 <= c3 < st.chains.len() && #[trigger] st.chains[c3].indices.contains(x);
                let k = choose|k: int|
                    0 <= k < st.chains[c3].indices.len() && st.chains[c3].indices[k] == x;
                assert(st2.chains[c3].indices[k] == x);
                assert(st2.chains[c3].indices.contains(x));
            }
        }
        if no_self_dependency(scored) {
            assert(scored[p].depends_on != Some(scored[p].index));
            let last = st.chains.len() as int;
            assert forall|c1: int, k1: int, c2: int, k2: int|
                0 <= c1 < st2.chains.len() && 0 <= c2 < st2.chains.len() && 0 <= k1
                    < st2.chains[c1].indices.len() && 0 <= k2
                    < st2.chains[c2].indices.len() && #[trigger] st2.chains[c1].indices[k1]
                    == #[trigger] st2.chains[c2].indices[k2] implies c1 == c2 && k1
                == k2 by {
                if c1 == last && c2 != last {
                    assert(st.members.contains(st.chains[c2].indices[k2]));
                } else if c2 == last && c1 != last {
                    assert(st.members.contains(st.chains[c1].indices[k1]));
                } else if c1 != last && c2 != last {
                    assert(st.chains[c1].indices[k1] == st.chains[c2].indices[k2]);
                }
            }
        }
    }
}

proof fn lemma_chains_wf(scored: Seq<ScoredMessage>, n: nat)
    requires
        n <= scored.len(),
        n <= usize::MAX,
    ensures
        state_wf(chains_upto(scored, n), scored),
        no_self_dependency(scored) ==> members_distinct(chains_upto(scored, n).chains),
    decreases n,
{
    if n > 0 {
        lemma_chains_wf(scored, (n - 1) as nat);
        let st = chains_upto(scored, (n - 1) as nat);
        let p = n - 1;
        let sm = scored[p];
        if !st.members.contains(sm.index) && sm.depends_on is Some {
            let dep = sm.depends_on->0;
            match chain_ending_with(st.chains, dep) {
                Some(c) => lemma_step_extend(st, scored, p, dep, c),
                None => lemma_step_new(st, scored, p, dep),
            }
        }
    }
}

/// Message `idx` is in a chain and is not that chain's last member.
pub open spec fn has_successor_in_chain(chains: Seq<ChainModel>, idx: usize) -> bool {
    exists|c: int, k: int|
        0 <= c < chains.len() && 0 <= k && k + 1 < chains[c].indices.len()
            && #[trigger] chains[c].indices[k] == idx
}

/// The dependency of the scored message at `p` is not lost: the message is in
/// a chain, or what it depends on already has a successor in a chain.
pub open spec fn dependency_kept(chains: Seq<ChainModel>, scored: Seq<ScoredMessage>, p: int) -> bool {
    scored[p].depends_on matches Some(dep) ==> in_some_chain(chains, scored[p].index)
        || has_successor_in_chain(chains, dep)
}

proof fn lemma_chain_ending_none_props(chains: Seq<ChainModel>, dep: usize)
    requires
        chain_ending_with(chains, dep) is None,
    ensures
        forall|c: int|
            0 <= c < chains.len() && chains[c].indices.len() > 0 ==> #[trigger] chains[c].indices.last()
                != dep,
    decreases chains.len(),
{
    if chains.len() > 0 {
        lemma_chain_ending_none_props(chains.drop_first(), dep);
        assert forall|c: int|
            0 <= c < chains.len() && chains[c].indices.len() > 0 implies #[trigger] chains[c].indices.last()
                != dep by {
            if c > 0 {
                assert(chains[c] == chains.drop_first()[c - 1]);
            }
        }
    }
}

/// A step of the walk only adds chains and members at the ends of chains.
proof fn lemma_step_grows(st: ChainState, scored: Seq<ScoredMessage>, p: int)
    requires
        0 <= p < scored.len(),
    ensures
        chain_step(st, scored, p).chains.len() >= st.chains.len(),
        forall|c: int, k: int|
            0 <= c < st.chains.len() && 0 <= k < st.chains[c].indices.len() ==> k
                < chain_step(st, scored, p).chains[c].indices.len() && #[trigger] chain_step(
                st,
                scored,
                p,
            ).chains[c].indices[k] == st.chains[c].indices[k],
        forall|c: int|
            0 <= c < st.chains.len() ==> #[trigger] chain_step(st, scored, p).chains[c].indices.len()
                >= st.chains[c].indices.len(),
{
    let sm = scored[p];
    if !st.members.contains(sm.index) && sm.depends_on is Some {
        let dep = sm.depends_on->0;
        match chain_ending_with(st.chains, dep) {
            Some(c) => {
                lemma_chain_ending_props(st.chains, dep);
            },
            None => {},
        }
    }
}

/// What holds of the chains after a step keeps holding after later steps.
proof fn lemma_step_keeps(st: ChainState, scored: Seq<ScoredMessage>, p: int, x: usize)
    requires
        0 <= p < scored.len(),
    ensures
        in_some_chain(st.chains, x) ==> in_some_chain(chain_step(st, scored, p).chains, x),
        has_successor_in_chain(st.chains, x) ==> has_successor_in_chain(
            chain_step(st, scored, p).chains,
            x,
        ),
{
    let st2 = chain_step(st, scored, p);
    lemma_step_grows(st, scored, p);
    if in_some_chain(st.chains, x) {
        let c = choose|c: int| 0 <= c < st.chains.len() && #[trigger] st.chains[c].indices.contains(x);
        let k = choose|k: int| 0 <= k < st.chains[c].indices.len() && st.chains[c].indices[k] == x;
        assert(st2.chains[c].indices[k] == x);
        assert(st2.chains[c].indices.contains(x));
    }
    if has_successor_in_chain(st.chains, x) {
        let (c, k) = choose|c: int, k: int|
            0 <= c < st.chains.len() && 0 <= k && k + 1 < st.chains[c].indices.len()
                && #[trigger] st.chains[c].indices[k] == x;
        assert(st2.chains[c].indices[k] == x);
        assert(st2.chains[c].indices.len() >= st.chains[c].indices.len());
    }
}

proof fn lemma_dependencies_kept(scored: Seq<ScoredMessage>, n: nat)
    requires
        n <= scored.len(),
        n <= usize::MAX,
    ensures
        forall|p: int| 0 <= p < n ==> dependency_kept(chains_upto(scored, n).chains, scored, p),
    decreases n,
{
    if n > 0 {
        let m = (n - 1) as nat;
        lemma_dependencies_kept(scored, m);
        lemma_chains_wf(scored, m);
        let st = chains_upto(scored, m);
        let p = m as int;
        let st2 = chain_step(st, scored, p);
        assert(st2 == chains_upto(scored, n));
        assert forall|q: int| 0 <= q < n implies dependency_kept(st2.chains, scored, q) by {
            if q < p {
                assert(dependency_kept(st.chains, scored, q));
                if scored[q].depends_on is Some {
                    lemma_step_keeps(st, scored, p, scored[q].index);
                    lemma_step_keeps(st, scored, p, scored[q].depends_on->0);
                }
            } else {
                let sm = scored[p];
                if sm.depends_on is Some {
                    let dep = sm.depends_on->0;
                    if st.members.contains(sm.index) {
                        assert(in_some_chain(st.chains, sm.index));
                    } else {
                        match chain_ending_with(st.chains, dep) {
                            Some(c) => {
                                lemma_chain_ending_props(st.chains, dep);
                                let len = st.chains[c].indices.len() as int;
                                assert(st2.chains[c].indices[len] == sm.index);
                                assert(st2.chains[c].indices.contains(sm.index));
                            },
                            None => {
                                if !st.members.contains(dep) {
                                    let last = st.chains.len() as int;
                                    assert(st2.chains[last].indices[1] == sm.index);
                                    assert(st2.chains[last].indices.contains(sm.index));
                                } else {
                                    assert(in_some_chain(st.chains, dep));
                                    let c = choose|c: int|
                                        0 <= c < st.chains.len()
                                            && #[trigger] st.chains[c].indices.contains(dep);
                                    let k = choose|k: int|
                                        0 <= k < st.chains[c].indices.len()
                                            && st.chains[c].indices[k] == dep;
                                    lemma_chain_ending_none_props(st.chains, dep);
                                    assert(st.chains[c].indices.last() != dep);
                                    assert(k + 1 < st.chains[c].indices.len());
                                    assert(has_successor_in_chain(st.chains, dep));
                                }
                            },
                        }
                    }
                }
            }
        }
    }
}

/// Chains are complete: no dependency is dropped unless it would fork a
/// chain. Every scored message that depends on another is in a chain, or
/// what it depends on already has a successor in a chain.
pub proof fn law_chains_keep_dependencies(scored: Seq<ScoredMessage>)
    requires
        scored.len() <= usize::MAX,
    ensures
        forall|p: int| 0 <= p < scored.len() ==> dependency_kept(causal_chains(scored), scored, p),
{
    lemma_dependencies_kept(scored, scored.len());
}

/// Every chain is a trace: at least two messages, each one after the first a
/// scored message that depends on the one before it. When no message depends
/// on itself, every message belongs to at most one chain, at one place.
pub proof fn law_chains_are_traces(scored: Seq<ScoredMessage>)
    requires
        scored.len() <= usize::MAX,
    ensures
        forall|c: int|
            0 <= c < causal_chains(scored).len() ==> chain_is_trace(
                #[trigger] causal_chains(scored)[c],
                scored,
            ),
        no_self_dependency(scored) ==> members_distinct(causal_chains(scored)),
{
    lemma_chains_wf(scored, scored.len());
}

} // verus!
