//! Saturation detection, summariser prompts and the compression plan.

use vstd::prelude::*;

use crate::chains::{in_some_chain, CausalChain, ChainModel};
use crate::forgetting::{
    find_error_line, first_error_line, is_tool_result_content, is_tool_result_text,
    ProblemClass, ScoredMessage,
};
use crate::influence::{half_influence_key, half_key, is_kth_smallest, kth_smallest};
use crate::text::{chars_of, decimal, lines, push_chars, push_decimal, push_str, str_equal};
use crate::Message;

verus! {

// ── κ_d saturation ───────────────────────────────────────────────────

/// Saturated dimensions: when three or more messages give the same kind of
/// information, the summary caps them.
pub struct SaturationReport {
    /// Number of error messages (capped to "N errors, type: X").
    pub error_count: usize,
    /// Dominant error type if saturated.
    pub dominant_error: Option<String>,
    /// Five or more data-rich tool results (later ones may supersede earlier ones).
    pub data_saturated: bool,
}

/// The characters of an optional string.
pub open spec fn opt_chars(o: Option<String>) -> Option<Seq<char>> {
    match o {
        Some(s) => Some(s@),
        None => None,
    }
}

/// The number of scored messages that satisfy `p`.
pub open spec fn count_scored(scored: Seq<ScoredMessage>, p: spec_fn(ScoredMessage) -> bool) -> nat
    decreases scored.len(),
{
    if scored.len() == 0 {
        0
    } else {
        count_scored(scored.drop_last(), p) + if p(scored.last()) {
            1nat
        } else {
            0nat
        }
    }
}

/// The number of scored error messages.
pub open spec fn error_count(scored: Seq<ScoredMessage>) -> nat {
    count_scored(scored, |s: ScoredMessage| s.is_error)
}

/// The number of data-rich tool results: tool results with a dimension that fires.
pub open spec fn data_rich_count(scored: Seq<ScoredMessage>) -> nat {
    count_scored(scored, |s: ScoredMessage| s.active_dims >= 1 && s.is_tool_result)
}

/// The line that stands for an error message: its first line that mentions
/// an error, or "unknown error".
pub open spec fn error_line(content: Seq<char>) -> Seq<char> {
    match first_error_line(lines(content)) {
        Some(l) => l,
        None => "unknown error"@,
    }
}

/// The lines that stand for the scored error messages that are in `msgs`, in order.
pub open spec fn error_lines(scored: Seq<ScoredMessage>, msgs: Seq<Message>) -> Seq<Seq<char>>
    decreases scored.len(),
{
    if scored.len() == 0 {
        seq![]
    } else {
        let rest = error_lines(scored.drop_last(), msgs);
        let s = scored.last();
        if s.is_error && s.index < msgs.len() {
            rest.push(error_line(msgs[s.index as int].content@))
        } else {
            rest
        }
    }
}

/// How many times the line `l` occurs in `ls`.
pub open spec fn count_line(ls: Seq<Seq<char>>, l: Seq<char>) -> nat
    decreases ls.len(),
{
    if ls.len() == 0 {
        0
    } else {
        count_line(ls.drop_last(), l) + if ls.last() == l {
            1nat
        } else {
            0nat
        }
    }
}

/// The line at position `k` occurs most often in `ls`, and no earlier line
/// occurs as often.
pub open spec fn is_dominant_at(ls: Seq<Seq<char>>, k: int) -> bool {
    &&& 0 <= k < ls.len()
    &&& forall|j: int| 0 <= j < ls.len() ==> count_line(ls, #[trigger] ls[j]) <= count_line(ls, ls[k])
    &&& forall|j: int| 0 <= j < k ==> count_line(ls, #[trigger] ls[j]) < count_line(ls, ls[k])
}

/// The line that occurs most often in `ls`; among equally frequent lines, the
/// one that occurs first. None when `ls` is empty.
pub open spec fn most_common(ls: Seq<Seq<char>>) -> Option<Seq<char>> {
    if exists|k: int| is_dominant_at(ls, k) {
        Some(ls[choose|k: int| is_dominant_at(ls, k)])
    } else {
        None
    }
}

/// The dominant error: with three or more errors, the most common of the
/// lines that stand for them (the earliest among equally common ones).
pub open spec fn dominant_error(scored: Seq<ScoredMessage>, msgs: Seq<Message>) -> Option<
    Seq<char>,
> {
    if error_count(scored) >= 3 {
        most_common(error_lines(scored, msgs))
    } else {
        None
    }
}

proof fn lemma_count_scored_filter(
    scored: Seq<ScoredMessage>,
    p: spec_fn(ScoredMessage) -> bool,
    f: spec_fn(ScoredMessage) -> bool,
)
    requires
        forall|s: ScoredMessage| #[trigger] f(s) == p(s),
    ensures
        count_scored(scored, p) == scored.filter(f).len(),
    decreases scored.len(),
{
    reveal(Seq::filter);
    if scored.len() > 0 {
        lemma_count_scored_filter(scored.drop_last(), p, f);
        assert(f(scored.last()) == p(scored.last()));
    }
}

proof fn lemma_count_scored_le(
    scored: Seq<ScoredMessage>,
    p: spec_fn(ScoredMessage) -> bool,
    q: spec_fn(ScoredMessage) -> bool,
)
    requires
        forall|s: ScoredMessage| #[trigger] p(s) ==> q(s),
    ensures
        count_scored(scored, p) <= count_scored(scored, q),
    decreases scored.len(),
{
    if scored.len() > 0 {
        lemma_count_scored_le(scored.drop_last(), p, q);
        assert(p(scored.last()) ==> q(scored.last()));
    }
}

/// What the saturation report counts: the error count is the number of
/// scored messages that are errors, and the data-rich count, on which data
/// saturation turns (five or more), is the number of scored messages that are
/// tool results with a dimension that fires. It never exceeds the number of
/// tool results, so without five tool results the data is never saturated.
pub proof fn law_saturation_counts(scored: Seq<ScoredMessage>)
    ensures
        error_count(scored) == scored.filter(|s: ScoredMessage| s.is_error).len(),
        data_rich_count(scored) == scored.filter(
            |s: ScoredMessage| s.is_tool_result && s.active_dims >= 1,
        ).len(),
        data_rich_count(scored) <= scored.filter(|s: ScoredMessage| s.is_tool_result).len(),
{
    lemma_count_scored_filter(
        scored,
        |s: ScoredMessage| s.is_error,
        |s: ScoredMessage| s.is_error,
    );
    lemma_count_scored_filter(
        scored,
        |s: ScoredMessage| s.active_dims >= 1 && s.is_tool_result,
        |s: ScoredMessage| s.is_tool_result && s.active_dims >= 1,
    );
    lemma_count_scored_filter(
        scored,
        |s: ScoredMessage| s.is_tool_result,
        |s: ScoredMessage| s.is_tool_result,
    );
    lemma_count_scored_le(
        scored,
        |s: ScoredMessage| s.active_dims >= 1 && s.is_tool_result,
        |s: ScoredMessage| s.is_tool_result,
    );
}

proof fn lemma_count_line_filter(ls: Seq<Seq<char>>, l: Seq<char>)
    ensures
        count_line(ls, l) == ls.filter(|x: Seq<char>| x == l).len(),
    decreases ls.len(),
{
    reveal(Seq::filter);
    if ls.len() > 0 {
        lemma_count_line_filter(ls.drop_last(), l);
    }
}

/// The earliest position among the first `n` lines whose line occurs most often in `ls`.
proof fn best_line_upto(ls: Seq<Seq<char>>, n: nat) -> (k: int)
    requires
        1 <= n <= ls.len(),
    ensures
        0 <= k < n,
        forall|j: int| 0 <= j < n ==> count_line(ls, #[trigger] ls[j]) <= count_line(ls, ls[k]),
        forall|j: int| 0 <= j < k ==> count_line(ls, #[trigger] ls[j]) < count_line(ls, ls[k]),
    decreases n,
{
    if n == 1 {
        0
    } else {
        let b = best_line_upto(ls, (n - 1) as nat);
        if count_line(ls, ls[n - 1]) > count_line(ls, ls[b]) {
            n - 1
        } else {
            b
        }
    }
}

/// The dominant error is reported exactly when there are three or more
/// errors and some error message is in the conversation. It is then one of
/// the lines that stand for the error messages; no line occurs more often
/// among them, and every line before it occurs less often.
pub proof fn law_dominant_error(scored: Seq<ScoredMessage>, msgs: Seq<Message>)
    ensures
        ({
            let ls = error_lines(scored, msgs);
            &&& dominant_error(scored, msgs) is Some <==> error_count(scored) >= 3 && ls.len() > 0
            &&& dominant_error(scored, msgs) matches Some(l) ==> exists|k: int|
                0 <= k < ls.len() && ls[k] == l && (forall|j: int|
                    0 <= j < ls.len() ==> ls.filter(|x: Seq<char>| x == #[trigger] ls[j]).len()
                        <= ls.filter(|x: Seq<char>| x == l).len()) && (forall|j: int|
                    0 <= j < k ==> ls.filter(|x: Seq<char>| x == #[trigger] ls[j]).len()
                        < ls.filter(|x: Seq<char>| x == l).len())
        }),
{
    let ls = error_lines(scored, msgs);
    if ls.len() > 0 {
        let b = best_line_upto(ls, ls.len());
        assert(is_dominant_at(ls, b));
    }
    if error_count(scored) >= 3 && ls.len() > 0 {
        let k = choose|k: int| is_dominant_at(ls, k);
        let l = ls[k];
        lemma_count_line_filter(ls, l);
        assert forall|j: int| 0 <= j < ls.len() implies ls.filter(
            |x: Seq<char>| x == #[trigger] ls[j],
        ).len() <= ls.filter(|x: Seq<char>| x == l).len() by {
            let lj = ls[j];
            lemma_count_line_filter(ls, lj);
            assert((|x: Seq<char>| x == ls[j]) =~= (|x: Seq<char>| x == lj));
        }
        assert forall|j: int| 0 <= j < k implies ls.filter(|x: Seq<char>| x == #[trigger] ls[j]).len()
            < ls.filter(|x: Seq<char>| x == l).len() by {
            let lj = ls[j];
            lemma_count_line_filter(ls, lj);
            assert((|x: Seq<char>| x == ls[j]) =~= (|x: Seq<char>| x == lj));
        }
    }
}

/// Counts errors and data-rich tool results.
fn count_errors_and_data(scored: &[ScoredMessage]) -> (res: (usize, usize))
    ensures
        res.0 == error_count(scored@),
        res.1 == data_rich_count(scored@),
{
    let mut errors: usize = 0;
    let mut rich: usize = 0;
    let mut i: usize = 0;
    while i < scored.len()
        invariant
            i <= scored.len(),
            errors <= i,
            rich <= i,
            errors == error_count(scored@.take(i as int)),
            rich == data_rich_count(scored@.take(i as int)),
        decreases scored.len() - i,
    {
        assert(scored@.take(i + 1).drop_last() =~= scored@.take(i as int));
        if scored[i].is_error {
            errors = errors + 1;
        }
        if scored[i].active_dims >= 1 && scored[i].is_tool_result {
            rich = rich + 1;
        }
        i = i + 1;
    }
    assert(scored@.take(scored.len() as int) =~= scored@);
    (errors, rich)
}

/// The line that stands for an error message.
fn error_line_of(content: &str) -> (res: String)
    ensures
        res@ == error_line(content@),
{
    let chars = chars_of(content);
    match find_error_line(&chars) {
        Some((a, b)) => {
            let mut out = String::new();
            push_chars(&mut out, &chars, a, b);
            assert(out@ =~= chars@.subrange(a as int, b as int));
            out
        },
        None => {
            let mut out = String::new();
            push_str(&mut out, "unknown error");
            assert(out@ =~= "unknown error"@);
            out
        },
    }
}

/// The lines that stand for the scored error messages that are in `messages`.
fn error_lines_of(scored: &[ScoredMessage], messages: &[Message]) -> (res: Vec<String>)
    ensures
        res@.map_values(|l: String| l@) == error_lines(scored@, messages@),
{
    let mut res: Vec<String> = Vec::new();
    let mut i: usize = 0;
    while i < scored.len()
        invariant
            i <= scored.len(),
            res@.map_values(|l: String| l@) == error_lines(scored@.take(i as int), messages@),
        decreases scored.len() - i,
    {
        assert(scored@.take(i + 1).drop_last() =~= scored@.take(i as int));
        let ghost before = res@;
        if scored[i].is_error && scored[i].index < messages.len() {
            res.push(error_line_of(messages[scored[i].index].content.as_str()));
            assert(res@.map_values(|l: String| l@) =~= before.map_values(|l: String| l@).push(
                res@.last()@,
            ));
        }
        i = i + 1;
    }
    assert(scored@.take(scored.len() as int) =~= scored@);
    res
}

/// How many times the line at position `k` of `ls` occurs in `ls`.
fn count_of_line(ls: &Vec<String>, k: usize) -> (res: usize)
    requires
        k < ls@.len(),
    ensures
        res == count_line(ls@.map_values(|l: String| l@), ls@[k as int]@),
{
    let ghost lw = ls@.map_values(|l: String| l@);
    let mut n: usize = 0;
    let mut j: usize = 0;
    while j < ls.len()
        invariant
            k < ls@.len(),
            j <= ls.len(),
            lw == ls@.map_values(|l: String| l@),
            n <= j,
            n == count_line(lw.take(j as int), ls@[k as int]@),
        decreases ls.len() - j,
    {
        assert(lw.take(j + 1).drop_last() =~= lw.take(j as int));
        assert(lw.take(j + 1).last() == ls@[j as int]@);
        if str_equal(ls[j].as_str(), ls[k].as_str()) {
            n = n + 1;
        }
        j = j + 1;
    }
    assert(lw.take(ls.len() as int) =~= lw);
    n
}

/// The most common of the lines `ls` (the earliest among equally common ones).
fn most_common_line(ls: &Vec<String>) -> (res: Option<String>)
    ensures
        opt_chars(res) == most_common(ls@.map_values(|l: String| l@)),
{
    let ghost lw = ls@.map_values(|l: String| l@);
    if ls.len() == 0 {
        return None;
    }
    let mut best: usize = 0;
    let mut best_count = count_of_line(ls, 0);
    let mut k: usize = 1;
    while k < ls.len()
        invariant
            1 <= k <= ls.len(),
            lw == ls@.map_values(|l: String| l@),
            best < k,
            best_count == count_line(lw, lw[best as int]),
            forall|j: int| 0 <= j < k ==> count_line(lw, #[trigger] lw[j]) <= best_count,
            forall|j: int| 0 <= j < best ==> count_line(lw, #[trigger] lw[j]) < best_count,
        decreases ls.len() - k,
    {
        let c = count_of_line(ls, k);
        if c > best_count {
            best = k;
            best_count = c;
        }
        k = k + 1;
    }
    assert(is_dominant_at(lw, best as int));
    proof {
        let c = choose|c: int| is_dominant_at(lw, c);
        if c < best {
            assert(count_line(lw, lw[c]) < count_line(lw, lw[best as int]));
        } else if best < c {
            assert(count_line(lw, lw[best as int]) < count_line(lw, lw[c]));
        }
        assert(c == best);
    }
    Some(ls[best].clone())
}

/// Detect saturated dimensions among the scored messages.
pub fn detect_saturation(scored: &[ScoredMessage], messages: &[Message]) -> (res: SaturationReport)
    ensures
        res.error_count == error_count(scored@),
        opt_chars(res.dominant_error) == dominant_error(scored@, messages@),
        res.data_saturated == (data_rich_count(scored@) >= 5),
{
    let (errors, rich) = count_errors_and_data(scored);
    let dominant = if errors >= 3 {
        let lines = error_lines_of(scored, messages);
        most_common_line(&lines)
    } else {
        None
    };
    SaturationReport { error_count: errors, dominant_error: dominant, data_saturated: rich >= 5 }
}

// ── Summariser prompts ───────────────────────────────────────────────

/// The summariser's system prompt.
pub open spec fn summariser_system_text() -> Seq<char> {
    "Output only bullet points of key findings. No preamble. No tool calls. No thinking tags."@
}

/// The problem-class-specific line of the summariser's instruction.
pub open spec fn class_instruction(c: ProblemClass) -> Seq<char> {
    match c {
        ProblemClass::Lookup =>
            "Focus on THE ANSWER. Drop everything that isn't the direct answer to the question.\n"@,
        ProblemClass::MultiHop =>
            "Preserve the CHAIN of reasoning: what led to what. Use arrows (→) for dependencies.\n"@,
        ProblemClass::Exploratory =>
            "Focus on what WORKED. Failed approaches → one line each (type only). Successes → full detail.\n"@,
        ProblemClass::Aggregation =>
            "Preserve COUNTS and TOTALS. Individual items → summarize as categories with counts.\n"@,
        ProblemClass::Contradiction =>
            "Preserve BOTH conflicting data points. Do NOT resolve the contradiction — state both sides.\n"@,
        ProblemClass::Temporal =>
            "Preserve CHRONOLOGICAL ORDER. Include all dates/timestamps. Sequence matters.\n"@,
    }
}

/// The note on saturated errors: present when there are three or more errors
/// and a dominant one.
pub open spec fn saturation_note(error_count: usize, dominant: Option<Seq<char>>) -> Seq<char> {
    if error_count >= 3 && dominant is Some {
        "\nNote: "@ + decimal(error_count as nat) + " errors occurred (type: "@ + dominant->0
            + "). Summarize as one line, not individually.\n"@
    } else {
        seq![]
    }
}

/// The summariser's instruction for a problem class and a saturation report.
pub open spec fn summariser_instruction_text(
    c: ProblemClass,
    error_count: usize,
    dominant: Option<Seq<char>>,
) -> Seq<char> {
    "Summarize these exchanges into key findings.\n"@ + class_instruction(c) + saturation_note(
        error_count,
        dominant,
    )
        + "\nRules:\n- Bullet points only\n- Preserve ALL numbers and data\n- Maximum 5 bullets\n- Drop verbose formatting\n\n"@
}

/// Build problem-class-aware summariser prompts: the system prompt and the instruction.
pub fn build_summariser_prompts(
    problem_class: ProblemClass,
    saturation: &SaturationReport,
    _preserve_indices: &[usize],
    _messages: &[Message],
) -> (res: (String, String))
    ensures
        res.0@ == summariser_system_text(),
        res.1@ == summariser_instruction_text(
            problem_class,
            saturation.error_count,
            opt_chars(saturation.dominant_error),
        ),
{
    let mut system = String::new();
    push_str(
        &mut system,
        "Output only bullet points of key findings. No preamble. No tool calls. No thinking tags.",
    );
    assert(system@ =~= summariser_system_text());

    let mut instruction = String::new();
    push_str(&mut instruction, "Summarize these exchanges into key findings.\n");
    match problem_class {
        ProblemClass::Lookup => {
            push_str(
                &mut instruction,
                "Focus on THE ANSWER. Drop everything that isn't the direct answer to the question.\n",
            );
        },
        ProblemClass::MultiHop => {
            push_str(
                &mut instruction,
                "Preserve the CHAIN of reasoning: what led to what. Use arrows (→) for dependencies.\n",
            );
        },
        ProblemClass::Exploratory => {
            push_str(
                &mut instruction,
                "Focus on what WORKED. Failed approaches → one line each (type only). Successes → full detail.\n",
            );
        },
        ProblemClass::Aggregation => {
            push_str(
                &mut instruction,
                "Preserve COUNTS and TOTALS. Individual items → summarize as categories with counts.\n",
            );
        },
        ProblemClass::Contradiction => {
            push_str(
                &mut instruction,
                "Preserve BOTH conflicting data points. Do NOT resolve the contradiction — state both sides.\n",
            );
        },
        ProblemClass::Temporal => {
            push_str(
                &mut instruction,
                "Preserve CHRONOLOGICAL ORDER. Include all dates/timestamps. Sequence matters.\n",
            );
        },
    }
    let ghost head = instruction@;
    if saturation.error_count >= 3 {
        match &saturation.dominant_error {
            Some(err) => {
                push_str(&mut instruction, "\nNote: ");
                push_decimal(&mut instruction, saturation.error_count);
                push_str(&mut instruction, " errors occurred (type: ");
                push_str(&mut instruction, err.as_str());
                push_str(&mut instruction, "). Summarize as one line, not individually.\n");
            },
            None => {},
        }
    }
    assert(instruction@ =~= head + saturation_note(
        saturation.error_count,
        opt_chars(saturation.dominant_error),
    ));
    push_str(
        &mut instruction,
        "\nRules:\n- Bullet points only\n- Preserve ALL numbers and data\n- Maximum 5 bullets\n- Drop verbose formatting\n\n",
    );
    assert(instruction@ =~= summariser_instruction_text(
        problem_class,
        saturation.error_count,
        opt_chars(saturation.dominant_error),
    ));
    (system, instruction)
}

// ── Compression plan ─────────────────────────────────────────────────

/// Instructions for the summariser, adapted to problem class and influence.
pub struct CompressionPlan {
    /// Messages to preserve verbatim (high influence, multi-dimensional).
    pub preserve_verbatim: Vec<usize>,
    /// Messages to compress lightly (medium influence, in causal chains).
    pub compress_light: Vec<usize>,
    /// Messages to compress aggressively (low influence, errors, saturated).
    pub compress_heavy: Vec<usize>,
    /// The summariser system prompt (adapted to problem class).
    pub summariser_system: String,
    /// The summariser user prompt template.
    pub summariser_instruction: String,
    /// Target bullet count for the summary.
    pub target_bullets: usize,
}

/// What happens to a message in the plan.
pub enum Treatment {
    Preserve,
    Light,
    Heavy,
}

/// The influence keys of the scored messages.
pub open spec fn keys_of(scored: Seq<ScoredMessage>) -> Seq<u64> {
    scored.map_values(|s: ScoredMessage| s.influence_key)
}

/// The median influence key: the key at position `len / 2` of the keys in
/// ascending order.
pub open spec fn median_key(scored: Seq<ScoredMessage>) -> u64 {
    choose|m: u64| #[trigger] is_kth_smallest(keys_of(scored), (scored.len() / 2) as int, m)
}

/// The treatment a message gets before problem-class adjustments. Errors
/// compress heavily unless they are in a chain and above the median; other
/// messages above the median with three or more dimensions are preserved;
/// chain members compress lightly; above half the median, lightly; the rest heavily.
pub open spec fn base_treatment(sm: ScoredMessage, median: u64, chains: Seq<ChainModel>) -> Treatment {
    if sm.is_error {
        if in_some_chain(chains, sm.index) && sm.influence_key > median {
            Treatment::Light
        } else {
            Treatment::Heavy
        }
    } else if sm.influence_key > median && sm.active_dims >= 3 {
        Treatment::Preserve
    } else if in_some_chain(chains, sm.index) {
        Treatment::Light
    } else if sm.influence_key > half_key(median) {
        Treatment::Light
    } else {
        Treatment::Heavy
    }
}

/// The indices of the scored messages with treatment `t`, in order.
pub open spec fn treated(
    scored: Seq<ScoredMessage>,
    median: u64,
    chains: Seq<ChainModel>,
    t: Treatment,
) -> Seq<usize>
    decreases scored.len(),
{
    if scored.len() == 0 {
        seq![]
    } else if base_treatment(scored.last(), median, chains) == t {
        treated(scored.drop_last(), median, chains, t).push(scored.last().index)
    } else {
        treated(scored.drop_last(), median, chains, t)
    }
}

/// The elements of `s` that satisfy `p`, in order.
pub open spec fn select(s: Seq<usize>, p: spec_fn(usize) -> bool) -> Seq<usize>
    decreases s.len(),
{
    if s.len() == 0 {
        seq![]
    } else if p(s.last()) {
        select(s.drop_last(), p).push(s.last())
    } else {
        select(s.drop_last(), p)
    }
}

/// Message `idx` exists and carries a tool result.
pub open spec fn tool_result_at(msgs: Seq<Message>, idx: usize) -> bool {
    idx < msgs.len() && is_tool_result_text(msgs[idx as int].content@)
}

/// The position of the tool result with the highest influence among the
/// first `n` scored messages; among equals, the last.
pub open spec fn best_tool_result_upto(scored: Seq<ScoredMessage>, n: nat) -> Option<int>
    decreases n,
{
    if n == 0 {
        None
    } else {
        let b = best_tool_result_upto(scored, (n - 1) as nat);
        let x = scored[n - 1];
        if x.is_tool_result && (b is None || scored[b->0].influence_key <= x.influence_key) {
            Some(n - 1)
        } else {
            b
        }
    }
}

/// The position of the tool result with the highest influence; among equals, the last.
pub open spec fn best_tool_result(scored: Seq<ScoredMessage>) -> Option<int> {
    best_tool_result_upto(scored, scored.len())
}

/// The three lists of the plan (preserve, light, heavy) for a given median:
/// the base treatments, then the problem-class adjustments. Contradiction moves
/// tool results from heavy to light; Lookup preserves the best tool result.
pub open spec fn planned_lists(
    scored: Seq<ScoredMessage>,
    median: u64,
    chains: Seq<ChainModel>,
    class: ProblemClass,
    msgs: Seq<Message>,
) -> (Seq<usize>, Seq<usize>, Seq<usize>) {
    let preserve = treated(scored, median, chains, Treatment::Preserve);
    let light = treated(scored, median, chains, Treatment::Light);
    let heavy = treated(scored, median, chains, Treatment::Heavy);
    match class {
        ProblemClass::Contradiction => (
            preserve,
            light + select(heavy, |i: usize| tool_result_at(msgs, i)),
            select(heavy, |i: usize| !tool_result_at(msgs, i)),
        ),
        ProblemClass::Lookup => match best_tool_result(scored) {
            Some(b) => {
                let idx = scored[b].index;
                if !preserve.contains(idx) {
                    (
                        preserve.push(idx),
                        select(light, |i: usize| i != idx),
                        select(heavy, |i: usize| i != idx),
                    )
                } else {
                    (preserve, light, heavy)
                }
            },
            None => (preserve, light, heavy),
        },
        _ => (preserve, light, heavy),
    }
}

/// Whether some chain holds message `idx`.
fn chains_hold(chains: &[CausalChain], idx: usize) -> (res: bool)
    ensures
        res == in_some_chain(chains@.map_values(|ch: CausalChain| ch@), idx),
{
    let ghost model = chains@.map_values(|ch: CausalChain| ch@);
    let mut c: usize = 0;
    while c < chains.len()
        invariant
            c <= chains.len(),
            model == chains@.map_values(|ch: CausalChain| ch@),
            forall|j: int| 0 <= j < c ==> !(#[trigger] model[j]).indices.contains(idx),
        decreases chains.len() - c,
    {
        let mut k: usize = 0;
        while k < chains[c].indices.len()
            invariant
                c < chains.len(),
                model == chains@.map_values(|ch: CausalChain| ch@),
                k <= chains[c as int].indices.len(),
                forall|j: int| 0 <= j < k ==> chains[c as int].indices@[j] != idx,
            decreases chains[c as int].indices.len() - k,
        {
            if chains[c].indices[k] == idx {
                assert(model[c as int].indices[k as int] == idx);
                assert(model[c as int].indices.contains(idx));
                return true;
            }
            k = k + 1;
        }
        assert(!model[c as int].indices.contains(idx));
        c = c + 1;
    }
    false
}

/// The elements of `v` that are not `x`, in order.
fn without(v: &Vec<usize>, x: usize) -> (res: Vec<usize>)
    ensures
        res@ == select(v@, |i: usize| i != x),
{
    let mut res: Vec<usize> = Vec::new();
    let mut k: usize = 0;
    while k < v.len()
        invariant
            k <= v.len(),
            res@ == select(v@.take(k as int), |i: usize| i != x),
        decreases v.len() - k,
    {
        assert(v@.take(k + 1).drop_last() =~= v@.take(k as int));
        if v[k] != x {
            res.push(v[k]);
        }
        k = k + 1;
    }
    assert(v@.take(v.len() as int) =~= v@);
    res
}

/// Whether message `idx` exists and carries a tool result.
fn is_tool_result_at(messages: &[Message], idx: usize) -> (res: bool)
    ensures
        res == tool_result_at(messages@, idx),
{
    if idx < messages.len() {
        let content = chars_of(messages[idx].content.as_str());
        is_tool_result_content(&content)
    } else {
        false
    }
}

/// Splits `v` into the elements that are tool results and those that are not.
fn split_tool_results(v: &Vec<usize>, messages: &[Message]) -> (res: (Vec<usize>, Vec<usize>))
    ensures
        res.0@ == select(v@, |i: usize| tool_result_at(messages@, i)),
        res.1@ == select(v@, |i: usize| !tool_result_at(messages@, i)),
{
    let mut yes: Vec<usize> = Vec::new();
    let mut no: Vec<usize> = Vec::new();
    let mut k: usize = 0;
    while k < v.len()
        invariant
            k <= v.len(),
            yes@ == select(v@.take(k as int), |i: usize| tool_result_at(messages@, i)),
            no@ == select(v@.take(k as int), |i: usize| !tool_result_at(messages@, i)),
        decreases v.len() - k,
    {
        assert(v@.take(k + 1).drop_last() =~= v@.take(k as int));
        if is_tool_result_at(messages, v[k]) {
            yes.push(v[k]);
        } else {
            no.push(v[k]);
        }
        k = k + 1;
    }
    assert(v@.take(v.len() as int) =~= v@);
    (yes, no)
}

/// The position of the tool result with the highest influence; among equals, the last.
fn find_best_tool_result(scored: &[ScoredMessage]) -> (res: Option<usize>)
    ensures
        res matches Some(b) ==> b < scored@.len() && best_tool_result(scored@) == Some(b as int),
        res is None ==> best_tool_result(scored@) is None,
{
    let mut best: Option<usize> = None;
    let mut i: usize = 0;
    while i < scored.len()
        invariant
            i <= scored.len(),
            best matches Some(b) ==> b < i && best_tool_result_upto(scored@, i as nat) == Some(
                b as int,
            ),
            best is None ==> best_tool_result_upto(scored@, i as nat) is None,
        decreases scored.len() - i,
    {
        if scored[i].is_tool_result {
            match best {
                None => {
                    best = Some(i);
                },
                Some(b) => {
                    if scored[b].influence_key <= scored[i].influence_key {
                        best = Some(i);
                    }
                },
            }
        }
        i = i + 1;
    }
    best
}

/// Whether `v` holds `x`.
fn holds(v: &Vec<usize>, x: usize) -> (res: bool)
    ensures
        res == v@.contains(x),
{
    let mut i: usize = 0;
    while i < v.len()
        invariant
            i <= v.len(),
            forall|j: int| 0 <= j < i ==> v@[j] != x,
        decreases v.len() - i,
    {
        if v[i] == x {
            return true;
        }
        i = i + 1;
    }
    false
}

/// The plan's lists when it has messages (see `planned_lists`).
pub open spec fn plan_matches(
    plan: CompressionPlan,
    scored: Seq<ScoredMessage>,
    chains: Seq<ChainModel>,
    saturation: SaturationReport,
    class: ProblemClass,
    msgs: Seq<Message>,
) -> bool {
    let lists = planned_lists(scored, median_key(scored), chains, class, msgs);
    &&& plan.preserve_verbatim@ == lists.0
    &&& plan.compress_light@ == lists.1
    &&& plan.compress_heavy@ == lists.2
    &&& plan.summariser_system@ == summariser_system_text()
    &&& plan.summariser_instruction@ == summariser_instruction_text(
        class,
        saturation.error_count,
        opt_chars(saturation.dominant_error),
    )
    &&& plan.target_bullets == 5
}

/// Build a compression plan from scored messages, chains and saturation.
pub fn plan_compression(
    scored: &[ScoredMessage],
    chains: &[CausalChain],
    saturation: &SaturationReport,
    problem_class: ProblemClass,
    messages: &[Message],
) -> (res: CompressionPlan)
    ensures
        scored@.len() == 0 ==> {
            &&& res.preserve_verbatim@.len() == 0
            &&& res.compress_light@.len() == 0
            &&& res.compress_heavy@.len() == 0
            &&& res.summariser_system@.len() == 0
            &&& res.summariser_instruction@.len() == 0
            &&& res.target_bullets == 5
        },
        scored@.len() > 0 ==> plan_matches(
            res,
            scored@,
            chains@.map_values(|ch: CausalChain| ch@),
            *saturation,
            problem_class,
            messages@,
        ),
{
    if scored.len() == 0 {
        return CompressionPlan {
            preserve_verbatim: Vec::new(),
            compress_light: Vec::new(),
            compress_heavy: Vec::new(),
            summariser_system: String::new(),
            summariser_instruction: String::new(),
            target_bullets: 5,
        };
    }
    let ghost model = chains@.map_values(|ch: CausalChain| ch@);

    // The median influence key.
    let mut keys: Vec<u64> = Vec::new();
    let mut k: usize = 0;
    while k < scored.len()
        invariant
            k <= scored.len(),
            keys@ == keys_of(scored@).take(k as int),
        decreases scored.len() - k,
    {
        keys.push(scored[k].influence_key);
        k = k + 1;
        assert(keys@ =~= keys_of(scored@).take(k as int));
    }
    assert(keys@ =~= keys_of(scored@));
    let median = kth_smallest(&keys, scored.len() / 2);
    proof {
        crate::influence::lemma_kth_smallest_unique(
            keys_of(scored@),
            (scored@.len() / 2) as int,
            median,
            median_key(scored@),
        );
    }
    let half_median = half_influence_key(median);

    let mut preserve_verbatim: Vec<usize> = Vec::new();
    let mut compress_light: Vec<usize> = Vec::new();
    let mut compress_heavy: Vec<usize> = Vec::new();
    let mut i: usize = 0;
    while i < scored.len()
        invariant
            i <= scored.len(),
            model == chains@.map_values(|ch: CausalChain| ch@),
            half_median == half_key(median),
            preserve_verbatim@ == treated(scored@.take(i as int), median, model, Treatment::Preserve),
            compress_light@ == treated(scored@.take(i as int), median, model, Treatment::Light),
            compress_heavy@ == treated(scored@.take(i as int), median, model, Treatment::Heavy),
        decreases scored.len() - i,
    {
        assert(scored@.take(i + 1).drop_last() =~= scored@.take(i as int));
        let sm = scored[i];
        let in_chain = chains_hold(chains, sm.index);
        if sm.is_error {
            if in_chain && sm.influence_key > median {
                compress_light.push(sm.index);
            } else {
                compress_heavy.push(sm.index);
            }
        } else if sm.influence_key > median && sm.active_dims >= 3 {
            preserve_verbatim.push(sm.index);
        } else if in_chain {
            compress_light.push(sm.index);
        } else if sm.influence_key > half_median {
            compress_light.push(sm.index);
        } else {
            compress_heavy.push(sm.index);
        }
        i = i + 1;
    }
    assert(scored@.take(scored.len() as int) =~= scored@);

    // Problem-class-specific adjustments.
    match problem_class {
        ProblemClass::Contradiction => {
            let (moved, kept) = split_tool_results(&compress_heavy, messages);
            let mut k: usize = 0;
            let ghost light0 = compress_light@;
            while k < moved.len()
                invariant
                    k <= moved.len(),
                    compress_light@ == light0 + moved@.take(k as int),
                decreases moved.len() - k,
            {
                compress_light.push(moved[k]);
                k = k + 1;
                assert(compress_light@ =~= light0 + moved@.take(k as int));
            }
            assert(moved@.take(moved.len() as int) =~= moved@);
            compress_heavy = kept;
        },
        ProblemClass::Lookup => {
            match find_best_tool_result(scored) {
                Some(b) => {
                    let idx = scored[b].index;
                    if !holds(&preserve_verbatim, idx) {
                        preserve_verbatim.push(idx);
                        compress_light = without(&compress_light, idx);
                        compress_heavy = without(&compress_heavy, idx);
                    }
                },
                None => {},
            }
        },
        _ => {},
    }

    let (summariser_system, summariser_instruction) = build_summariser_prompts(
        problem_class,
        saturation,
        &preserve_verbatim,
        messages,
    );
    CompressionPlan {
        preserve_verbatim,
        compress_light,
        compress_heavy,
        summariser_system,
        summariser_instruction,
        target_bullets: 5,
    }
}

// ── What the plan reads of the conversation ─────────────────────────

proof fn lemma_select_below(s: Seq<usize>, p: spec_fn(usize) -> bool, bound: usize)
    requires
        forall|k: int| 0 <= k < s.len() ==> #[trigger] s[k] < bound,
    ensures
        forall|k: int| 0 <= k < select(s, p).len() ==> #[trigger] select(s, p)[k] < bound,
    decreases s.len(),
{
    if s.len() > 0 {
        let init = s.drop_last();
        assert forall|k: int| 0 <= k < init.len() implies #[trigger] init[k] < bound by {
            assert(init[k] == s[k]);
        }
        lemma_select_below(init, p, bound);
        let r = select(init, p);
        assert forall|k: int| 0 <= k < select(s, p).len() implies #[trigger] select(s, p)[k]
            < bound by {
            if k < r.len() {
                assert(select(s, p)[k] == r[k]);
            } else {
                assert(select(s, p)[k] == s.last());
            }
        }
    }
}

proof fn lemma_select_agree(s: Seq<usize>, p1: spec_fn(usize) -> bool, p2: spec_fn(usize) -> bool)
    requires
        forall|k: int| 0 <= k < s.len() ==> p1(#[trigger] s[k]) == p2(s[k]),
    ensures
        select(s, p1) == select(s, p2),
    decreases s.len(),
{
    if s.len() > 0 {
        let init = s.drop_last();
        assert forall|k: int| 0 <= k < init.len() implies p1(#[trigger] init[k]) == p2(init[k]) by {
            assert(init[k] == s[k]);
        }
        lemma_select_agree(init, p1, p2);
        assert(p1(s[s.len() - 1]) == p2(s[s.len() - 1]));
    }
}

/// The plan reads the conversation only at the scored messages: when all of
/// them lie below `bound`, two conversations of the same length that agree
/// below `bound` give the same lists, and every listed index lies below `bound`.
pub proof fn lemma_planned_lists_local(
    scored: Seq<ScoredMessage>,
    median: u64,
    chains: Seq<ChainModel>,
    class: ProblemClass,
    msgs1: Seq<Message>,
    msgs2: Seq<Message>,
    bound: usize,
)
    requires
        forall|p: int| 0 <= p < scored.len() ==> #[trigger] scored[p].index < bound,
        msgs1.len() == msgs2.len(),
        forall|i: int| 0 <= i < bound && i < msgs1.len() ==> #[trigger] msgs1[i] == msgs2[i],
    ensures
        planned_lists(scored, median, chains, class, msgs1) == planned_lists(
            scored,
            median,
            chains,
            class,
            msgs2,
        ),
        forall|k: int|
            0 <= k < planned_lists(scored, median, chains, class, msgs1).0.len()
                ==> #[trigger] planned_lists(scored, median, chains, class, msgs1).0[k] < bound,
        forall|k: int|
            0 <= k < planned_lists(scored, median, chains, class, msgs1).1.len()
                ==> #[trigger] planned_lists(scored, median, chains, class, msgs1).1[k] < bound,
        forall|k: int|
            0 <= k < planned_lists(scored, median, chains, class, msgs1).2.len()
                ==> #[trigger] planned_lists(scored, median, chains, class, msgs1).2[k] < bound,
{
    let preserve = treated(scored, median, chains, Treatment::Preserve);
    let light = treated(scored, median, chains, Treatment::Light);
    let heavy = treated(scored, median, chains, Treatment::Heavy);
    lemma_treated_below(scored, median, chains, Treatment::Preserve, bound);
    lemma_treated_below(scored, median, chains, Treatment::Light, bound);
    lemma_treated_below(scored, median, chains, Treatment::Heavy, bound);
    match class {
        ProblemClass::Contradiction => {
            let y1 = |i: usize| tool_result_at(msgs1, i);
            let y2 = |i: usize| tool_result_at(msgs2, i);
            let n1 = |i: usize| !tool_result_at(msgs1, i);
            let n2 = |i: usize| !tool_result_at(msgs2, i);
            assert forall|k: int| 0 <= k < heavy.len() implies y1(#[trigger] heavy[k]) == y2(
                heavy[k],
            ) by {
                assert(heavy[k] < bound);
            }
            assert forall|k: int| 0 <= k < heavy.len() implies n1(#[trigger] heavy[k]) == n2(
                heavy[k],
            ) by {
                assert(heavy[k] < bound);
            }
            lemma_select_agree(heavy, y1, y2);
            lemma_select_agree(heavy, n1, n2);
            lemma_select_below(heavy, y1, bound);
            lemma_select_below(heavy, n1, bound);
            let l = light + select(heavy, y1);
            assert forall|k: int| 0 <= k < l.len() implies #[trigger] l[k] < bound by {
                if k < light.len() {
                    assert(l[k] == light[k]);
                } else {
                    assert(l[k] == select(heavy, y1)[k - light.len()]);
                }
            }
        },
        ProblemClass::Lookup => {
            lemma_best_in_range(scored, scored.len());
            match best_tool_result(scored) {
                Some(b) => {
                    let idx = scored[b].index;
                    lemma_select_below(light, |i: usize| i != idx, bound);
                    lemma_select_below(heavy, |i: usize| i != idx, bound);
                    let pr = preserve.push(idx);
                    assert forall|k: int| 0 <= k < pr.len() implies #[trigger] pr[k] < bound by {
                        if k < preserve.len() {
                            assert(pr[k] == preserve[k]);
                        }
                    }
                },
                None => {},
            }
        },
        _ => {},
    }
}

/// The error lines read the conversation only at the scored messages.
pub proof fn lemma_error_lines_local(
    scored: Seq<ScoredMessage>,
    msgs1: Seq<Message>,
    msgs2: Seq<Message>,
    bound: usize,
)
    requires
        forall|p: int| 0 <= p < scored.len() ==> #[trigger] scored[p].index < bound,
        msgs1.len() == msgs2.len(),
        forall|i: int| 0 <= i < bound && i < msgs1.len() ==> #[trigger] msgs1[i] == msgs2[i],
    ensures
        error_lines(scored, msgs1) == error_lines(scored, msgs2),
        dominant_error(scored, msgs1) == dominant_error(scored, msgs2),
    decreases scored.len(),
{
    if scored.len() > 0 {
        let init = scored.drop_last();
        assert forall|p: int| 0 <= p < init.len() implies #[trigger] init[p].index < bound by {
            assert(init[p] == scored[p]);
        }
        lemma_error_lines_local(init, msgs1, msgs2, bound);
        let last = scored[scored.len() - 1];
        assert(last.index < bound);
        if last.index < msgs1.len() {
            assert(msgs1[last.index as int] == msgs2[last.index as int]);
        }
    }
}

// ── Laws of the plan ─────────────────────────────────────────────────

/// How many times `x` occurs in `s`.
pub open spec fn occurrences(s: Seq<usize>, x: usize) -> nat
    decreases s.len(),
{
    if s.len() == 0 {
        0
    } else {
        occurrences(s.drop_last(), x) + if s.last() == x {
            1nat
        } else {
            0nat
        }
    }
}

/// The indices of the scored messages, in order.
pub open spec fn scored_indices(scored: Seq<ScoredMessage>) -> Seq<usize> {
    scored.map_values(|s: ScoredMessage| s.index)
}

/// No two scored messages have the same index.
pub open spec fn indices_distinct(scored: Seq<ScoredMessage>) -> bool {
    forall|p: int, q: int|
        0 <= p < q < scored.len() ==> #[trigger] scored[p].index != #[trigger] scored[q].index
}

proof fn lemma_occ_append(a: Seq<usize>, b: Seq<usize>, x: usize)
    ensures
        occurrences(a + b, x) == occurrences(a, x) + occurrences(b, x),
    decreases b.len(),
{
    if b.len() == 0 {
        assert(a + b =~= a);
    } else {
        lemma_occ_append(a, b.drop_last(), x);
        assert((a + b).drop_last() =~= a + b.drop_last());
    }
}

proof fn lemma_occ_select(s: Seq<usize>, p: spec_fn(usize) -> bool, x: usize)
    ensures
        occurrences(select(s, p), x) == if p(x) {
            occurrences(s, x)
        } else {
            0
        },
    decreases s.len(),
{
    if s.len() > 0 {
        lemma_occ_select(s.drop_last(), p, x);
        if p(s.last()) {
            assert(select(s, p).drop_last() =~= select(s.drop_last(), p));
        }
    }
}

proof fn lemma_occ_contains(s: Seq<usize>, x: usize)
    ensures
        occurrences(s, x) > 0 <==> s.contains(x),
    decreases s.len(),
{
    if s.len() > 0 {
        lemma_occ_contains(s.drop_last(), x);
        if s.drop_last().contains(x) {
            let i = choose|i: int| 0 <= i < s.drop_last().len() && s.drop_last()[i] == x;
            assert(s[i] == x);
        }
        if s.contains(x) && s.last() != x {
            let i = choose|i: int| 0 <= i < s.len() && s[i] == x;
            assert(s.drop_last()[i] == x);
        }
    }
}

proof fn lemma_occ_distinct(scored: Seq<ScoredMessage>, x: usize)
    requires
        indices_distinct(scored),
    ensures
        occurrences(scored_indices(scored), x) <= 1,
    decreases scored.len(),
{
    if scored.len() > 0 {
        let init = scored.drop_last();
        assert(scored_indices(scored).drop_last() =~= scored_indices(init));
        assert(indices_distinct(init)) by {
            assert forall|p: int, q: int| 0 <= p < q < init.len() implies #[trigger] init[p].index
                != #[trigger] init[q].index by {
                assert(scored[p].index != scored[q].index);
            }
        }
        lemma_occ_distinct(init, x);
        if scored.last().index == x {
            lemma_occ_contains(scored_indices(init), x);
            if scored_indices(init).contains(x) {
                let i = choose|i: int|
                    0 <= i < scored_indices(init).len() && scored_indices(init)[i] == x;
                assert(scored[i].index != scored[scored.len() - 1].index);
            }
        }
    }
}

proof fn lemma_treated_occ(scored: Seq<ScoredMessage>, median: u64, chains: Seq<ChainModel>, x: usize)
    ensures
        occurrences(treated(scored, median, chains, Treatment::Preserve), x) + occurrences(
            treated(scored, median, chains, Treatment::Light),
            x,
        ) + occurrences(treated(scored, median, chains, Treatment::Heavy), x) == occurrences(
            scored_indices(scored),
            x,
        ),
    decreases scored.len(),
{
    if scored.len() > 0 {
        lemma_treated_occ(scored.drop_last(), median, chains, x);
        assert(scored_indices(scored).drop_last() =~= scored_indices(scored.drop_last()));
        let t = base_treatment(scored.last(), median, chains);
        assert(treated(scored, median, chains, t).drop_last() =~= treated(
            scored.drop_last(),
            median,
            chains,
            t,
        ));
    }
}

/// Nothing is lost or duplicated by the plan: every scored message's index
/// occurs across the three lists exactly as often as among the scored
/// messages, and nothing else occurs there. This holds for any median. For
/// the Lookup class it needs the scored messages to have distinct indices.
pub proof fn law_plan_partitions_messages(
    scored: Seq<ScoredMessage>,
    median: u64,
    chains: Seq<ChainModel>,
    class: ProblemClass,
    msgs: Seq<Message>,
    x: usize,
)
    requires
        class == ProblemClass::Lookup ==> indices_distinct(scored),
    ensures
        ({
            let lists = planned_lists(scored, median, chains, class, msgs);
            occurrences(lists.0, x) + occurrences(lists.1, x) + occurrences(lists.2, x)
                == occurrences(scored_indices(scored), x)
        }),
{
    let preserve = treated(scored, median, chains, Treatment::Preserve);
    let light = treated(scored, median, chains, Treatment::Light);
    let heavy = treated(scored, median, chains, Treatment::Heavy);
    lemma_treated_occ(scored, median, chains, x);
    match class {
        ProblemClass::Contradiction => {
            lemma_occ_append(light, select(heavy, |i: usize| tool_result_at(msgs, i)), x);
            lemma_occ_select(heavy, |i: usize| tool_result_at(msgs, i), x);
            lemma_occ_select(heavy, |i: usize| !tool_result_at(msgs, i), x);
        },
        ProblemClass::Lookup => {
            match best_tool_result(scored) {
                Some(b) => {
                    lemma_best_in_range(scored, scored.len());
                    let idx = scored[b].index;
                    if !preserve.contains(idx) {
                        lemma_occ_select(light, |i: usize| i != idx, x);
                        lemma_occ_select(heavy, |i: usize| i != idx, x);
                        assert(preserve.push(idx).drop_last() =~= preserve);
                        if x == idx {
                            lemma_occ_contains(preserve, idx);
                            lemma_occ_distinct(scored, idx);
                            lemma_treated_occ(scored, median, chains, idx);
                            assert(scored_indices(scored)[b] == idx);
                            lemma_occ_contains(scored_indices(scored), idx);
                        }
                    }
                },
                None => {},
            }
        },
        _ => {},
    }
}

proof fn lemma_best_in_range(scored: Seq<ScoredMessage>, n: nat)
    requires
        n <= scored.len(),
    ensures
        best_tool_result_upto(scored, n) matches Some(b) ==> 0 <= b < n && scored[b].is_tool_result,
    decreases n,
{
    if n > 0 {
        lemma_best_in_range(scored, (n - 1) as nat);
    }
}

/// The best tool result has the highest influence of all tool results.
proof fn lemma_best_is_highest(scored: Seq<ScoredMessage>, n: nat)
    requires
        n <= scored.len(),
    ensures
        best_tool_result_upto(scored, n) matches Some(b) ==> forall|p: int|
            0 <= p < n && #[trigger] scored[p].is_tool_result ==> scored[p].influence_key
                <= scored[b].influence_key,
        best_tool_result_upto(scored, n) is None ==> forall|p: int|
            0 <= p < n ==> !#[trigger] scored[p].is_tool_result,
    decreases n,
{
    if n > 0 {
        lemma_best_is_highest(scored, (n - 1) as nat);
        lemma_best_in_range(scored, (n - 1) as nat);
    }
}

/// For a lookup, the tool result with the highest influence (the last of
/// equals) is preserved verbatim; it is no longer compressed when the scored
/// messages have distinct indices. No other tool result has a higher influence.
pub proof fn law_lookup_preserves_best_result(
    scored: Seq<ScoredMessage>,
    median: u64,
    chains: Seq<ChainModel>,
    msgs: Seq<Message>,
)
    ensures
        best_tool_result(scored) matches Some(b) ==> {
            let lists = planned_lists(scored, median, chains, ProblemClass::Lookup, msgs);
            &&& 0 <= b < scored.len()
            &&& scored[b].is_tool_result
            &&& forall|p: int|
                0 <= p < scored.len() && #[trigger] scored[p].is_tool_result
                    ==> scored[p].influence_key <= scored[b].influence_key
            &&& lists.0.contains(scored[b].index)
            &&& indices_distinct(scored) ==> !lists.1.contains(scored[b].index)
                && !lists.2.contains(scored[b].index)
        },
{
    lemma_best_in_range(scored, scored.len());
    lemma_best_is_highest(scored, scored.len());
    match best_tool_result(scored) {
        Some(b) => {
            let idx = scored[b].index;
            let preserve = treated(scored, median, chains, Treatment::Preserve);
            let light = treated(scored, median, chains, Treatment::Light);
            let heavy = treated(scored, median, chains, Treatment::Heavy);
            let lists = planned_lists(scored, median, chains, ProblemClass::Lookup, msgs);
            if !preserve.contains(idx) {
                assert(preserve.push(idx)[preserve.len() as int] == idx);
                lemma_occ_select(light, |i: usize| i != idx, idx);
                lemma_occ_select(heavy, |i: usize| i != idx, idx);
                lemma_occ_contains(lists.1, idx);
                lemma_occ_contains(lists.2, idx);
            } else if indices_distinct(scored) {
                lemma_treated_occ(scored, median, chains, idx);
                lemma_occ_distinct(scored, idx);
                lemma_occ_contains(preserve, idx);
                lemma_occ_contains(light, idx);
                lemma_occ_contains(heavy, idx);
            }
        },
        None => {},
    }
}

proof fn lemma_select_all(s: Seq<usize>, p: spec_fn(usize) -> bool)
    ensures
        forall|k: int| 0 <= k < select(s, p).len() ==> p(#[trigger] select(s, p)[k]),
    decreases s.len(),
{
    if s.len() > 0 {
        lemma_select_all(s.drop_last(), p);
        let r = select(s.drop_last(), p);
        assert forall|k: int| 0 <= k < select(s, p).len() implies p(
            #[trigger] select(s, p)[k],
        ) by {
            if k < r.len() {
                assert(select(s, p)[k] == r[k]);
            }
        }
    }
}

/// For a contradiction, no message that carries a tool result is compressed heavily.
pub proof fn law_contradiction_keeps_results_light(
    scored: Seq<ScoredMessage>,
    median: u64,
    chains: Seq<ChainModel>,
    msgs: Seq<Message>,
)
    ensures
        forall|k: int|
            0 <= k < planned_lists(scored, median, chains, ProblemClass::Contradiction, msgs).2.len()
                ==> !tool_result_at(
                msgs,
                #[trigger] planned_lists(
                    scored,
                    median,
                    chains,
                    ProblemClass::Contradiction,
                    msgs,
                ).2[k],
            ),
{
    let heavy = treated(scored, median, chains, Treatment::Heavy);
    lemma_select_all(heavy, |i: usize| !tool_result_at(msgs, i));
}

/// The indices in `s` strictly increase.
pub open spec fn strictly_increasing(s: Seq<usize>) -> bool {
    forall|i: int, j: int| 0 <= i < j < s.len() ==> s[i] < s[j]
}

/// The scored messages come in conversation order.
pub open spec fn in_conversation_order(scored: Seq<ScoredMessage>) -> bool {
    forall|p: int, q: int| 0 <= p < q < scored.len() ==> scored[p].index < scored[q].index
}

proof fn lemma_treated_below(
    scored: Seq<ScoredMessage>,
    median: u64,
    chains: Seq<ChainModel>,
    t: Treatment,
    bound: usize,
)
    requires
        forall|p: int| 0 <= p < scored.len() ==> #[trigger] scored[p].index < bound,
    ensures
        forall|k: int|
            0 <= k < treated(scored, median, chains, t).len() ==> #[trigger] treated(
                scored,
                median,
                chains,
                t,
            )[k] < bound,
    decreases scored.len(),
{
    if scored.len() > 0 {
        let init = scored.drop_last();
        assert forall|p: int| 0 <= p < init.len() implies #[trigger] init[p].index < bound by {
            assert(init[p] == scored[p]);
        }
        lemma_treated_below(init, median, chains, t, bound);
        let r = treated(init, median, chains, t);
        assert forall|k: int| 0 <= k < treated(scored, median, chains, t).len() implies #[trigger] treated(
            scored,
            median,
            chains,
            t,
        )[k] < bound by {
            if k < r.len() {
                assert(treated(scored, median, chains, t)[k] == r[k]);
            }
        }
    }
}

proof fn lemma_treated_increasing(
    scored: Seq<ScoredMessage>,
    median: u64,
    chains: Seq<ChainModel>,
    t: Treatment,
)
    requires
        in_conversation_order(scored),
    ensures
        strictly_increasing(treated(scored, median, chains, t)),
    decreases scored.len(),
{
    if scored.len() > 0 {
        let init = scored.drop_last();
        let last = scored.last();
        assert(in_conversation_order(init)) by {
            assert forall|p: int, q: int| 0 <= p < q < init.len() implies init[p].index
                < init[q].index by {
                assert(init[p] == scored[p] && init[q] == scored[q]);
            }
        }
        lemma_treated_increasing(init, median, chains, t);
        assert forall|p: int| 0 <= p < init.len() implies #[trigger] init[p].index < last.index by {
            assert(init[p] == scored[p]);
        }
        lemma_treated_below(init, median, chains, t, last.index);
    }
}

/// A temporal task keeps chronological order: when the scored messages come
/// in conversation order, each of the plan's lists does too. The same holds
/// of every class whose plan makes no adjustment (all but Lookup and
/// Contradiction).
pub proof fn law_plan_keeps_conversation_order(
    scored: Seq<ScoredMessage>,
    median: u64,
    chains: Seq<ChainModel>,
    class: ProblemClass,
    msgs: Seq<Message>,
)
    requires
        in_conversation_order(scored),
        class != ProblemClass::Lookup,
        class != ProblemClass::Contradiction,
    ensures
        strictly_increasing(planned_lists(scored, median, chains, class, msgs).0),
        strictly_increasing(planned_lists(scored, median, chains, class, msgs).1),
        strictly_increasing(planned_lists(scored, median, chains, class, msgs).2),
{
    lemma_treated_increasing(scored, median, chains, Treatment::Preserve);
    lemma_treated_increasing(scored, median, chains, Treatment::Light);
    lemma_treated_increasing(scored, median, chains, Treatment::Heavy);
}

/// An error message is never preserved verbatim by its base treatment: it is
/// compressed heavily, or lightly when it is in a chain and above the median.
pub proof fn law_errors_are_compressed(sm: ScoredMessage, median: u64, chains: Seq<ChainModel>)
    requires
        sm.is_error,
    ensures
        base_treatment(sm, median, chains) == (if in_some_chain(chains, sm.index)
            && sm.influence_key > median {
            Treatment::Light
        } else {
            Treatment::Heavy
        }),
{
}

/// A chain member that is not an error is never compressed heavily by its
/// base treatment: chains are binding units, kept at least lightly.
pub proof fn law_chain_members_kept(sm: ScoredMessage, median: u64, chains: Seq<ChainModel>)
    requires
        !sm.is_error,
        in_some_chain(chains, sm.index),
    ensures
        base_treatment(sm, median, chains) != Treatment::Heavy,
{
}


// ── Where each message goes ──────────────────────────────────────────

proof fn lemma_treated_from(
    scored: Seq<ScoredMessage>,
    median: u64,
    chains: Seq<ChainModel>,
    t: Treatment,
)
    ensures
        forall|k: int|
            0 <= k < treated(scored, median, chains, t).len() ==> exists|p: int|
                0 <= p < scored.len() && scored[p].index == #[trigger] treated(
                    scored,
                    median,
                    chains,
                    t,
                )[k] && base_treatment(scored[p], median, chains) == t,
    decreases scored.len(),
{
    if scored.len() > 0 {
        let init = scored.drop_last();
        lemma_treated_from(init, median, chains, t);
        let r = treated(init, median, chains, t);
        let full = treated(scored, median, chains, t);
        assert forall|k: int| 0 <= k < full.len() implies exists|p: int|
            0 <= p < scored.len() && scored[p].index == #[trigger] full[k] && base_treatment(
                scored[p],
                median,
                chains,
            ) == t by {
            if k < r.len() {
                assert(full[k] == r[k]);
                let p = choose|p: int|
                    0 <= p < init.len() && init[p].index == r[k] && base_treatment(
                        init[p],
                        median,
                        chains,
                    ) == t;
                assert(scored[p] == init[p]);
            } else {
                let p = scored.len() - 1;
                assert(full[k] == scored[p].index);
            }
        }
    }
}

proof fn lemma_treated_covers(
    scored: Seq<ScoredMessage>,
    median: u64,
    chains: Seq<ChainModel>,
    t: Treatment,
)
    ensures
        forall|p: int|
            0 <= p < scored.len() && base_treatment(#[trigger] scored[p], median, chains) == t
                ==> treated(scored, median, chains, t).contains(scored[p].index),
    decreases scored.len(),
{
    if scored.len() > 0 {
        let init = scored.drop_last();
        lemma_treated_covers(init, median, chains, t);
        let r = treated(init, median, chains, t);
        let full = treated(scored, median, chains, t);
        assert forall|p: int|
            0 <= p < scored.len() && base_treatment(#[trigger] scored[p], median, chains) == t
                implies full.contains(scored[p].index) by {
            if p < init.len() {
                assert(init[p] == scored[p]);
                assert(r.contains(init[p].index));
                let j = choose|j: int| 0 <= j < r.len() && r[j] == init[p].index;
                assert(full[j] == r[j]);
            } else {
                assert(full[full.len() - 1] == scored[p].index);
            }
        }
    }
}

proof fn lemma_select_from(s: Seq<usize>, p: spec_fn(usize) -> bool)
    ensures
        forall|k: int|
            0 <= k < select(s, p).len() ==> s.contains(#[trigger] select(s, p)[k]) && p(
                select(s, p)[k],
            ),
    decreases s.len(),
{
    if s.len() > 0 {
        let init = s.drop_last();
        lemma_select_from(init, p);
        let r = select(init, p);
        assert forall|k: int| 0 <= k < select(s, p).len() implies s.contains(
            #[trigger] select(s, p)[k],
        ) && p(select(s, p)[k]) by {
            if k < r.len() {
                assert(select(s, p)[k] == r[k]);
                let j = choose|j: int| 0 <= j < init.len() && init[j] == r[k];
                assert(s[j] == init[j]);
            } else {
                assert(select(s, p)[k] == s[s.len() - 1]);
            }
        }
    }
}

/// The message is kept verbatim: it is not an error, its influence is above
/// the median and it has three or more active dimensions.
pub open spec fn kept_verbatim(sm: ScoredMessage, median: u64) -> bool {
    !sm.is_error && sm.influence_key > median && sm.active_dims >= 3
}

/// The message is compressed heavily: an error that is not both in a chain
/// and above the median, or another message that is not kept verbatim, is in
/// no chain and is at most half the median.
pub open spec fn compressed_heavily(sm: ScoredMessage, median: u64, chains: Seq<ChainModel>) -> bool {
    ||| sm.is_error && !(in_some_chain(chains, sm.index) && sm.influence_key > median)
    ||| !sm.is_error && !(sm.influence_key > median && sm.active_dims >= 3) && !in_some_chain(
        chains,
        sm.index,
    ) && sm.influence_key <= half_key(median)
}

/// Where the plan puts each message. Outside a lookup, the messages kept
/// verbatim are exactly the non-errors above the median with three or more
/// active dimensions. Outside a lookup or a contradiction, every heavily
/// compressed message is an error that is not both in a chain and above the
/// median, or a message in no chain at most half the median; every lightly
/// compressed one is the rest: an error in a chain above the median, or a
/// message not kept verbatim that is in a chain or above half the median. For
/// a contradiction, the heavily compressed messages are of the same kind and
/// carry no tool result. For a lookup, a message kept verbatim is of that kind
/// or a tool result with the highest influence.
pub proof fn law_plan_placement(
    scored: Seq<ScoredMessage>,
    median: u64,
    chains: Seq<ChainModel>,
    class: ProblemClass,
    msgs: Seq<Message>,
)
    ensures
        ({
            let lists = planned_lists(scored, median, chains, class, msgs);
            &&& class != ProblemClass::Lookup ==> forall|k: int|
                0 <= k < lists.0.len() ==> exists|p: int|
                    0 <= p < scored.len() && scored[p].index == #[trigger] lists.0[k]
                        && kept_verbatim(scored[p], median)
            &&& class != ProblemClass::Lookup ==> forall|p: int|
                0 <= p < scored.len() && kept_verbatim(#[trigger] scored[p], median)
                    ==> lists.0.contains(scored[p].index)
            &&& class == ProblemClass::Lookup ==> forall|k: int|
                0 <= k < lists.0.len() ==> exists|p: int|
                    0 <= p < scored.len() && scored[p].index == #[trigger] lists.0[k] && (
                    kept_verbatim(scored[p], median) || (scored[p].is_tool_result && forall|
                        j: int,
                    |
                        0 <= j < scored.len() && #[trigger] scored[j].is_tool_result
                            ==> scored[j].influence_key <= scored[p].influence_key))
            &&& class != ProblemClass::Lookup && class != ProblemClass::Contradiction ==> forall|
                k: int,
            |
                0 <= k < lists.2.len() ==> exists|p: int|
                    0 <= p < scored.len() && scored[p].index == #[trigger] lists.2[k]
                        && compressed_heavily(scored[p], median, chains)
            &&& class != ProblemClass::Lookup && class != ProblemClass::Contradiction ==> forall|
                k: int,
            |
                0 <= k < lists.1.len() ==> exists|p: int|
                    0 <= p < scored.len() && scored[p].index == #[trigger] lists.1[k]
                        && !kept_verbatim(scored[p], median) && !compressed_heavily(
                        scored[p],
                        median,
                        chains,
                    )
            &&& class == ProblemClass::Contradiction ==> forall|k: int|
                0 <= k < lists.2.len() ==> !tool_result_at(msgs, #[trigger] lists.2[k])
                    && exists|p: int|
                    0 <= p < scored.len() && scored[p].index == lists.2[k] && compressed_heavily(
                        scored[p],
                        median,
                        chains,
                    )
        }),
{
    let preserve = treated(scored, median, chains, Treatment::Preserve);
    let light = treated(scored, median, chains, Treatment::Light);
    let heavy = treated(scored, median, chains, Treatment::Heavy);
    lemma_treated_from(scored, median, chains, Treatment::Preserve);
    lemma_treated_from(scored, median, chains, Treatment::Light);
    lemma_treated_from(scored, median, chains, Treatment::Heavy);
    lemma_treated_covers(scored, median, chains, Treatment::Preserve);
    let lists = planned_lists(scored, median, chains, class, msgs);
    if class != ProblemClass::Lookup {
        assert forall|k: int| 0 <= k < lists.0.len() implies exists|p: int|
            0 <= p < scored.len() && scored[p].index == #[trigger] lists.0[k] && kept_verbatim(
                scored[p],
                median,
            ) by {
            assert(lists.0[k] == preserve[k]);
        }
        assert forall|p: int| 0 <= p < scored.len() && kept_verbatim(#[trigger] scored[p], median)
            implies lists.0.contains(scored[p].index) by {
            assert(base_treatment(scored[p], median, chains) == Treatment::Preserve);
        }
    }
    if class != ProblemClass::Lookup && class != ProblemClass::Contradiction {
        assert forall|k: int| 0 <= k < lists.2.len() implies exists|p: int|
            0 <= p < scored.len() && scored[p].index == #[trigger] lists.2[k] && compressed_heavily(
                scored[p],
                median,
                chains,
            ) by {
            assert(lists.2[k] == heavy[k]);
        }
        assert forall|k: int| 0 <= k < lists.1.len() implies exists|p: int|
            0 <= p < scored.len() && scored[p].index == #[trigger] lists.1[k] && !kept_verbatim(
                scored[p],
                median,
            ) && !compressed_heavily(scored[p], median, chains) by {
            assert(lists.1[k] == light[k]);
        }
    }
    if class == ProblemClass::Contradiction {
        let np = |i: usize| !tool_result_at(msgs, i);
        lemma_select_from(heavy, np);
        assert forall|k: int| 0 <= k < lists.2.len() implies !tool_result_at(
            msgs,
            #[trigger] lists.2[k],
        ) && exists|p: int|
            0 <= p < scored.len() && scored[p].index == lists.2[k] && compressed_heavily(
                scored[p],
                median,
                chains,
            ) by {
            assert(heavy.contains(lists.2[k]));
            let j = choose|j: int| 0 <= j < heavy.len() && heavy[j] == lists.2[k];
            assert(heavy[j] == heavy[j]);
        }
    }
    if class == ProblemClass::Lookup {
        lemma_best_in_range(scored, scored.len());
        lemma_best_is_highest(scored, scored.len());
        assert forall|k: int| 0 <= k < lists.0.len() implies exists|p: int|
            0 <= p < scored.len() && scored[p].index == #[trigger] lists.0[k] && (kept_verbatim(
                scored[p],
                median,
            ) || (scored[p].is_tool_result && forall|j: int|
                0 <= j < scored.len() && #[trigger] scored[j].is_tool_result
                    ==> scored[j].influence_key <= scored[p].influence_key)) by {
            if k < preserve.len() {
                assert(lists.0[k] == preserve[k]);
            } else {
                let b = best_tool_result(scored)->0;
                assert(lists.0[k] == scored[b].index);
            }
        }
    }
}

} // verus!
