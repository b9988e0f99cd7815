//! Measured forgetting: task classification, message signals and compression
//! planning, with the text that goes to and comes back from the summariser.
//!
//! The pipeline:
//!   1. classify the task into a problem class,
//!   2. read the dimensions of information each message carries,
//!   3. detect causal chains (a message that builds on the tool result before it),
//!   4. detect saturated information (many errors, many data-rich results),
//!   5. plan which messages to keep verbatim, compress lightly or heavily,
//!   6. build the summariser's input and assemble the final summary.
//!
//! A message's influence is a floating-point number computed from its
//! dimensions; here it is carried as an *influence key* (see the `influence`
//! module): an unsigned integer whose order is the order of the numbers.

use vstd::prelude::*;

use vstd::utf8::encode_utf8;

use crate::text::{
    chars_of, contains, contains_char, contains_chars, contains_str, count_ascii_digits, count_chars,
    count_uppercase, is_ascii_digit, is_uppercase, line_spans, lines, lowercase, str_equal, string_of,
    to_lowercase, trim, trim_bounds, word_spans, words,
};
use crate::Message;

verus! {

// ── Problem classes ──────────────────────────────────────────────────

/// Task classification for adaptive compression strategy.
#[derive(Debug, Clone, Copy, PartialEq, Eq, Structural)]
pub enum ProblemClass {
    /// Single fact needed: compress everything except the answer.
    Lookup,
    /// A → B → C reasoning: preserve chain topology.
    MultiHop,
    /// Try many approaches, find few: preserve successes, compress failures.
    Exploratory,
    /// Collect many data points: preserve summaries, compress individuals.
    Aggregation,
    /// Two sources disagree: preserve both paths.
    Contradiction,
    /// State changes over time: preserve chronological order.
    Temporal,
}

/// A message reports a tool error.
pub open spec fn is_error_text(content: Seq<char>) -> bool {
    contains(content, "<tool_error>"@) || contains(content, "[graph_query error"@)
}

/// A message carries a tool result.
pub open spec fn is_tool_result_text(content: Seq<char>) -> bool {
    contains(content, "<tool_result>"@) || contains(content, "[System ran"@)
}

/// The number of messages whose content satisfies `p`.
pub open spec fn count_messages(msgs: Seq<Message>, p: spec_fn(Seq<char>) -> bool) -> nat
    decreases msgs.len(),
{
    if msgs.len() == 0 {
        0
    } else {
        count_messages(msgs.drop_last(), p) + if p(msgs.last().content@) {
            1nat
        } else {
            0nat
        }
    }
}

/// The (lowercased) question asks about a disagreement.
pub open spec fn asks_about_contradiction(q: Seq<char>) -> bool {
    ||| contains(q, "disagree"@)
    ||| contains(q, "conflict"@)
    ||| contains(q, "different"@)
    ||| contains(q, "mismatch"@)
    ||| contains(q, "inconsistent"@)
}

/// The (lowercased) question asks about change over time.
pub open spec fn asks_about_time(q: Seq<char>) -> bool {
    ||| contains(q, "over time"@)
    ||| contains(q, "trend"@)
    ||| contains(q, "history"@)
    ||| contains(q, "changed"@)
    ||| contains(q, "when did"@)
    ||| contains(q, "timeline"@)
}

/// The (lowercased) question asks for a summary, count or list.
pub open spec fn asks_for_aggregate(q: Seq<char>) -> bool {
    ||| contains(q, "how many"@)
    ||| contains(q, "list all"@)
    ||| contains(q, "summarize"@)
    ||| contains(q, "total"@)
    ||| contains(q, "count"@)
    ||| contains(q, "average"@)
}

/// The problem class of a task, from the lowercase form `q` of the user's
/// question and the history so far. The first rule that applies decides.
pub open spec fn classification_of_lowered(q: Seq<char>, msgs: Seq<Message>) -> ProblemClass {
    let n = msgs.len();
    let errors = count_messages(msgs, |c: Seq<char>| is_error_text(c));
    let results = count_messages(msgs, |c: Seq<char>| is_tool_result_text(c));
    if asks_about_contradiction(q) {
        ProblemClass::Contradiction
    } else if asks_about_time(q) {
        ProblemClass::Temporal
    } else if asks_for_aggregate(q) {
        ProblemClass::Aggregation
    } else if n > 6 && errors > results {
        ProblemClass::Exploratory
    } else if results >= 3 && errors <= 1 {
        ProblemClass::MultiHop
    } else if words(q).len() < 12 && n < 8 {
        ProblemClass::Lookup
    } else {
        ProblemClass::MultiHop
    }
}

/// The problem class of a task, from the user's question and the history so far.
pub open spec fn classification(question: Seq<char>, msgs: Seq<Message>) -> ProblemClass {
    classification_of_lowered(lowercase(question), msgs)
}

// ── Laws of classification ──────────────────────────────────────────

proof fn lemma_count_messages_filter(
    msgs: Seq<Message>,
    p: spec_fn(Seq<char>) -> bool,
    f: spec_fn(Message) -> bool,
)
    requires
        forall|m: Message| #[trigger] f(m) == p(m.content@),
    ensures
        count_messages(msgs, p) == msgs.filter(f).len(),
    decreases msgs.len(),
{
    reveal(Seq::filter);
    if msgs.len() > 0 {
        lemma_count_messages_filter(msgs.drop_last(), p, f);
        assert(f(msgs.last()) == p(msgs.last().content@));
    }
}

/// The history's number of messages that report a tool error.
pub open spec fn reported_errors(msgs: Seq<Message>) -> nat {
    msgs.filter(
        |m: Message| contains(m.content@, "<tool_error>"@) || contains(m.content@, "[graph_query error"@),
    ).len()
}

/// The history's number of messages that carry a tool result.
pub open spec fn reported_results(msgs: Seq<Message>) -> nat {
    msgs.filter(
        |m: Message| contains(m.content@, "<tool_result>"@) || contains(m.content@, "[System ran"@),
    ).len()
}

/// How a task is classified, from the lowercase question `lq` and the history.
/// A question that speaks of disagreement (disagree, conflict, different,
/// mismatch, inconsistent) is a contradiction. Otherwise one that speaks of
/// change over time (over time, trend, history, changed, when did, timeline)
/// is temporal. Otherwise one that asks for counts or summaries (how many,
/// list all, summarize, total, count, average) is an aggregation. Otherwise a
/// history of more than six messages with more errors than results is an
/// exploration; three or more results with at most one error is multi-hop; a
/// question of fewer than twelve words in a history of fewer than eight
/// messages is a lookup; anything else is multi-hop.
pub proof fn law_classification_rules(lq: Seq<char>, msgs: Seq<Message>)
    ensures
        ({
            let contra = contains(lq, "disagree"@) || contains(lq, "conflict"@) || contains(
                lq,
                "different"@,
            ) || contains(lq, "mismatch"@) || contains(lq, "inconsistent"@);
            let time = contains(lq, "over time"@) || contains(lq, "trend"@) || contains(
                lq,
                "history"@,
            ) || contains(lq, "changed"@) || contains(lq, "when did"@) || contains(
                lq,
                "timeline"@,
            );
            let aggregate = contains(lq, "how many"@) || contains(lq, "list all"@) || contains(
                lq,
                "summarize"@,
            ) || contains(lq, "total"@) || contains(lq, "count"@) || contains(lq, "average"@);
            let by_keyword = contra || time || aggregate;
            let errors = reported_errors(msgs);
            let results = reported_results(msgs);
            &&& contra ==> classification_of_lowered(lq, msgs) == ProblemClass::Contradiction
            &&& !contra && time ==> classification_of_lowered(lq, msgs) == ProblemClass::Temporal
            &&& !contra && !time && aggregate ==> classification_of_lowered(lq, msgs)
                == ProblemClass::Aggregation
            &&& !by_keyword && msgs.len() > 6 && errors > results ==> classification_of_lowered(
                lq,
                msgs,
            ) == ProblemClass::Exploratory
            &&& !by_keyword && !(msgs.len() > 6 && errors > results) && results >= 3 && errors
                <= 1 ==> classification_of_lowered(lq, msgs) == ProblemClass::MultiHop
            &&& !by_keyword && !(msgs.len() > 6 && errors > results) && !(results >= 3 && errors
                <= 1) && words(lq).len() < 12 && msgs.len() < 8 ==> classification_of_lowered(
                lq,
                msgs,
            ) == ProblemClass::Lookup
            &&& !by_keyword && !(msgs.len() > 6 && errors > results) && !(results >= 3 && errors
                <= 1) && !(words(lq).len() < 12 && msgs.len() < 8) ==> classification_of_lowered(
                lq,
                msgs,
            ) == ProblemClass::MultiHop
        }),
{
    lemma_count_messages_filter(
        msgs,
        |c: Seq<char>| is_error_text(c),
        |m: Message| contains(m.content@, "<tool_error>"@) || contains(m.content@, "[graph_query error"@),
    );
    lemma_count_messages_filter(
        msgs,
        |c: Seq<char>| is_tool_result_text(c),
        |m: Message| contains(m.content@, "<tool_result>"@) || contains(m.content@, "[System ran"@),
    );
}

/// A question whose lowercase form speaks of change over time (over time,
/// trend, history, changed, when did, timeline) and not of disagreement
/// (disagree, conflict, different, mismatch, inconsistent) is classified
/// temporal, whatever the history; one that speaks of disagreement is
/// classified a contradiction.
pub proof fn law_question_keywords_decide_class(q: Seq<char>, msgs: Seq<Message>)
    ensures
        ({
            let lq = lowercase(q);
            let contra = contains(lq, "disagree"@) || contains(lq, "conflict"@) || contains(
                lq,
                "different"@,
            ) || contains(lq, "mismatch"@) || contains(lq, "inconsistent"@);
            let time = contains(lq, "over time"@) || contains(lq, "trend"@) || contains(
                lq,
                "history"@,
            ) || contains(lq, "changed"@) || contains(lq, "when did"@) || contains(
                lq,
                "timeline"@,
            );
            &&& contra ==> classification(q, msgs) == ProblemClass::Contradiction
            &&& !contra && time ==> classification(q, msgs) == ProblemClass::Temporal
        }),
{
    law_classification_rules(lowercase(q), msgs);
}

/// Whether the message text reports a tool error.
pub fn is_error_content(content: &Vec<char>) -> (res: bool)
    ensures
        res == is_error_text(content@),
{
    contains_str(content, "<tool_error>") || contains_str(content, "[graph_query error")
}

/// Whether the message text carries a tool result.
pub fn is_tool_result_content(content: &Vec<char>) -> (res: bool)
    ensures
        res == is_tool_result_text(content@),
{
    contains_str(content, "<tool_result>") || contains_str(content, "[System ran")
}

/// The numbers of messages that report errors and that carry tool results.
fn count_errors_and_results(messages: &[Message]) -> (res: (usize, usize))
    ensures
        res.0 == count_messages(messages@, |c: Seq<char>| is_error_text(c)),
        res.1 == count_messages(messages@, |c: Seq<char>| is_tool_result_text(c)),
{
    let mut errors: usize = 0;
    let mut results: usize = 0;
    let mut i: usize = 0;
    while i < messages.len()
        invariant
            i <= messages.len(),
            errors <= i,
            results <= i,
            errors == count_messages(messages@.take(i as int), |c: Seq<char>| is_error_text(c)),
            results == count_messages(
                messages@.take(i as int),
                |c: Seq<char>| is_tool_result_text(c),
            ),
        decreases messages.len() - i,
    {
        assert(messages@.take(i + 1).drop_last() =~= messages@.take(i as int));
        let content = chars_of(messages[i].content.as_str());
        if is_error_content(&content) {
            errors = errors + 1;
        }
        if is_tool_result_content(&content) {
            results = results + 1;
        }
        i = i + 1;
    }
    assert(messages@.take(messages.len() as int) =~= messages@);
    (errors, results)
}

impl ProblemClass {
    /// Classify from the original user question and tool history so far.
    pub fn classify(user_question: &str, messages: &[Message]) -> (res: Self)
        ensures
            res == classification(user_question@, messages@),
    {
        let lower = to_lowercase(user_question);
        Self::classify_lowered(lower.as_str(), messages)
    }

    /// Classify from the lowercase form of the user's question (what
    /// `str::to_lowercase` gives for it) and the tool history so far.
    pub fn classify_lowered(lower_question: &str, messages: &[Message]) -> (res: Self)
        ensures
            res == classification_of_lowered(lower_question@, messages@),
    {
        let q = chars_of(lower_question);
        let msg_count = messages.len();
        let (error_count, tool_result_count) = count_errors_and_results(messages);

        if contains_str(&q, "disagree") || contains_str(&q, "conflict") || contains_str(
            &q,
            "different",
        ) || contains_str(&q, "mismatch") || contains_str(&q, "inconsistent") {
            return ProblemClass::Contradiction;
        }
        if contains_str(&q, "over time") || contains_str(&q, "trend") || contains_str(
            &q,
            "history",
        ) || contains_str(&q, "changed") || contains_str(&q, "when did") || contains_str(
            &q,
            "timeline",
        ) {
            return ProblemClass::Temporal;
        }
        if contains_str(&q, "how many") || contains_str(&q, "list all") || contains_str(
            &q,
            "summarize",
        ) || contains_str(&q, "total") || contains_str(&q, "count") || contains_str(
            &q,
            "average",
        ) {
            return ProblemClass::Aggregation;
        }
        if msg_count > 6 && error_count > tool_result_count {
            return ProblemClass::Exploratory;
        }
        if tool_result_count >= 3 && error_count <= 1 {
            return ProblemClass::MultiHop;
        }
        let word_count = word_spans(&q).len();
        if word_count < 12 && msg_count < 8 {
            return ProblemClass::Lookup;
        }
        ProblemClass::MultiHop
    }
}

// ── Dimensions of a message ──────────────────────────────────────────

/// The length in bytes of the UTF-8 encoding of `s`, as `str::len` gives it.
pub open spec fn byte_len(s: Seq<char>) -> usize {
    encode_utf8(s).len() as usize
}

/// The words of `ws` that are longer than three bytes, in order.
pub open spec fn long_words(ws: Seq<Seq<char>>) -> Seq<Seq<char>>
    decreases ws.len(),
{
    if ws.len() == 0 {
        seq![]
    } else if byte_len(ws.last()) > 3 {
        long_words(ws.drop_last()).push(ws.last())
    } else {
        long_words(ws.drop_last())
    }
}

/// The number of words of `ws` that occur in `text`.
pub open spec fn count_contained(ws: Seq<Seq<char>>, text: Seq<char>) -> nat
    decreases ws.len(),
{
    if ws.len() == 0 {
        0
    } else {
        count_contained(ws.drop_last(), text) + if contains(text, ws.last()) {
            1nat
        } else {
            0nat
        }
    }
}

/// The words of a question that a message can refer to, from the question's
/// lowercase form `q`: its words that are longer than three bytes.
pub open spec fn terms_of_lowered(q: Seq<char>) -> Seq<Seq<char>> {
    long_words(words(q))
}

/// The words of a question that a message can refer to: the words of its
/// lowercase form that are longer than three bytes.
pub open spec fn question_terms(question: Seq<char>) -> Seq<Seq<char>> {
    terms_of_lowered(lowercase(question))
}

/// The (lowercased) text explains a cause.
pub open spec fn has_causal_marker(t: Seq<char>) -> bool {
    ||| contains(t, "because"@)
    ||| contains(t, "therefore"@)
    ||| contains(t, "caused by"@)
    ||| contains(t, "results in"@)
    ||| contains(t, "leads to"@)
    ||| contains(t, "due to"@)
    ||| contains(t, "so that"@)
    ||| contains(t, "which means"@)
    ||| contains(t, "→"@)
}

/// The (lowercased) text carries a date or an ordering.
pub open spec fn has_temporal_marker(t: Seq<char>) -> bool {
    ||| contains(t, "2024"@)
    ||| contains(t, "2025"@)
    ||| contains(t, "2026"@)
    ||| contains(t, "yesterday"@)
    ||| contains(t, "today"@)
    ||| contains(t, "last week"@)
    ||| contains(t, "first"@)
    ||| contains(t, "then"@)
    ||| contains(t, "after"@)
    ||| contains(t, "before"@)
    ||| contains(t, "step 1"@)
    ||| contains(t, "step 2"@)
}

/// The (lowercased) text speaks of schemas, hierarchies or relationships.
pub open spec fn has_structural_marker(t: Seq<char>) -> bool {
    ||| contains(t, "schema"@)
    ||| contains(t, "table"@)
    ||| contains(t, "column"@)
    ||| contains(t, "field"@)
    ||| contains(t, "parent"@)
    ||| contains(t, "child"@)
    ||| contains(t, "hierarchy"@)
    ||| contains(t, "relationship"@)
    ||| contains(t, "foreign key"@)
    ||| contains(t, "index"@)
    ||| contains(t, "constraint"@)
}

/// The text names entities: it quotes something, or its number of uppercase
/// characters, `uppercase`, is more than a tenth of its length in bytes.
pub open spec fn names_entities(content: Seq<char>, uppercase: nat) -> bool {
    ||| content.contains('"')
    ||| content.contains('\'')
    ||| uppercase > (byte_len(content) / 10) as nat
}

/// What a message says on each dimension relative to the task. The numeric
/// dimensions (data, task reference) are given by their counts; the others by
/// whether they fire.
#[derive(Debug, Clone, Copy, PartialEq, Eq, Structural)]
pub struct DimensionSignals {
    /// Number of ASCII digits in the message.
    pub digit_chars: usize,
    /// Length in bytes of the message.
    pub byte_len: usize,
    /// The message explains a cause.
    pub causal: bool,
    /// Number of question words longer than three bytes.
    pub question_words: usize,
    /// How many of those question words occur in the message.
    pub matching_words: usize,
    /// The message names entities (quotes, many uppercase characters).
    pub entity: bool,
    /// The message carries dates or orderings.
    pub temporal: bool,
    /// The message speaks of schemas, hierarchies or relationships.
    pub structural: bool,
}

/// The signals of a message with the given content, whose lowercase form is
/// `lower` and which has `uppercase` uppercase characters, for a question whose
/// terms (see `question_terms`) are `terms`.
pub open spec fn signals_from(
    content: Seq<char>,
    lower: Seq<char>,
    uppercase: nat,
    terms: Seq<Seq<char>>,
) -> DimensionSignals {
    DimensionSignals {
        digit_chars: count_chars(content, |c: char| is_ascii_digit(c)) as usize,
        byte_len: byte_len(content),
        causal: has_causal_marker(lower),
        question_words: terms.len() as usize,
        matching_words: count_contained(terms, lower) as usize,
        entity: names_entities(content, uppercase),
        temporal: has_temporal_marker(lower),
        structural: has_structural_marker(lower),
    }
}

/// The signals of a message with the given content for a question whose
/// terms (see `question_terms`) are `terms`.
pub open spec fn signals_for(content: Seq<char>, terms: Seq<Seq<char>>) -> DimensionSignals {
    signals_from(content, lowercase(content), count_chars(content, |c: char| is_uppercase(c)), terms)
}

/// The signals of a message with the given content, relative to a question.
pub open spec fn dimension_signals(content: Seq<char>, question: Seq<char>) -> DimensionSignals {
    signals_for(content, question_terms(question))
}

/// The dimensions of a message's signals that fire.
pub enum Dimension {
    Data,
    Causal,
    TaskReference,
    Entity,
    Temporal,
    Structure,
}

/// Whether dimension `d` fires: data when there are more than five digits,
/// task reference when some question word occurs in the message.
pub open spec fn is_active(s: DimensionSignals, d: Dimension) -> bool {
    match d {
        Dimension::Data => s.digit_chars > 5,
        Dimension::Causal => s.causal,
        Dimension::TaskReference => s.question_words > 0 && s.matching_words > 0,
        Dimension::Entity => s.entity,
        Dimension::Temporal => s.temporal,
        Dimension::Structure => s.structural,
    }
}

/// The number of dimensions that fire.
pub open spec fn active_count(s: DimensionSignals) -> nat {
    (if is_active(s, Dimension::Data) { 1nat } else { 0nat })
    + (if is_active(s, Dimension::Causal) { 1nat } else { 0nat })
    + (if is_active(s, Dimension::TaskReference) { 1nat } else { 0nat })
    + (if is_active(s, Dimension::Entity) { 1nat } else { 0nat })
    + (if is_active(s, Dimension::Temporal) { 1nat } else { 0nat })
    + (if is_active(s, Dimension::Structure) { 1nat } else { 0nat })
}

/// The number of dimensions of a message's signals that fire.
pub fn active_dimensions(s: &DimensionSignals) -> (n: u32)
    ensures
        n == active_count(*s),
        n <= 6,
{
    let mut n: u32 = 0;
    if s.digit_chars > 5 {
        n = n + 1;
    }
    if s.causal {
        n = n + 1;
    }
    if s.question_words > 0 && s.matching_words > 0 {
        n = n + 1;
    }
    if s.entity {
        n = n + 1;
    }
    if s.temporal {
        n = n + 1;
    }
    if s.structural {
        n = n + 1;
    }
    n
}

/// The characters `v[a..b]`, as a vector.
fn sub_vec(v: &Vec<char>, a: usize, b: usize) -> (res: Vec<char>)
    requires
        a <= b <= v.len(),
    ensures
        res@ == v@.subrange(a as int, b as int),
{
    let mut res: Vec<char> = Vec::new();
    let mut i = a;
    while i < b
        invariant
            a <= i <= b <= v.len(),
            res@ == v@.subrange(a as int, i as int),
        decreases b - i,
    {
        res.push(v[i]);
        i = i + 1;
        assert(res@ =~= v@.subrange(a as int, i as int));
    }
    res
}

/// The terms of a question: the words of its lowercase form longer than three bytes.
pub fn question_terms_of(user_question: &str) -> (res: Vec<Vec<char>>)
    ensures
        res@.len() == question_terms(user_question@).len(),
        forall|k: int|
            0 <= k < res@.len() ==> #[trigger] res@[k]@ == question_terms(user_question@)[k],
{
    let lower = to_lowercase(user_question);
    terms_of(lower.as_str())
}

/// The terms of a question given its lowercase form: its words longer than three bytes.
fn terms_of(lower_question: &str) -> (res: Vec<Vec<char>>)
    ensures
        res@.len() == terms_of_lowered(lower_question@).len(),
        forall|k: int|
            0 <= k < res@.len() ==> #[trigger] res@[k]@ == terms_of_lowered(lower_question@)[k],
{
    let q = chars_of(lower_question);
    let spans = word_spans(&q);
    let ghost ws = words(q@);
    let mut res: Vec<Vec<char>> = Vec::new();
    let mut k: usize = 0;
    while k < spans.len()
        invariant
            k <= spans.len(),
            q@ == lower_question@,
            ws == words(q@),
            spans@.len() == ws.len(),
            forall|j: int|
                0 <= j < spans@.len() ==> (#[trigger] spans@[j]).0 <= spans@[j].1 && spans@[j].1
                    <= q.len(),
            forall|j: int|
                0 <= j < spans@.len() ==> #[trigger] words(q@)[j] == q@.subrange(
                    spans@[j].0 as int,
                    spans@[j].1 as int,
                ),
            res@.len() == long_words(ws.take(k as int)).len(),
            forall|j: int|
                0 <= j < res@.len() ==> #[trigger] res@[j]@ == long_words(ws.take(k as int))[j],
        decreases spans.len() - k,
    {
        assert(ws.take(k + 1).drop_last() =~= ws.take(k as int));
        let (a, b) = spans[k];
        assert(ws[k as int] == q@.subrange(a as int, b as int));
        let w = string_of(&q, a, b);
        if w.as_str().len() > 3 {
            res.push(sub_vec(&q, a, b));
        }
        k = k + 1;
    }
    assert(ws.take(spans.len() as int) =~= ws);
    res
}

/// Whether the (lowercased) text explains a cause.
fn causal_marker(t: &Vec<char>) -> (res: bool)
    ensures
        res == has_causal_marker(t@),
{
    contains_str(t, "because") || contains_str(t, "therefore") || contains_str(t, "caused by")
        || contains_str(t, "results in") || contains_str(t, "leads to") || contains_str(
        t,
        "due to",
    ) || contains_str(t, "so that") || contains_str(t, "which means") || contains_str(t, "→")
}

/// Whether the (lowercased) text carries a date or an ordering.
fn temporal_marker(t: &Vec<char>) -> (res: bool)
    ensures
        res == has_temporal_marker(t@),
{
    contains_str(t, "2024") || contains_str(t, "2025") || contains_str(t, "2026")
        || contains_str(t, "yesterday") || contains_str(t, "today") || contains_str(
        t,
        "last week",
    ) || contains_str(t, "first") || contains_str(t, "then") || contains_str(t, "after")
        || contains_str(t, "before") || contains_str(t, "step 1") || contains_str(t, "step 2")
}

/// Whether the (lowercased) text speaks of schemas, hierarchies or relationships.
fn structural_marker(t: &Vec<char>) -> (res: bool)
    ensures
        res == has_structural_marker(t@),
{
    contains_str(t, "schema") || contains_str(t, "table") || contains_str(t, "column")
        || contains_str(t, "field") || contains_str(t, "parent") || contains_str(t, "child")
        || contains_str(t, "hierarchy") || contains_str(t, "relationship") || contains_str(
        t,
        "foreign key",
    ) || contains_str(t, "index") || contains_str(t, "constraint")
}

/// The signals of a message's content for a question with the given terms.
fn signals_with_terms(content: &str, terms: &Vec<Vec<char>>) -> (res: DimensionSignals)
    ensures
        res == signals_for(content@, terms@.map_values(|w: Vec<char>| w@)),
{
    let chars = chars_of(content);
    let lower_string = to_lowercase(content);
    let lower = chars_of(lower_string.as_str());
    let uppercase = count_uppercase(&chars);
    signals_from_parts(content, &lower, uppercase, terms)
}

/// The signals of a message's content, given its lowercase form and its
/// number of uppercase characters, for a question with the given terms.
fn signals_from_parts(content: &str, lower: &Vec<char>, uppercase: usize, terms: &Vec<Vec<char>>) -> (res:
    DimensionSignals)
    ensures
        res == signals_from(content@, lower@, uppercase as nat, terms@.map_values(|w: Vec<char>| w@)),
{
    let ghost tv = terms@.map_values(|w: Vec<char>| w@);
    let chars = chars_of(content);
    let digit_chars = count_ascii_digits(&chars);
    let byte_length = content.len();
    let entity = contains_char(&chars, '"') || contains_char(&chars, '\'') || uppercase
        > byte_length / 10;

    let mut matching: usize = 0;
    let mut k: usize = 0;
    while k < terms.len()
        invariant
            k <= terms.len(),
            tv == terms@.map_values(|w: Vec<char>| w@),
            matching <= k,
            matching == count_contained(tv.take(k as int), lower@),
        decreases terms.len() - k,
    {
        assert(tv.take(k + 1).drop_last() =~= tv.take(k as int));
        assert(tv[k as int] == terms@[k as int]@);
        if contains_chars(lower, &terms[k]) {
            matching = matching + 1;
        }
        k = k + 1;
    }
    assert(tv.take(terms.len() as int) =~= tv);
    DimensionSignals {
        digit_chars,
        byte_len: byte_length,
        causal: causal_marker(lower),
        question_words: terms.len(),
        matching_words: matching,
        entity,
        temporal: temporal_marker(lower),
        structural: structural_marker(lower),
    }
}

/// Score a single message's dimensions relative to the task: the counts and
/// markers from which its dimension scores are computed.
pub fn score_dimensions(msg: &Message, user_question: &str) -> (res: DimensionSignals)
    ensures
        res == dimension_signals(msg.content@, user_question@),
{
    let terms = question_terms_of(user_question);
    proof {
        assert(terms@.map_values(|w: Vec<char>| w@) =~= question_terms(user_question@));
    }
    signals_with_terms(msg.content.as_str(), &terms)
}

/// Score a single message's dimensions from the lowercase form of its content,
/// its number of uppercase characters, and the lowercase form of the question
/// (what `str::to_lowercase` and `char::is_uppercase` give for them).
pub fn score_dimensions_lowered(
    msg: &Message,
    lower_content: &str,
    uppercase_count: usize,
    lower_question: &str,
) -> (res: DimensionSignals)
    ensures
        res == signals_from(
            msg.content@,
            lower_content@,
            uppercase_count as nat,
            terms_of_lowered(lower_question@),
        ),
{
    let terms = terms_of(lower_question);
    proof {
        assert(terms@.map_values(|w: Vec<char>| w@) =~= terms_of_lowered(lower_question@));
    }
    let lower = chars_of(lower_content);
    signals_from_parts(msg.content.as_str(), &lower, uppercase_count, &terms)
}

// ── Susceptibility decay ─────────────────────────────────────────────

/// How many times a message's susceptibility on each dimension decays: once
/// for every later message in the compressible zone on which that dimension fires.
#[derive(Debug, Clone, Copy, PartialEq, Eq, Structural)]
pub struct DecayCounts {
    pub data: usize,
    pub causal: usize,
    pub task_reference: usize,
    pub entity: usize,
    pub temporal: usize,
    pub structure: usize,
}

/// The number of signals in `sigs` on which dimension `d` fires.
pub open spec fn count_active(sigs: Seq<DimensionSignals>, d: Dimension) -> nat
    decreases sigs.len(),
{
    if sigs.len() == 0 {
        0
    } else {
        (if is_active(sigs[0], d) {
            1nat
        } else {
            0nat
        }) + count_active(sigs.drop_first(), d)
    }
}

/// The decay count of message `j` on dimension `d`: how many later messages fire on `d`.
pub open spec fn later_active(sigs: Seq<DimensionSignals>, j: int, d: Dimension) -> nat {
    count_active(sigs.skip(j + 1), d)
}

/// The decay counts of message `j` among `sigs`.
pub open spec fn decay_of(sigs: Seq<DimensionSignals>, j: int) -> DecayCounts {
    DecayCounts {
        data: later_active(sigs, j, Dimension::Data) as usize,
        causal: later_active(sigs, j, Dimension::Causal) as usize,
        task_reference: later_active(sigs, j, Dimension::TaskReference) as usize,
        entity: later_active(sigs, j, Dimension::Entity) as usize,
        temporal: later_active(sigs, j, Dimension::Temporal) as usize,
        structure: later_active(sigs, j, Dimension::Structure) as usize,
    }
}

proof fn lemma_count_active_bound(sigs: Seq<DimensionSignals>, d: Dimension)
    ensures
        count_active(sigs, d) <= sigs.len(),
    decreases sigs.len(),
{
    if sigs.len() > 0 {
        lemma_count_active_bound(sigs.drop_first(), d);
    }
}

proof fn lemma_count_active_step(sigs: Seq<DimensionSignals>, j: int, d: Dimension)
    requires
        0 <= j < sigs.len(),
    ensures
        count_active(sigs.skip(j), d) == (if is_active(sigs[j], d) {
            1nat
        } else {
            0nat
        }) + count_active(sigs.skip(j + 1), d),
{
    assert(sigs.skip(j).drop_first() =~= sigs.skip(j + 1));
}

/// Adds one to `n` when `b`.
fn bump(n: usize, b: bool, bound: usize) -> (res: usize)
    requires
        n < bound,
    ensures
        res == n + if b {
            1nat
        } else {
            0nat
        },
{
    if b {
        n + 1
    } else {
        n
    }
}

/// The decay counts of each message among `sigs`.
pub fn decay_counts(sigs: &Vec<DimensionSignals>) -> (res: Vec<DecayCounts>)
    ensures
        res@.len() == sigs@.len(),
        forall|j: int| 0 <= j < sigs@.len() ==> #[trigger] res@[j] == decay_of(sigs@, j),
{
    let n = sigs.len();
    let zero = DecayCounts {
        data: 0,
        causal: 0,
        task_reference: 0,
        entity: 0,
        temporal: 0,
        structure: 0,
    };
    let mut res: Vec<DecayCounts> = Vec::new();
    let mut k: usize = 0;
    while k < n
        invariant
            k <= n,
            n == sigs.len(),
            res@.len() == k,
        decreases n - k,
    {
        res.push(zero);
        k = k + 1;
    }
    let mut cur = zero;
    let mut j = n;
    proof {
        assert(sigs@.skip(n as int) =~= Seq::<DimensionSignals>::empty());
    }
    while j > 0
        invariant
            j <= n,
            n == sigs.len(),
            res@.len() == n,
            cur.data == count_active(sigs@.skip(j as int), Dimension::Data),
            cur.causal == count_active(sigs@.skip(j as int), Dimension::Causal),
            cur.task_reference == count_active(sigs@.skip(j as int), Dimension::TaskReference),
            cur.entity == count_active(sigs@.skip(j as int), Dimension::Entity),
            cur.temporal == count_active(sigs@.skip(j as int), Dimension::Temporal),
            cur.structure == count_active(sigs@.skip(j as int), Dimension::Structure),
            forall|i: int| j <= i < n ==> #[trigger] res@[i] == decay_of(sigs@, i),
        decreases j,
    {
        j = j - 1;
        res.set(j, cur);
        let s = sigs[j];
        proof {
            lemma_count_active_step(sigs@, j as int, Dimension::Data);
            lemma_count_active_step(sigs@, j as int, Dimension::Causal);
            lemma_count_active_step(sigs@, j as int, Dimension::TaskReference);
            lemma_count_active_step(sigs@, j as int, Dimension::Entity);
            lemma_count_active_step(sigs@, j as int, Dimension::Temporal);
            lemma_count_active_step(sigs@, j as int, Dimension::Structure);
            lemma_count_active_bound(sigs@.skip(j + 1), Dimension::Data);
            lemma_count_active_bound(sigs@.skip(j + 1), Dimension::Causal);
            lemma_count_active_bound(sigs@.skip(j + 1), Dimension::TaskReference);
            lemma_count_active_bound(sigs@.skip(j + 1), Dimension::Entity);
            lemma_count_active_bound(sigs@.skip(j + 1), Dimension::Temporal);
            lemma_count_active_bound(sigs@.skip(j + 1), Dimension::Structure);
        }
        cur = DecayCounts {
            data: bump(cur.data, s.digit_chars > 5, n),
            causal: bump(cur.causal, s.causal, n),
            task_reference: bump(
                cur.task_reference,
                s.question_words > 0 && s.matching_words > 0,
                n,
            ),
            entity: bump(cur.entity, s.entity, n),
            temporal: bump(cur.temporal, s.temporal, n),
            structure: bump(cur.structure, s.structural, n),
        };
    }
    res
}

/// Earlier messages decay at least as much as later ones, on every dimension
/// (newer information supersedes older), and the newest message does not decay.
pub proof fn law_earlier_messages_decay_more(sigs: Seq<DimensionSignals>, j1: int, j2: int, d: Dimension)
    requires
        0 <= j1 <= j2 < sigs.len(),
    ensures
        later_active(sigs, j1, d) >= later_active(sigs, j2, d),
        later_active(sigs, sigs.len() - 1, d) == 0,
    decreases j2 - j1,
{
    assert(sigs.skip(sigs.len() as int) =~= Seq::<DimensionSignals>::empty());
    if j1 < j2 {
        law_earlier_messages_decay_more(sigs, j1 + 1, j2, d);
        lemma_count_active_step(sigs, j1 + 1, d);
    }
}

/// What a message in the compressible zone carries: its dimension signals and
/// how often each of its dimensions decays.
#[derive(Debug, Clone, Copy, PartialEq, Eq, Structural)]
pub struct MessageSignals {
    pub dims: DimensionSignals,
    pub decay: DecayCounts,
}

/// The signals of the messages `messages[start..end]` relative to a question.
pub open spec fn zone_signals(msgs: Seq<Message>, start: int, end: int, question: Seq<char>) -> Seq<
    DimensionSignals,
> {
    Seq::new(
        (end - start) as nat,
        |i: int| dimension_signals(msgs[start + i].content@, question),
    )
}

/// The dimension signals and decay counts of the messages of the compressible
/// zone `messages[compressible_range]`.
pub fn message_signals(
    messages: &[Message],
    compressible_range: std::ops::Range<usize>,
    user_question: &str,
) -> (res: Vec<MessageSignals>)
    requires
        compressible_range.start <= compressible_range.end <= messages@.len(),
    ensures
        res@.len() == compressible_range.end - compressible_range.start,
        forall|i: int|
            0 <= i < compressible_range.end - compressible_range.start ==> {
                &&& (#[trigger] res@[i]).dims == dimension_signals(
                    messages@[compressible_range.start + i].content@,
                    user_question@,
                )
                &&& res@[i].decay == decay_of(
                    zone_signals(
                        messages@,
                        compressible_range.start as int,
                        compressible_range.end as int,
                        user_question@,
                    ),
                    i,
                )
            },
{
    let start = compressible_range.start;
    let end = compressible_range.end;
    let terms = question_terms_of(user_question);
    proof {
        assert(terms@.map_values(|w: Vec<char>| w@) =~= question_terms(user_question@));
    }
    let ghost zone = zone_signals(messages@, start as int, end as int, user_question@);
    let mut sigs: Vec<DimensionSignals> = Vec::new();
    let mut i = start;
    while i < end
        invariant
            start <= i <= end <= messages@.len(),
            terms@.map_values(|w: Vec<char>| w@) == question_terms(user_question@),
            sigs@.len() == i - start,
            forall|k: int| 0 <= k < i - start ==> #[trigger] sigs@[k] == zone[k],
            zone == zone_signals(messages@, start as int, end as int, user_question@),
        decreases end - i,
    {
        sigs.push(signals_with_terms(messages[i].content.as_str(), &terms));
        i = i + 1;
    }
    assert(sigs@ =~= zone);
    let decays = decay_counts(&sigs);
    let mut res: Vec<MessageSignals> = Vec::new();
    let mut k: usize = 0;
    while k < sigs.len()
        invariant
            k <= sigs.len(),
            sigs@ == zone,
            zone.len() == end - start,
            decays@.len() == sigs@.len(),
            forall|j: int| 0 <= j < sigs@.len() ==> #[trigger] decays@[j] == decay_of(sigs@, j),
            res@.len() == k,
            forall|j: int|
                0 <= j < k ==> (#[trigger] res@[j]).dims == zone[j] && res@[j].decay == decay_of(
                    zone,
                    j,
                ),
        decreases sigs.len() - k,
    {
        res.push(MessageSignals { dims: sigs[k], decay: decays[k] });
        k = k + 1;
    }
    res
}

// ── Laws of dimension signals ───────────────────────────────────────

proof fn lemma_count_chars_filter(s: Seq<char>, p: spec_fn(char) -> bool, f: spec_fn(char) -> bool)
    requires
        forall|c: char| #[trigger] f(c) == p(c),
    ensures
        count_chars(s, p) == s.filter(f).len(),
    decreases s.len(),
{
    reveal(Seq::filter);
    if s.len() > 0 {
        lemma_count_chars_filter(s.drop_last(), p, f);
        assert(f(s.last()) == p(s.last()));
    }
}

proof fn lemma_long_words_filter(ws: Seq<Seq<char>>)
    ensures
        long_words(ws) == ws.filter(|w: Seq<char>| (encode_utf8(w).len() as usize) > 3),
    decreases ws.len(),
{
    reveal(Seq::filter);
    if ws.len() > 0 {
        lemma_long_words_filter(ws.drop_last());
    }
}

proof fn lemma_count_contained_filter(ws: Seq<Seq<char>>, text: Seq<char>)
    ensures
        count_contained(ws, text) == ws.filter(|w: Seq<char>| contains(text, w)).len(),
    decreases ws.len(),
{
    reveal(Seq::filter);
    if ws.len() > 0 {
        lemma_count_contained_filter(ws.drop_last(), text);
    }
}

/// What a message's signals are. With `l` the lowercase form of the content:
/// the digit count is the number of ASCII digits; the byte length is the
/// length of the UTF-8 encoding; the question words are the question's
/// lowercase words longer than three bytes, and the matching words those of
/// them that occur in `l`; the message explains a cause when `l` mentions
/// because, therefore, caused by, results in, leads to, due to, so that, which
/// means or →; it names entities when it quotes (" or ') or has more
/// uppercase characters than a tenth of its bytes; it carries dates or
/// orderings when `l` mentions 2024, 2025, 2026, yesterday, today, last week,
/// first, then, after, before, step 1 or step 2; it speaks of structure when
/// `l` mentions schema, table, column, field, parent, child, hierarchy,
/// relationship, foreign key, index or constraint.
pub proof fn law_dimension_signals(content: Seq<char>, question: Seq<char>)
    ensures
        ({
            let s = dimension_signals(content, question);
            let l = lowercase(content);
            let qw = words(lowercase(question)).filter(|w: Seq<char>| (encode_utf8(w).len() as usize) > 3);
            &&& s.digit_chars == content.filter(|c: char| '0' <= c && c <= '9').len() as usize
            &&& s.byte_len == encode_utf8(content).len() as usize
            &&& s.question_words == qw.len() as usize
            &&& s.matching_words == qw.filter(|w: Seq<char>| contains(l, w)).len() as usize
            &&& s.causal == (contains(l, "because"@) || contains(l, "therefore"@) || contains(
                l,
                "caused by"@,
            ) || contains(l, "results in"@) || contains(l, "leads to"@) || contains(l, "due to"@)
                || contains(l, "so that"@) || contains(l, "which means"@) || contains(l, "→"@))
            &&& s.entity == (content.contains('"') || content.contains('\'') || content.filter(
                |c: char| is_uppercase(c),
            ).len() > encode_utf8(content).len() as usize / 10)
            &&& s.temporal == (contains(l, "2024"@) || contains(l, "2025"@) || contains(l, "2026"@)
                || contains(l, "yesterday"@) || contains(l, "today"@) || contains(l, "last week"@)
                || contains(l, "first"@) || contains(l, "then"@) || contains(l, "after"@) || contains(
                l,
                "before"@,
            ) || contains(l, "step 1"@) || contains(l, "step 2"@))
            &&& s.structural == (contains(l, "schema"@) || contains(l, "table"@) || contains(
                l,
                "column"@,
            ) || contains(l, "field"@) || contains(l, "parent"@) || contains(l, "child"@)
                || contains(l, "hierarchy"@) || contains(l, "relationship"@) || contains(
                l,
                "foreign key"@,
            ) || contains(l, "index"@) || contains(l, "constraint"@))
        }),
{
    lemma_count_chars_filter(
        content,
        |c: char| is_ascii_digit(c),
        |c: char| '0' <= c && c <= '9',
    );
    lemma_count_chars_filter(content, |c: char| is_uppercase(c), |c: char| is_uppercase(c));
    let ws = words(lowercase(question));
    lemma_long_words_filter(ws);
    lemma_count_contained_filter(long_words(ws), lowercase(content));
}

/// The number of active dimensions counts, one each: more than five digits,
/// a cause, some question word occurring in the message, entities, dates or
/// orderings, and structure.
pub proof fn law_active_dimensions(s: DimensionSignals)
    ensures
        active_count(s) == (if s.digit_chars > 5 {
            1int
        } else {
            0
        }) + (if s.causal {
            1int
        } else {
            0
        }) + (if s.question_words > 0 && s.matching_words > 0 {
            1int
        } else {
            0
        }) + (if s.entity {
            1int
        } else {
            0
        }) + (if s.temporal {
            1int
        } else {
            0
        }) + (if s.structural {
            1int
        } else {
            0
        }),
{
}

// ── Laws of signals and decay ───────────────────────────────────────

/// A message's signals depend only on the message itself, the later messages
/// of the zone and the question, never on earlier messages: the message at
/// `k` has the same dimension signals, decay counts and number of active
/// dimensions in the zone `a..e` as in the zone `k..e`.
pub proof fn law_signals_are_local(
    msgs: Seq<Message>,
    a: int,
    k: int,
    e: int,
    question: Seq<char>,
    key: u64,
)
    requires
        0 <= a <= k < e <= msgs.len(),
    ensures
        zone_signals(msgs, a, e, question)[k - a] == zone_signals(msgs, k, e, question)[0],
        decay_of(zone_signals(msgs, a, e, question), k - a) == decay_of(
            zone_signals(msgs, k, e, question),
            0,
        ),
        scored_message(msgs, a, k - a, question, key).active_dims == scored_message(
            msgs,
            k,
            0,
            question,
            key,
        ).active_dims,
{
    assert(zone_signals(msgs, a, e, question).skip(k - a + 1) =~= zone_signals(
        msgs,
        k,
        e,
        question,
    ).skip(1));
}

proof fn lemma_count_active_push(sigs: Seq<DimensionSignals>, x: DimensionSignals, d: Dimension)
    ensures
        count_active(sigs.push(x), d) == count_active(sigs, d) + if is_active(x, d) {
            1nat
        } else {
            0nat
        },
    decreases sigs.len(),
{
    if sigs.len() > 0 {
        assert(sigs.push(x).drop_first() =~= sigs.drop_first().push(x));
        assert(sigs.push(x)[0] == sigs[0]);
        lemma_count_active_push(sigs.drop_first(), x, d);
    } else {
        assert(sigs.push(x).drop_first() =~= Seq::<DimensionSignals>::empty());
        assert(sigs.push(x)[0] == x);
        assert(count_active(Seq::<DimensionSignals>::empty(), d) == 0);
    }
}

/// A later message can only add to the decay of earlier ones: extending the
/// zone `a..e` by the message at `e` leaves each earlier message's decay count
/// on a dimension as it was, plus one when that dimension fires on the new
/// message.
pub proof fn law_later_messages_only_add_decay(
    msgs: Seq<Message>,
    a: int,
    e: int,
    question: Seq<char>,
    j: int,
    d: Dimension,
)
    requires
        0 <= a <= e < msgs.len(),
        0 <= j < e - a,
    ensures
        later_active(zone_signals(msgs, a, e + 1, question), j, d) == later_active(
            zone_signals(msgs, a, e, question),
            j,
            d,
        ) + if is_active(dimension_signals(msgs[e].content@, question), d) {
            1nat
        } else {
            0nat
        },
        later_active(zone_signals(msgs, a, e + 1, question), j, d) >= later_active(
            zone_signals(msgs, a, e, question),
            j,
            d,
        ),
{
    let x = dimension_signals(msgs[e].content@, question);
    assert(zone_signals(msgs, a, e + 1, question).skip(j + 1) =~= zone_signals(
        msgs,
        a,
        e,
        question,
    ).skip(j + 1).push(x));
    lemma_count_active_push(zone_signals(msgs, a, e, question).skip(j + 1), x, d);
}

// ── Scored messages ──────────────────────────────────────────────────

/// A message of the compressible zone with its influence and the metadata
/// used in compression decisions.
#[derive(Debug, Clone, Copy, PartialEq, Eq, Structural)]
pub struct ScoredMessage {
    /// Index of the message in the whole conversation.
    pub index: usize,
    /// Key of the message's influence (see the `influence` module).
    pub influence_key: u64,
    /// Number of dimensions that fire.
    pub active_dims: u32,
    pub is_error: bool,
    pub is_tool_result: bool,
    /// Index of the message this one causally depends on (trace binding).
    pub depends_on: Option<usize>,
}

/// The message at position `i` of the zone `msgs[start..]` scored with influence key `key`.
/// An assistant message right after a tool result depends on that result.
pub open spec fn scored_message(
    msgs: Seq<Message>,
    start: int,
    i: int,
    question: Seq<char>,
    key: u64,
) -> ScoredMessage {
    let msg = msgs[start + i];
    ScoredMessage {
        index: (start + i) as usize,
        influence_key: key,
        active_dims: active_count(dimension_signals(msg.content@, question)) as u32,
        is_error: is_error_text(msg.content@),
        is_tool_result: is_tool_result_text(msg.content@),
        depends_on: if i > 0 && msg.role@ == "assistant"@ && is_tool_result_text(
            msgs[start + i - 1].content@,
        ) {
            Some((start + i - 1) as usize)
        } else {
            None
        },
    }
}

/// What a scored message says of the message at `start + i` of the zone: its
/// index and influence key; that it reports a tool error exactly when its
/// content mentions "<tool_error>" or "[graph_query error"; that it carries a
/// tool result exactly when its content mentions "<tool_result>" or
/// "[System ran"; and that it depends on another message exactly when it is
/// an assistant message, not the first of the zone, right after a message
/// that carries a tool result, which is then the one it depends on.
pub proof fn law_scored_message_fields(
    msgs: Seq<Message>,
    start: int,
    i: int,
    question: Seq<char>,
    key: u64,
)
    requires
        0 <= start,
        0 <= i,
        start + i < msgs.len(),
        start + i <= usize::MAX,
    ensures
        ({
            let sm = scored_message(msgs, start, i, question, key);
            let c = msgs[start + i].content@;
            let follows_result = i > 0 && (contains(msgs[start + i - 1].content@, "<tool_result>"@)
                || contains(msgs[start + i - 1].content@, "[System ran"@));
            &&& sm.index == start + i
            &&& sm.influence_key == key
            &&& sm.is_error == (contains(c, "<tool_error>"@) || contains(c, "[graph_query error"@))
            &&& sm.is_tool_result == (contains(c, "<tool_result>"@) || contains(
                c,
                "[System ran"@,
            ))
            &&& sm.depends_on is Some ==> msgs[start + i].role@ == "assistant"@ && follows_result
                && sm.depends_on == Some((start + i - 1) as usize)
            &&& msgs[start + i].role@ == "assistant"@ && follows_result ==> sm.depends_on == Some(
                (start + i - 1) as usize,
            )
        }),
{
}

/// Score the messages of the compressible zone `messages[compressible_range]`,
/// where `influence_keys[i]` is the influence key of the `i`-th of them.
pub fn score_messages(
    messages: &[Message],
    compressible_range: std::ops::Range<usize>,
    user_question: &str,
    influence_keys: &[u64],
) -> (res: Vec<ScoredMessage>)
    requires
        compressible_range.start <= compressible_range.end <= messages@.len(),
        influence_keys@.len() == compressible_range.end - compressible_range.start,
    ensures
        res@.len() == compressible_range.end - compressible_range.start,
        forall|i: int|
            0 <= i < compressible_range.end - compressible_range.start ==> #[trigger] res@[i]
                == scored_message(
                messages@,
                compressible_range.start as int,
                i,
                user_question@,
                influence_keys@[i],
            ),
{
    let start = compressible_range.start;
    let end = compressible_range.end;
    let terms = question_terms_of(user_question);
    proof {
        assert(terms@.map_values(|w: Vec<char>| w@) =~= question_terms(user_question@));
    }
    let mut scored: Vec<ScoredMessage> = Vec::new();
    let mut prev_is_result = false;
    let mut i = start;
    while i < end
        invariant
            start <= i <= end <= messages@.len(),
            influence_keys@.len() == end - start,
            terms@.map_values(|w: Vec<char>| w@) == question_terms(user_question@),
            scored@.len() == i - start,
            i > start ==> prev_is_result == is_tool_result_text(messages@[i - 1].content@),
            forall|k: int|
                0 <= k < i - start ==> #[trigger] scored@[k] == scored_message(
                    messages@,
                    start as int,
                    k,
                    user_question@,
                    influence_keys@[k],
                ),
        decreases end - i,
    {
        let msg = &messages[i];
        let content = chars_of(msg.content.as_str());
        let dims = signals_with_terms(msg.content.as_str(), &terms);
        let b = active_dimensions(&dims);
        let is_error = is_error_content(&content);
        let is_tool_result = is_tool_result_content(&content);
        let depends_on = if i > start && str_equal(msg.role.as_str(), "assistant")
            && prev_is_result {
            Some(i - 1)
        } else {
            None
        };
        scored.push(
            ScoredMessage {
                index: i,
                influence_key: influence_keys[i - start],
                active_dims: b,
                is_error,
                is_tool_result,
                depends_on,
            },
        );
        prev_is_result = is_tool_result;
        i = i + 1;
    }
    scored
}

// ── Lines of a message ───────────────────────────────────────────────

/// The position of the first of the (lowercase) lines `lowered` that mentions "error".
pub open spec fn first_mentioning_error(lowered: Seq<Seq<char>>) -> Option<int>
    decreases lowered.len(),
{
    if lowered.len() == 0 {
        None
    } else if contains(lowered[0], "error"@) {
        Some(0)
    } else {
        match first_mentioning_error(lowered.drop_first()) {
            Some(k) => Some(k + 1),
            None => None,
        }
    }
}

/// The first line whose lowercase form mentions "error".
pub open spec fn first_error_line(ls: Seq<Seq<char>>) -> Option<Seq<char>> {
    match first_mentioning_error(ls.map_values(|l: Seq<char>| lowercase(l))) {
        Some(k) => Some(ls[k]),
        None => None,
    }
}

/// The first line that is not blank (not only white space).
pub open spec fn first_nonblank_line(ls: Seq<Seq<char>>) -> Option<Seq<char>>
    decreases ls.len(),
{
    if ls.len() == 0 {
        None
    } else if trim(ls[0]).len() > 0 {
        Some(ls[0])
    } else {
        first_nonblank_line(ls.drop_first())
    }
}

proof fn lemma_first_mentioning(lw: Seq<Seq<char>>, i: int)
    requires
        0 <= i < lw.len(),
        contains(lw[i], "error"@),
        forall|j: int| 0 <= j < i ==> !contains(#[trigger] lw[j], "error"@),
    ensures
        first_mentioning_error(lw) == Some(i),
    decreases i,
{
    if i > 0 {
        let rest = lw.drop_first();
        assert forall|j: int| 0 <= j < i - 1 implies !contains(#[trigger] rest[j], "error"@) by {
            assert(rest[j] == lw[j + 1]);
        }
        lemma_first_mentioning(rest, i - 1);
    }
}

proof fn lemma_first_mentioning_none(lw: Seq<Seq<char>>)
    requires
        forall|j: int| 0 <= j < lw.len() ==> !contains(#[trigger] lw[j], "error"@),
    ensures
        first_mentioning_error(lw) is None,
    decreases lw.len(),
{
    if lw.len() > 0 {
        let rest = lw.drop_first();
        assert forall|j: int| 0 <= j < rest.len() implies !contains(#[trigger] rest[j], "error"@) by {
            assert(rest[j] == lw[j + 1]);
        }
        lemma_first_mentioning_none(rest);
    }
}

/// The position of the first of the lowercase lines `lowered` (what
/// `str::to_lowercase` gives for each line) that mentions "error".
pub fn first_line_mentioning_error(lowered: &[String]) -> (res: Option<usize>)
    ensures
        res matches Some(k) ==> k < lowered@.len() && first_mentioning_error(
            lowered@.map_values(|s: String| s@),
        ) == Some(k as int),
        res is None ==> first_mentioning_error(lowered@.map_values(|s: String| s@)) is None,
{
    let ghost lw = lowered@.map_values(|s: String| s@);
    let mut k: usize = 0;
    while k < lowered.len()
        invariant
            k <= lowered.len(),
            lw == lowered@.map_values(|s: String| s@),
            forall|j: int| 0 <= j < k ==> !contains(#[trigger] lw[j], "error"@),
        decreases lowered.len() - k,
    {
        let line = chars_of(lowered[k].as_str());
        assert(lw[k as int] == line@);
        if contains_str(&line, "error") {
            proof {
                lemma_first_mentioning(lw, k as int);
            }
            return Some(k);
        }
        k = k + 1;
    }
    proof {
        lemma_first_mentioning_none(lw);
    }
    None
}

/// The span of the first line of `content` whose lowercase form mentions "error".
pub fn find_error_line(content: &Vec<char>) -> (res: Option<(usize, usize)>)
    ensures
        res matches Some(sp) ==> sp.0 <= sp.1 <= content@.len() && first_error_line(
            lines(content@),
        ) == Some(content@.subrange(sp.0 as int, sp.1 as int)),
        res is None ==> first_error_line(lines(content@)) is None,
{
    let spans = line_spans(content);
    let ghost ls = lines(content@);
    let mut lowered: Vec<String> = Vec::new();
    let mut k: usize = 0;
    while k < spans.len()
        invariant
            k <= spans.len(),
            ls == lines(content@),
            spans@.len() == ls.len(),
            forall|j: int|
                0 <= j < spans@.len() ==> (#[trigger] spans@[j]).0 <= spans@[j].1 && spans@[j].1
                    <= content.len(),
            forall|j: int|
                0 <= j < spans@.len() ==> #[trigger] lines(content@)[j] == content@.subrange(
                    spans@[j].0 as int,
                    spans@[j].1 as int,
                ),
            lowered@.len() == k,
            forall|j: int| 0 <= j < k ==> #[trigger] lowered@[j]@ == lowercase(ls[j]),
        decreases spans.len() - k,
    {
        let (a, b) = spans[k];
        assert(ls[k as int] == content@.subrange(a as int, b as int));
        let line = string_of(content, a, b);
        lowered.push(to_lowercase(line.as_str()));
        k = k + 1;
    }
    assert(lowered@.map_values(|s: String| s@) =~= ls.map_values(|l: Seq<char>| lowercase(l)));
    match first_line_mentioning_error(lowered.as_slice()) {
        Some(k) => {
            assert(ls[k as int] == content@.subrange(spans@[k as int].0 as int, spans@[k as int].1 as int));
            Some(spans[k])
        },
        None => None,
    }
}

/// The span of the first line of `content` that is not blank.
pub fn find_nonblank_line(content: &Vec<char>) -> (res: Option<(usize, usize)>)
    ensures
        res matches Some(sp) ==> sp.0 <= sp.1 <= content@.len() && first_nonblank_line(
            lines(content@),
        ) == Some(content@.subrange(sp.0 as int, sp.1 as int)),
        res is None ==> first_nonblank_line(lines(content@)) is None,
{
    let spans = line_spans(content);
    let ghost ls = lines(content@);
    assert(ls.skip(0) =~= ls);
    let mut k: usize = 0;
    while k < spans.len()
        invariant
            k <= spans.len(),
            ls == lines(content@),
            spans@.len() == ls.len(),
            forall|j: int|
                0 <= j < spans@.len() ==> (#[trigger] spans@[j]).0 <= spans@[j].1 && spans@[j].1
                    <= content.len(),
            forall|j: int|
                0 <= j < spans@.len() ==> #[trigger] lines(content@)[j] == content@.subrange(
                    spans@[j].0 as int,
                    spans@[j].1 as int,
                ),
            first_nonblank_line(ls) == first_nonblank_line(ls.skip(k as int)),
        decreases spans.len() - k,
    {
        let (a, b) = spans[k];
        assert(ls[k as int] == content@.subrange(a as int, b as int));
        assert(ls.skip(k as int)[0] == ls[k as int]);
        assert(ls.skip(k as int).drop_first() =~= ls.skip(k + 1));
        let (ta, tb) = trim_bounds(content, a, b);
        if ta < tb {
            return Some((a, b));
        }
        k = k + 1;
    }
    assert(ls.skip(k as int) =~= Seq::<Seq<char>>::empty());
    None
}

} // verus!

pub use crate::analysis::{analyze, compressible_range, CompactionAnalysis, CompactionStats};
pub use crate::chains::{detect_chains, CausalChain};
pub use crate::compaction::{assemble_summary, build_compaction_input};
pub use crate::plan::{
    build_summariser_prompts, detect_saturation, plan_compression, CompressionPlan, SaturationReport,
};
pub use crate::think::strip_think;
