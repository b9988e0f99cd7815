//! The summariser's input built from a compression plan, and the final summary.

use vstd::prelude::*;

use crate::forgetting::{
    find_error_line, find_nonblank_line, first_error_line, first_nonblank_line, is_error_content,
    is_error_text, ProblemClass,
};
use crate::plan::CompressionPlan;
use crate::text::{
    chars_of, contains, lines, occurs_at, push_chars, push_str, trim, trim_bounds, trim_end, trim_start,
};
use crate::Message;

verus! {

/// `s` cut to its first `n` characters (all of it when it is shorter).
pub open spec fn prefix(s: Seq<char>, n: nat) -> Seq<char> {
    if s.len() <= n {
        s
    } else {
        s.take(n as int)
    }
}

/// A preserved message: a bullet with its first 400 characters, trimmed.
pub open spec fn preserved_entry(m: Message) -> Seq<char> {
    "- "@ + trim(prefix(m.content@, 400)) + "\n"@
}

/// A lightly compressed message: its role and its first 300 characters, trimmed.
pub open spec fn light_entry(m: Message) -> Seq<char> {
    "["@ + m.role@ + "]: "@ + trim(prefix(m.content@, 300)) + "\n"@
}

/// A heavily compressed message: for an error, its first line that mentions
/// an error (trimmed); otherwise its role and the first 80 characters of its
/// first non-blank line.
pub open spec fn heavy_entry(m: Message) -> Seq<char> {
    if is_error_text(m.content@) {
        let line = match first_error_line(lines(m.content@)) {
            Some(l) => l,
            None => "(tool error)"@,
        };
        "[error]: "@ + trim(line) + "\n"@
    } else {
        let line = match first_nonblank_line(lines(m.content@)) {
            Some(l) => l,
            None => "(empty)"@,
        };
        "["@ + m.role@ + "]: "@ + prefix(line, 80) + "\n"@
    }
}

/// The entries `f` of the messages with indices `idxs`, skipping indices out of range.
pub open spec fn entries(idxs: Seq<usize>, msgs: Seq<Message>, f: spec_fn(Message) -> Seq<char>) -> Seq<
    char,
>
    decreases idxs.len(),
{
    if idxs.len() == 0 {
        seq![]
    } else {
        entries(idxs.drop_last(), msgs, f) + if idxs.last() < msgs.len() {
            f(msgs[idxs.last() as int])
        } else {
            seq![]
        }
    }
}

/// The text of the preserved messages.
pub open spec fn preserved_text(plan_preserve: Seq<usize>, msgs: Seq<Message>) -> Seq<char> {
    entries(plan_preserve, msgs, |m: Message| preserved_entry(m))
}

/// The text to summarise: the lightly compressed messages and, when there
/// are any, the heavily compressed ones under their own heading.
pub open spec fn summariser_text(light: Seq<usize>, heavy: Seq<usize>, msgs: Seq<Message>) -> Seq<
    char,
> {
    "[Messages to compress — preserve causal connections]\n"@ + entries(
        light,
        msgs,
        |m: Message| light_entry(m),
    ) + if heavy.len() > 0 {
        "\n[Messages to compress aggressively — type/outcome only]\n"@ + entries(
            heavy,
            msgs,
            |m: Message| heavy_entry(m),
        )
    } else {
        seq![]
    }
}

/// The entries of messages read the conversation only at the listed indices:
/// when they all lie below `bound`, two conversations of the same length that
/// agree below `bound` give the same entries.
pub proof fn lemma_entries_local(
    idxs: Seq<usize>,
    msgs1: Seq<Message>,
    msgs2: Seq<Message>,
    f: spec_fn(Message) -> Seq<char>,
    bound: usize,
)
    requires
        forall|k: int| 0 <= k < idxs.len() ==> #[trigger] idxs[k] < bound,
        msgs1.len() == msgs2.len(),
        forall|i: int| 0 <= i < bound && i < msgs1.len() ==> #[trigger] msgs1[i] == msgs2[i],
    ensures
        entries(idxs, msgs1, f) == entries(idxs, msgs2, f),
    decreases idxs.len(),
{
    if idxs.len() > 0 {
        let init = idxs.drop_last();
        assert forall|k: int| 0 <= k < init.len() implies #[trigger] init[k] < bound by {
            assert(init[k] == idxs[k]);
        }
        lemma_entries_local(init, msgs1, msgs2, f, bound);
        let last = idxs[idxs.len() - 1];
        assert(last < bound);
        if last < msgs1.len() {
            assert(msgs1[last as int] == msgs2[last as int]);
        }
    }
}

/// Appends the entry of a preserved message.
fn push_preserved(out: &mut String, m: &Message)
    ensures
        final(out)@ == old(out)@ + preserved_entry(*m),
{
    let chars = chars_of(m.content.as_str());
    let n = if chars.len() <= 400 {
        chars.len()
    } else {
        400
    };
    assert(chars@.subrange(0, n as int) =~= prefix(m.content@, 400));
    let (a, b) = trim_bounds(&chars, 0, n);
    push_str(out, "- ");
    push_chars(out, &chars, a, b);
    push_str(out, "\n");
    assert(final(out)@ =~= old(out)@ + preserved_entry(*m));
}

/// Appends the entry of a lightly compressed message.
fn push_light(out: &mut String, m: &Message)
    ensures
        final(out)@ == old(out)@ + light_entry(*m),
{
    let chars = chars_of(m.content.as_str());
    let n = if chars.len() <= 300 {
        chars.len()
    } else {
        300
    };
    assert(chars@.subrange(0, n as int) =~= prefix(m.content@, 300));
    let (a, b) = trim_bounds(&chars, 0, n);
    push_str(out, "[");
    push_str(out, m.role.as_str());
    push_str(out, "]: ");
    push_chars(out, &chars, a, b);
    push_str(out, "\n");
    assert(final(out)@ =~= old(out)@ + light_entry(*m));
}

/// Appends the entry of a heavily compressed message.
fn push_heavy(out: &mut String, m: &Message)
    ensures
        final(out)@ == old(out)@ + heavy_entry(*m),
{
    let chars = chars_of(m.content.as_str());
    if is_error_content(&chars) {
        let (line, lo, hi) = match find_error_line(&chars) {
            Some((a, b)) => (chars, a, b),
            None => {
                let v = chars_of("(tool error)");
                let n = v.len();
                (v, 0, n)
            },
        };
        assert(line@.subrange(lo as int, hi as int) == match first_error_line(lines(m.content@)) {
            Some(l) => l,
            None => "(tool error)"@,
        }) by {
            if first_error_line(lines(m.content@)) is None {
                assert(line@.subrange(lo as int, hi as int) =~= line@);
            }
        }
        let (a, b) = trim_bounds(&line, lo, hi);
        push_str(out, "[error]: ");
        push_chars(out, &line, a, b);
        push_str(out, "\n");
    } else {
        let (line, lo, hi) = match find_nonblank_line(&chars) {
            Some((a, b)) => (chars, a, b),
            None => {
                let v = chars_of("(empty)");
                let n = v.len();
                (v, 0, n)
            },
        };
        assert(line@.subrange(lo as int, hi as int) == match first_nonblank_line(
            lines(m.content@),
        ) {
            Some(l) => l,
            None => "(empty)"@,
        }) by {
            if first_nonblank_line(lines(m.content@)) is None {
                assert(line@.subrange(lo as int, hi as int) =~= line@);
            }
        }
        let end = if hi - lo <= 80 {
            hi
        } else {
            lo + 80
        };
        assert(line@.subrange(lo as int, end as int) =~= prefix(
            line@.subrange(lo as int, hi as int),
            80,
        ));
        push_str(out, "[");
        push_str(out, m.role.as_str());
        push_str(out, "]: ");
        push_chars(out, &line, lo, end);
        push_str(out, "\n");
    }
    assert(final(out)@ =~= old(out)@ + heavy_entry(*m));
}

/// Which entries a list gets.
enum EntryKind {
    Preserved,
    Light,
    Heavy,
}

spec fn entry_fn(kind: EntryKind) -> spec_fn(Message) -> Seq<char> {
    match kind {
        EntryKind::Preserved => |m: Message| preserved_entry(m),
        EntryKind::Light => |m: Message| light_entry(m),
        EntryKind::Heavy => |m: Message| heavy_entry(m),
    }
}

/// Appends the entries of the messages with indices `idxs`.
fn push_entries(out: &mut String, idxs: &Vec<usize>, messages: &[Message], kind: EntryKind)
    ensures
        final(out)@ == old(out)@ + entries(idxs@, messages@, entry_fn(kind)),
{
    let mut k: usize = 0;
    while k < idxs.len()
        invariant
            k <= idxs.len(),
            out@ == old(out)@ + entries(idxs@.take(k as int), messages@, entry_fn(kind)),
        decreases idxs.len() - k,
    {
        assert(idxs@.take(k + 1).drop_last() =~= idxs@.take(k as int));
        let idx = idxs[k];
        let ghost before = out@;
        if idx < messages.len() {
            match kind {
                EntryKind::Preserved => push_preserved(out, &messages[idx]),
                EntryKind::Light => push_light(out, &messages[idx]),
                EntryKind::Heavy => push_heavy(out, &messages[idx]),
            }
        }
        k = k + 1;
        assert(out@ =~= old(out)@ + entries(idxs@.take(k as int), messages@, entry_fn(kind)));
    }
    assert(idxs@.take(idxs.len() as int) =~= idxs@);
}

/// Build the text to feed to the summariser, applying the compression plan.
///
/// Returns `(text_for_summariser, preserved_messages_text)`: the content to
/// compress (light and heavy sections), and the high-influence content to
/// keep verbatim in the summary.
pub fn build_compaction_input(plan: &CompressionPlan, messages: &[Message]) -> (res: (
    String,
    String,
))
    ensures
        res.0@ == summariser_text(plan.compress_light@, plan.compress_heavy@, messages@),
        res.1@ == preserved_text(plan.preserve_verbatim@, messages@),
{
    let mut preserved = String::new();
    push_entries(&mut preserved, &plan.preserve_verbatim, messages, EntryKind::Preserved);
    assert(preserved@ =~= preserved_text(plan.preserve_verbatim@, messages@));

    let mut to_summarise = String::new();
    push_str(&mut to_summarise, "[Messages to compress — preserve causal connections]\n");
    push_entries(&mut to_summarise, &plan.compress_light, messages, EntryKind::Light);
    if plan.compress_heavy.len() > 0 {
        push_str(&mut to_summarise, "\n[Messages to compress aggressively — type/outcome only]\n");
        push_entries(&mut to_summarise, &plan.compress_heavy, messages, EntryKind::Heavy);
    }
    assert(to_summarise@ =~= summariser_text(
        plan.compress_light@,
        plan.compress_heavy@,
        messages@,
    ));
    (to_summarise, preserved)
}

proof fn lemma_trim_start_len(s: Seq<char>)
    ensures
        trim_start(s).len() <= s.len(),
    decreases s.len(),
{
    if s.len() > 0 && crate::text::is_white_space(s[0]) {
        lemma_trim_start_len(s.drop_first());
    }
}

proof fn lemma_trim_end_len(s: Seq<char>)
    ensures
        trim_end(s).len() <= s.len(),
    decreases s.len(),
{
    if s.len() > 0 && crate::text::is_white_space(s.last()) {
        lemma_trim_end_len(s.drop_last());
    }
}

/// A preserved message keeps at most 400 of its characters (key data, not
/// raw output), so its entry is at most 403 characters long; a lightly
/// compressed one keeps at most 300.
pub proof fn law_entries_are_truncated(m: Message)
    ensures
        trim(prefix(m.content@, 400)).len() <= 400,
        trim(prefix(m.content@, 300)).len() <= 300,
        preserved_entry(m).len() <= 403,
{
    lemma_trim_start_len(prefix(m.content@, 400));
    lemma_trim_end_len(trim_start(prefix(m.content@, 400)));
    lemma_trim_start_len(prefix(m.content@, 300));
    lemma_trim_end_len(trim_start(prefix(m.content@, 300)));
    reveal_strlit("- ");
    reveal_strlit("\n");
}

/// Where `trim_start` of `t` begins.
proof fn trim_start_at(t: Seq<char>) -> (k: int)
    ensures
        0 <= k <= t.len(),
        trim_start(t) == t.subrange(k, t.len() as int),
    decreases t.len(),
{
    if t.len() > 0 && crate::text::is_white_space(t[0]) {
        let k = trim_start_at(t.drop_first());
        assert(t.drop_first().subrange(k, t.drop_first().len() as int) =~= t.subrange(
            k + 1,
            t.len() as int,
        ));
        k + 1
    } else {
        assert(t.subrange(0, t.len() as int) =~= t);
        0
    }
}

/// Where `trim_end` of `t` ends.
proof fn trim_end_at(t: Seq<char>) -> (k: int)
    ensures
        0 <= k <= t.len(),
        trim_end(t) == t.subrange(0, k),
    decreases t.len(),
{
    if t.len() > 0 && crate::text::is_white_space(t.last()) {
        let k = trim_end_at(t.drop_last());
        assert(t.drop_last().subrange(0, k) =~= t.subrange(0, k));
        k
    } else {
        assert(t.subrange(0, t.len() as int) =~= t);
        t.len() as int
    }
}

/// `trim` of the first `n` characters of `t` is a run `t[a..b]` with `b <= n`.
proof fn trimmed_prefix_run(t: Seq<char>, n: nat) -> (ab: (int, int))
    ensures
        0 <= ab.0 <= ab.1 <= t.len(),
        ab.1 <= n,
        trim(prefix(t, n)) == t.subrange(ab.0, ab.1),
{
    let p = prefix(t, n);
    let a = trim_start_at(p);
    let rest = p.subrange(a, p.len() as int);
    let b = trim_end_at(rest);
    assert(rest.subrange(0, b) =~= t.subrange(a, a + b));
    (a, a + b)
}

/// Each entry carries only a bounded run of its message. A preserved entry is
/// "- ", a run of the message's first 400 characters, and a newline; a lightly
/// compressed entry is "[", the role, "]: ", a run of the message's first 300
/// characters, and a newline; a heavily compressed message that reports no
/// error gets "[", the role, "]: ", at most 80 characters, and a newline.
pub proof fn law_entries_carry_bounded_runs(m: Message)
    ensures
        exists|a: int, b: int|
            0 <= a <= b <= 400 && b <= m.content@.len() && preserved_entry(m) == "- "@
                + m.content@.subrange(a, b) + "\n"@,
        exists|a: int, b: int|
            0 <= a <= b <= 300 && b <= m.content@.len() && light_entry(m) == "["@ + m.role@
                + "]: "@ + m.content@.subrange(a, b) + "\n"@,
        !(contains(m.content@, "<tool_error>"@) || contains(m.content@, "[graph_query error"@))
            ==> exists|s: Seq<char>|
            s.len() <= 80 && heavy_entry(m) == "["@ + m.role@ + "]: "@ + s + "\n"@,
{
    let (a4, b4) = trimmed_prefix_run(m.content@, 400);
    assert(preserved_entry(m) == "- "@ + m.content@.subrange(a4, b4) + "\n"@);
    let (a3, b3) = trimmed_prefix_run(m.content@, 300);
    assert(light_entry(m) == "["@ + m.role@ + "]: "@ + m.content@.subrange(a3, b3) + "\n"@);
    if !(contains(m.content@, "<tool_error>"@) || contains(m.content@, "[graph_query error"@)) {
        let line = match first_nonblank_line(lines(m.content@)) {
            Some(l) => l,
            None => "(empty)"@,
        };
        assert(heavy_entry(m) == "["@ + m.role@ + "]: "@ + prefix(line, 80) + "\n"@);
        assert(prefix(line, 80).len() <= 80);
    }
}

// ── The final summary ────────────────────────────────────────────────

/// The label of a problem class in the summary's heading.
pub open spec fn class_label(c: ProblemClass) -> Seq<char> {
    match c {
        ProblemClass::Lookup => "lookup"@,
        ProblemClass::MultiHop => "multi-hop"@,
        ProblemClass::Exploratory => "exploration"@,
        ProblemClass::Aggregation => "aggregation"@,
        ProblemClass::Contradiction => "contradiction"@,
        ProblemClass::Temporal => "temporal"@,
    }
}

/// The summary: a heading with the problem class, the preserved findings when
/// there are any, the model's summary (trimmed) when it is not blank, and a
/// closing line.
pub open spec fn summary_text(model_summary: Seq<char>, preserved: Seq<char>, c: ProblemClass) -> Seq<
    char,
> {
    "[Prior investigation summary ("@ + class_label(c) + ")]"@ + (if preserved.len() > 0 {
        "\n\nKey findings (preserved):\n"@ + preserved
    } else {
        seq![]
    }) + (if trim(model_summary).len() > 0 {
        "\n\nCompressed context:\n"@ + trim(model_summary)
    } else {
        seq![]
    }) + "\n\nContinue from here. Use what you learned above."@
}

/// Assemble the final summary message to insert into the message array:
/// the model-generated summary with the preserved high-influence content.
pub fn assemble_summary(model_summary: &str, preserved: &str, problem_class: ProblemClass) -> (res:
    String)
    ensures
        res@ == summary_text(model_summary@, preserved@, problem_class),
{
    let mut summary = String::new();
    push_str(&mut summary, "[Prior investigation summary (");
    match problem_class {
        ProblemClass::Lookup => push_str(&mut summary, "lookup"),
        ProblemClass::MultiHop => push_str(&mut summary, "multi-hop"),
        ProblemClass::Exploratory => push_str(&mut summary, "exploration"),
        ProblemClass::Aggregation => push_str(&mut summary, "aggregation"),
        ProblemClass::Contradiction => push_str(&mut summary, "contradiction"),
        ProblemClass::Temporal => push_str(&mut summary, "temporal"),
    }
    push_str(&mut summary, ")]");
    if !preserved.is_empty() {
        push_str(&mut summary, "\n\nKey findings (preserved):\n");
        push_str(&mut summary, preserved);
    }
    let model = chars_of(model_summary);
    let (a, b) = trim_bounds(&model, 0, model.len());
    assert(model@.subrange(0, model.len() as int) =~= model_summary@);
    if a < b {
        push_str(&mut summary, "\n\nCompressed context:\n");
        push_chars(&mut summary, &model, a, b);
    }
    push_str(&mut summary, "\n\nContinue from here. Use what you learned above.");
    assert(summary@ =~= summary_text(model_summary@, preserved@, problem_class));
    summary
}

// ── The compacted conversation ───────────────────────────────────────

/// Where the recent zone of `n` messages keeping `keep_recent` of them starts.
pub open spec fn recent_start(n: nat, keep_recent: nat) -> nat {
    if keep_recent <= n {
        (n - keep_recent) as nat
    } else {
        0
    }
}

/// Two messages with the same role and the same content.
pub open spec fn same_message(a: Message, b: Message) -> bool {
    a.role@ == b.role@ && a.content@ == b.content@
}

/// A copy of a message.
fn copy_message(m: &Message) -> (res: Message)
    ensures
        same_message(res, *m),
{
    Message { role: m.role.clone(), content: m.content.clone() }
}

/// The conversation after compaction: the first message (the original
/// question), the summary as a user message, then the last `keep_recent`
/// messages (all of them when there are fewer).
pub fn compacted_context(messages: &[Message], summary: String, keep_recent: usize) -> (res: Vec<
    Message,
>)
    requires
        messages@.len() >= 1,
    ensures
        res@.len() == 2 + messages@.len() - recent_start(messages@.len(), keep_recent as nat),
        same_message(res@[0], messages@[0]),
        res@[1].role@ == "user"@,
        res@[1].content@ == summary@,
        forall|i: int|
            2 <= i < res@.len() ==> same_message(
                #[trigger] res@[i],
                messages@[recent_start(messages@.len(), keep_recent as nat) + i - 2],
            ),
{
    let start = if keep_recent <= messages.len() {
        messages.len() - keep_recent
    } else {
        0
    };
    let mut res: Vec<Message> = Vec::new();
    res.push(copy_message(&messages[0]));
    let mut role = String::new();
    push_str(&mut role, "user");
    proof {
        reveal_strlit("user");
        assert(role@ =~= "user"@);
    }
    res.push(Message { role, content: summary });
    let mut i = start;
    while i < messages.len()
        invariant
            start == recent_start(messages@.len(), keep_recent as nat),
            start <= i <= messages.len(),
            res@.len() == 2 + i - start,
            same_message(res@[0], messages@[0]),
            res@[1].role@ == "user"@,
            res@[1].content@ == summary@,
            forall|k: int| 2 <= k < res@.len() ==> same_message(#[trigger] res@[k], messages@[start + k - 2]),
        decreases messages.len() - i,
    {
        res.push(copy_message(&messages[i]));
        i = i + 1;
    }
    res
}

/// The summary message of a uniformly compressed conversation.
pub open spec fn uniform_summary_text(summary: Seq<char>) -> Seq<char> {
    "[Prior investigation summary]\n"@ + summary + "\n\nContinue from here."@
}

/// The conversation after uniform compression: the first message (the
/// original question), the summary under its heading as a user message, then
/// the given recent messages.
pub fn v1_context(messages: &[Message], v1_summary: &str, recent: &[Message]) -> (res: Vec<Message>)
    requires
        messages@.len() >= 1,
    ensures
        res@.len() == 2 + recent@.len(),
        same_message(res@[0], messages@[0]),
        res@[1].role@ == "user"@,
        res@[1].content@ == uniform_summary_text(v1_summary@),
        forall|i: int| 2 <= i < res@.len() ==> same_message(#[trigger] res@[i], recent@[i - 2]),
{
    let mut res: Vec<Message> = Vec::new();
    res.push(copy_message(&messages[0]));
    let mut role = String::new();
    push_str(&mut role, "user");
    let mut content = String::new();
    push_str(&mut content, "[Prior investigation summary]\n");
    push_str(&mut content, v1_summary);
    push_str(&mut content, "\n\nContinue from here.");
    proof {
        reveal_strlit("user");
        assert(role@ =~= "user"@);
        assert(content@ =~= uniform_summary_text(v1_summary@));
    }
    res.push(Message { role, content });
    let mut i: usize = 0;
    while i < recent.len()
        invariant
            i <= recent.len(),
            res@.len() == 2 + i,
            same_message(res@[0], messages@[0]),
            res@[1].role@ == "user"@,
            res@[1].content@ == uniform_summary_text(v1_summary@),
            forall|k: int| 2 <= k < res@.len() ==> same_message(#[trigger] res@[k], recent@[k - 2]),
        decreases recent.len() - i,
    {
        res.push(copy_message(&recent[i]));
        i = i + 1;
    }
    res
}

/// The summary keeps the preserved findings and the model's (trimmed) summary
/// verbatim, after the heading and before the closing line.
pub proof fn law_summary_keeps_findings(model_summary: Seq<char>, preserved: Seq<char>, c: ProblemClass)
    ensures
        preserved.len() > 0 ==> contains(summary_text(model_summary, preserved, c), preserved),
        trim(model_summary).len() > 0 ==> contains(
            summary_text(model_summary, preserved, c),
            trim(model_summary),
        ),
{
    let head = "[Prior investigation summary ("@ + class_label(c) + ")]"@;
    let kept = if preserved.len() > 0 {
        "\n\nKey findings (preserved):\n"@ + preserved
    } else {
        seq![]
    };
    let model = if trim(model_summary).len() > 0 {
        "\n\nCompressed context:\n"@ + trim(model_summary)
    } else {
        seq![]
    };
    let tail = "\n\nContinue from here. Use what you learned above."@;
    let s = summary_text(model_summary, preserved, c);
    assert(s =~= head + kept + model + tail);
    if preserved.len() > 0 {
        let at: int = (head.len() + "\n\nKey findings (preserved):\n"@.len()) as int;
        assert(s.subrange(at, at + preserved.len() as int) =~= preserved);
        assert(occurs_at(s, preserved, at));
    }
    if trim(model_summary).len() > 0 {
        let t = trim(model_summary);
        let at: int = (head.len() + kept.len() + "\n\nCompressed context:\n"@.len()) as int;
        assert(s.subrange(at, at + t.len() as int) =~= t);
        assert(occurs_at(s, t, at));
    }
}

} // verus!
