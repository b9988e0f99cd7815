use measured_forgetting::analysis::{analyze, compressible_range};
use measured_forgetting::chains::detect_chains;
use measured_forgetting::compaction::{
    assemble_summary, build_compaction_input, compacted_context, v1_context,
};
use measured_forgetting::forgetting::{
    active_dimensions, decay_counts, first_line_mentioning_error, message_signals,
    score_dimensions, score_dimensions_lowered, score_messages, MessageSignals, ProblemClass,
    ScoredMessage,
};
use measured_forgetting::plan::{
    build_summariser_prompts, detect_saturation, plan_compression, CompressionPlan,
    SaturationReport,
};
use measured_forgetting::Message;

/// The influence key of a number (not NaN): its bit pattern moved so that
/// keys order as the numbers do, both zeros at 2^63.
fn key(x: f64) -> u64 {
    let b = x.to_bits();
    if b >> 63 == 0 {
        (1u64 << 63) + b
    } else {
        0u64.wrapping_sub(b)
    }
}

fn msg(role: &str, content: &str) -> Message {
    Message { role: role.to_string(), content: content.to_string() }
}

/// The influence of a message from its signals, as the Influence Equation gives it.
fn influence(sig: &MessageSignals) -> f64 {
    let d = &sig.dims;
    let data = if d.digit_chars > 5 {
        (d.digit_chars as f64 / d.byte_len.max(1) as f64 * 10.0).min(1.0)
    } else {
        0.0
    };
    let causal = if d.causal { 0.8 } else { 0.0 };
    let task = if d.question_words == 0 {
        0.0
    } else {
        (d.matching_words as f64 / d.question_words as f64).min(1.0)
    };
    let entity = if d.entity { 0.6 } else { 0.0 };
    let temporal = if d.temporal { 0.7 } else { 0.0 };
    let structural = if d.structural { 0.7 } else { 0.0 };
    let susc = |k: usize| {
        let mut s = 1.0f64;
        for _ in 0..k {
            s *= 0.7;
        }
        s
    };
    let b = active_dimensions(d);
    let phi = if b == 0 { 0.0 } else { (b as f64).powf(1.5) };
    let ws = data * susc(sig.decay.data)
        + causal * susc(sig.decay.causal)
        + task * susc(sig.decay.task_reference)
        + entity * susc(sig.decay.entity)
        + temporal * susc(sig.decay.temporal)
        + structural * susc(sig.decay.structure);
    phi * ws
}

fn scored(index: usize, key: u64, dims: u32, err: bool, result: bool, dep: Option<usize>) -> ScoredMessage {
    ScoredMessage {
        index,
        influence_key: key,
        active_dims: dims,
        is_error: err,
        is_tool_result: result,
        depends_on: dep,
    }
}

#[test]
fn test_problem_classification_lookup() {
    let messages = vec![msg("user", "What is the price of gold?")];
    assert_eq!(
        ProblemClass::classify("What is the price of gold?", &messages),
        ProblemClass::Lookup
    );
}

#[test]
fn test_problem_classification_temporal() {
    let messages = vec![msg("user", "How has the GBP/USD rate changed over time?")];
    assert_eq!(
        ProblemClass::classify("How has the GBP/USD rate changed over time?", &messages),
        ProblemClass::Temporal
    );
}

#[test]
fn test_problem_classification_exploratory() {
    let mut messages = vec![msg("user", "Find the bug in the pipeline")];
    for _ in 0..5 {
        messages.push(msg("assistant", "<tool_error>connection refused</tool_error>"));
    }
    messages.push(msg("assistant", "<tool_result>found it</tool_result>"));
    assert_eq!(
        ProblemClass::classify("Find the bug in the pipeline", &messages),
        ProblemClass::Exploratory
    );
}

#[test]
fn test_influence_scoring_multi_dim() {
    let m = msg("assistant", "<tool_result>The query returned 47 rows because the filter on reported_date in 2026 matched. Schema: dim_chw has columns contact_id, geo_4_id.</tool_result>");
    let scores = score_dimensions(&m, "how many CHWs reported in 2026?");
    assert!(scores.digit_chars > 5, "data dimension should fire");
    assert!(scores.causal, "causal dimension should fire");
    assert!(scores.structural, "structural dimension should fire");
    assert!(active_dimensions(&scores) >= 3, "should have 3+ active dims");
}

#[test]
fn test_influence_scoring_error_low() {
    let m = msg("assistant", "<tool_error>connection timeout</tool_error>");
    let scores = score_dimensions(&m, "how many CHWs?");
    assert!(active_dimensions(&scores) <= 1);
}

#[test]
fn test_susceptibility_decay() {
    let quiet = score_dimensions(&msg("assistant", "ok"), "");
    let mut data_only = quiet;
    data_only.digit_chars = 8;
    let counts = decay_counts(&vec![quiet, data_only]);
    let mut data = 1.0f64;
    for _ in 0..counts[0].data {
        data *= 0.7;
    }
    assert!((data - 0.7).abs() < 0.01, "data susceptibility should decay");
    assert_eq!(counts[0].causal, 0, "causal should not decay (dimension inactive)");
}

#[test]
fn test_full_analysis() {
    let messages = vec![
        msg("user", "How many CHWs are active in Busia county?"),
        msg("assistant", "Let me query the database for active CHWs in Busia."),
        msg("user", "[System ran `query` and got: 247 active CHWs in Busia county as of 2026-05-01. Breakdown: 180 active, 67 inactive. The drop is because 15 were deactivated in April due to missed submissions.]"),
        msg("assistant", "Based on the data, there are 247 CHWs registered in Busia, with 180 currently active."),
        msg("user", "<tool_error>timeout querying historical data</tool_error>"),
        msg("assistant", "<tool_error>retry failed</tool_error>"),
        msg("user", "[System ran `query_v2` and got: Historical trend: Jan=195, Feb=200, Mar=210, Apr=180. The April drop correlates with the policy change.]"),
        msg("assistant", "The historical data shows a growth trend with an April correction."),
    ];
    let range = compressible_range(messages.len(), 0, 2);
    let signals = message_signals(&messages, range, &messages[0].content);
    let keys: Vec<u64> = signals.iter().map(|s| key(influence(s))).collect();
    let analysis = analyze(&messages, 0, 2, &keys);

    assert_eq!(analysis.problem_class, ProblemClass::Aggregation);
    assert!(analysis.stats.error_count >= 2);
    assert!(analysis.stats.preserved_count > 0, "should preserve high-influence messages");
    assert!(!analysis.text_for_summariser.is_empty());
}

// ── Classification ───────────────────────────────────────────────────

#[test]
fn classify_contradiction_comes_first() {
    let messages = vec![msg("user", "q")];
    assert_eq!(
        ProblemClass::classify("Why do the two sources DISAGREE on the trend?", &messages),
        ProblemClass::Contradiction
    );
}

#[test]
fn classify_lowercases_the_question() {
    let messages = vec![msg("user", "q")];
    assert_eq!(ProblemClass::classify("HOW MANY WELLS?", &messages), ProblemClass::Aggregation);
}

#[test]
fn classify_lowered_takes_the_question_as_given() {
    let messages = vec![msg("user", "q")];
    assert_eq!(
        ProblemClass::classify_lowered("how many wells?", &messages),
        ProblemClass::Aggregation
    );
    // Already lowercase by contract: uppercase words are not matched again.
    assert_eq!(
        ProblemClass::classify_lowered("HOW MANY WELLS?", &messages),
        ProblemClass::Lookup
    );
}

#[test]
fn classify_multi_hop_from_results() {
    let mut messages = vec![msg("user", "Trace the supplier of the part")];
    for _ in 0..3 {
        messages.push(msg("user", "<tool_result>ok</tool_result>"));
    }
    assert_eq!(
        ProblemClass::classify("Trace the supplier of the part", &messages),
        ProblemClass::MultiHop
    );
}

#[test]
fn classify_long_question_defaults_to_multi_hop() {
    let messages = vec![msg("user", "q")];
    let q = "please explain in detail the reasons for the odd behaviour of the pump station near the river";
    assert_eq!(ProblemClass::classify(q, &messages), ProblemClass::MultiHop);
}

// ── Dimensions and decay ─────────────────────────────────────────────

#[test]
fn signals_count_bytes_and_question_terms() {
    let m = msg("assistant", "héllo \"world\"");
    let s = score_dimensions(&m, "What is the world saying, héllo?");
    assert_eq!(s.byte_len, "héllo \"world\"".len());
    // words longer than three bytes: "what", "world", "saying,", "héllo?"
    assert_eq!(s.question_words, 4);
    assert_eq!(s.matching_words, 1);
    assert!(s.entity);
    assert_eq!(s.digit_chars, 0);
}

#[test]
fn signals_entity_from_uppercase() {
    let s = score_dimensions(&msg("assistant", "ABCDEFGHIJ klm"), "");
    assert!(s.entity);
    let s = score_dimensions(&msg("assistant", "abcdefghij klm"), "");
    assert!(!s.entity);
    assert_eq!(s.question_words, 0);
}

#[test]
fn signals_from_given_lowercase_forms() {
    let m = msg("assistant", "abc");
    let s = score_dimensions_lowered(&m, "because of the schema", 5, "abcd efgh abc");
    assert!(s.causal);
    assert!(s.structural);
    assert!(!s.temporal);
    // 5 uppercase characters against 3 bytes.
    assert!(s.entity);
    assert_eq!(s.byte_len, 3);
    assert_eq!(s.question_words, 2);
    assert_eq!(s.matching_words, 0);
    let s = score_dimensions_lowered(&m, "the abcd of efgh", 0, "abcd efgh abc");
    assert!(!s.entity);
    assert_eq!(s.matching_words, 2);
    assert!(!s.causal);
}

#[test]
fn first_line_mentioning_error_among_lowered() {
    let lines = vec!["ok".to_string(), "an error here".to_string(), "error again".to_string()];
    assert_eq!(first_line_mentioning_error(&lines), Some(1));
    assert_eq!(first_line_mentioning_error(&["ok".to_string()]), None);
    assert_eq!(first_line_mentioning_error(&["ERROR".to_string()]), None);
    assert_eq!(first_line_mentioning_error(&[]), None);
}

#[test]
fn decay_counts_later_messages() {
    let base = score_dimensions(&msg("assistant", "nothing"), "");
    let mut temporal = base;
    temporal.temporal = true;
    let counts = decay_counts(&vec![base, temporal, base, temporal]);
    assert_eq!(counts[0].temporal, 2);
    assert_eq!(counts[1].temporal, 1);
    assert_eq!(counts[2].temporal, 1);
    assert_eq!(counts[3].temporal, 0);
    assert!(counts.windows(2).all(|w| w[0].temporal >= w[1].temporal));
}

#[test]
fn score_messages_marks_dependencies() {
    let messages = vec![
        msg("user", "question"),
        msg("user", "<tool_result>42</tool_result>"),
        msg("assistant", "The answer is 42"),
        msg("assistant", "<tool_error>oops</tool_error>"),
    ];
    let s = score_messages(&messages, 1..4, "question", &[3, 2, 1]);
    assert_eq!(s.len(), 3);
    assert_eq!(s[0].index, 1);
    assert!(s[0].is_tool_result);
    assert_eq!(s[0].depends_on, None);
    assert_eq!(s[1].depends_on, Some(1));
    assert_eq!(s[1].influence_key, 2);
    assert_eq!(s[2].depends_on, None);
    assert!(s[2].is_error);
}

// ── Chains ───────────────────────────────────────────────────────────

#[test]
fn chains_follow_dependencies() {
    let s = vec![
        scored(1, 10, 1, false, true, None),
        scored(2, 20, 1, false, false, Some(1)),
        scored(3, 30, 1, false, false, Some(2)),
        scored(5, 40, 1, false, false, Some(4)),
    ];
    let chains = detect_chains(&s);
    assert_eq!(chains.len(), 2);
    assert_eq!(chains[0].indices, vec![1, 2, 3]);
    assert_eq!(chains[0].influence_sources, vec![Some(0), Some(1), Some(2)]);
    assert_eq!(chains[1].indices, vec![4, 5]);
    assert_eq!(chains[1].influence_sources, vec![None, Some(3)]);
}

#[test]
fn chains_skip_members() {
    let s = vec![
        scored(1, 10, 1, false, false, Some(0)),
        scored(2, 10, 1, false, false, Some(0)),
    ];
    let chains = detect_chains(&s);
    assert_eq!(chains.len(), 1);
    assert_eq!(chains[0].indices, vec![0, 1]);
}

// ── Saturation and prompts ───────────────────────────────────────────

#[test]
fn saturation_tie_reports_earliest_error_line() {
    let messages = vec![
        msg("user", "q"),
        msg("user", "first\nSome ERROR: disk full\nmore"),
        msg("user", "<tool_error>x</tool_error>"),
        msg("user", "<tool_error>y</tool_error>"),
    ];
    let s = vec![
        scored(1, 0, 0, true, false, None),
        scored(2, 0, 0, true, false, None),
        scored(3, 0, 0, true, false, None),
    ];
    let report = detect_saturation(&s, &messages);
    assert_eq!(report.error_count, 3);
    assert_eq!(report.dominant_error.as_deref(), Some("Some ERROR: disk full"));
    assert!(!report.data_saturated);

    let (system, instruction) =
        build_summariser_prompts(ProblemClass::Exploratory, &report, &[], &messages);
    assert_eq!(
        system,
        "Output only bullet points of key findings. No preamble. No tool calls. No thinking tags."
    );
    assert_eq!(
        instruction,
        "Summarize these exchanges into key findings.\nFocus on what WORKED. Failed approaches → one line each (type only). Successes → full detail.\n\nNote: 3 errors occurred (type: Some ERROR: disk full). Summarize as one line, not individually.\n\nRules:\n- Bullet points only\n- Preserve ALL numbers and data\n- Maximum 5 bullets\n- Drop verbose formatting\n\n"
    );
}

#[test]
fn saturation_reports_most_common_error_line() {
    let messages = vec![
        msg("user", "<tool_error>timeout</tool_error>"),
        msg("user", "<tool_error>refused</tool_error>"),
        msg("user", "<tool_error>refused</tool_error>"),
    ];
    let s: Vec<ScoredMessage> = (0..3).map(|i| scored(i, 0, 0, true, false, None)).collect();
    let report = detect_saturation(&s, &messages);
    assert_eq!(report.error_count, 3);
    assert_eq!(report.dominant_error.as_deref(), Some("<tool_error>refused</tool_error>"));
    assert!(!report.data_saturated);
}

#[test]
fn saturation_equally_common_lines_take_the_earliest() {
    let messages = vec![
        msg("user", "<tool_error>a</tool_error>"),
        msg("user", "<tool_error>b</tool_error>"),
        msg("user", "<tool_error>b</tool_error>"),
        msg("user", "<tool_error>a</tool_error>"),
        msg("user", "<tool_error>c</tool_error>"),
    ];
    let s: Vec<ScoredMessage> = (0..5).map(|i| scored(i, 0, 0, true, false, None)).collect();
    let report = detect_saturation(&s, &messages);
    assert_eq!(report.dominant_error.as_deref(), Some("<tool_error>a</tool_error>"));
    // Errors whose message is not in the conversation count, but give no line.
    let s = vec![
        scored(7, 0, 0, true, false, None),
        scored(8, 0, 0, true, false, None),
        scored(4, 0, 0, true, false, None),
    ];
    let report = detect_saturation(&s, &messages);
    assert_eq!(report.error_count, 3);
    assert_eq!(report.dominant_error.as_deref(), Some("<tool_error>c</tool_error>"));
}

#[test]
fn saturation_unknown_error_and_data() {
    let messages = vec![msg("user", "no problem here")];
    let mut s = vec![scored(0, 0, 0, true, false, None); 3];
    for i in 0..5 {
        s.push(scored(9 + i, 0, 2, false, true, None));
    }
    let report = detect_saturation(&s, &messages);
    assert_eq!(report.dominant_error.as_deref(), Some("unknown error"));
    assert!(report.data_saturated);
}

#[test]
fn prompts_without_note_and_with_large_count() {
    let report = SaturationReport { error_count: 2, dominant_error: Some("e".to_string()), data_saturated: false };
    let (_, i) = build_summariser_prompts(ProblemClass::Lookup, &report, &[], &[]);
    assert!(!i.contains("Note:"));
    let report = SaturationReport { error_count: 1207, dominant_error: Some("e".to_string()), data_saturated: false };
    let (_, i) = build_summariser_prompts(ProblemClass::Temporal, &report, &[], &[]);
    assert!(i.contains("\nNote: 1207 errors occurred (type: e)."));
}

// ── Plans ────────────────────────────────────────────────────────────

fn no_saturation() -> SaturationReport {
    SaturationReport { error_count: 0, dominant_error: None, data_saturated: false }
}

#[test]
fn plan_empty() {
    let plan = plan_compression(&[], &[], &no_saturation(), ProblemClass::Lookup, &[]);
    assert!(plan.preserve_verbatim.is_empty());
    assert!(plan.summariser_system.is_empty());
    assert_eq!(plan.target_bullets, 5);
}

#[test]
fn plan_treatments() {
    let k = key;
    let s = vec![
        scored(0, k(10.0), 3, false, false, None), // above median, 3 dims: preserve
        scored(1, k(8.0), 1, false, false, None),  // median 9: above half → light
        scored(2, k(1.0), 1, false, false, None),  // below half → heavy
        scored(3, k(9.0), 1, true, false, None),   // error not in a chain → heavy
    ];
    let plan = plan_compression(&s, &[], &no_saturation(), ProblemClass::MultiHop, &[]);
    assert_eq!(plan.preserve_verbatim, vec![0]);
    assert_eq!(plan.compress_light, vec![1]);
    assert_eq!(plan.compress_heavy, vec![2, 3]);
}

#[test]
fn plan_temporal_keeps_conversation_order() {
    let k = key;
    let s = vec![
        scored(4, k(1.0), 1, false, false, None),
        scored(5, k(10.0), 3, false, false, None),
        scored(6, k(0.5), 1, true, false, None),
        scored(7, k(8.0), 1, false, false, None),
        scored(8, k(12.0), 4, false, false, None),
        scored(9, k(9.0), 1, false, false, None),
    ];
    let plan = plan_compression(&s, &[], &no_saturation(), ProblemClass::Temporal, &[]);
    assert_eq!(plan.preserve_verbatim, vec![5, 8]);
    assert_eq!(plan.compress_light, vec![7, 9]);
    assert_eq!(plan.compress_heavy, vec![4, 6]);
    for list in [&plan.preserve_verbatim, &plan.compress_light, &plan.compress_heavy] {
        assert!(list.windows(2).all(|w| w[0] < w[1]));
    }
}

#[test]
fn plan_lookup_preserves_best_result() {
    let s = vec![
        scored(0, 5, 1, false, true, None),
        scored(1, 1, 1, false, true, None),
        scored(2, 5, 1, false, true, None),
        scored(3, 3, 1, false, false, None),
    ];
    let plan = plan_compression(&s, &[], &no_saturation(), ProblemClass::Lookup, &[]);
    assert_eq!(plan.preserve_verbatim, vec![2]);
    assert!(!plan.compress_light.contains(&2) && !plan.compress_heavy.contains(&2));
}

#[test]
fn plan_contradiction_moves_results() {
    let messages = vec![
        msg("user", "<tool_result>a</tool_result>"),
        msg("user", "plain"),
    ];
    let s = vec![scored(0, 0, 0, false, true, None), scored(1, 0, 0, false, false, None)];
    let plan = plan_compression(&s, &[], &no_saturation(), ProblemClass::Contradiction, &messages);
    assert_eq!(plan.compress_light, vec![0]);
    assert_eq!(plan.compress_heavy, vec![1]);
}

// ── Compaction input and summary ─────────────────────────────────────

#[test]
fn compaction_input_sections() {
    let messages = vec![
        msg("user", "  preserved text  "),
        msg("assistant", "light one"),
        msg("user", "oops\n  An ERROR here  \n<tool_error>x</tool_error>"),
        msg("assistant", "\n   \nfirst real line\nsecond"),
    ];
    let plan = CompressionPlan {
        preserve_verbatim: vec![0, 9],
        compress_light: vec![1],
        compress_heavy: vec![2, 3],
        summariser_system: String::new(),
        summariser_instruction: String::new(),
        target_bullets: 5,
    };
    let (text, preserved) = build_compaction_input(&plan, &messages);
    assert_eq!(preserved, "- preserved text\n");
    assert_eq!(
        text,
        "[Messages to compress — preserve causal connections]\n[assistant]: light one\n\n[Messages to compress aggressively — type/outcome only]\n[error]: An ERROR here\n[assistant]: first real line\n"
    );
}

#[test]
fn compaction_input_truncates() {
    let long = "x".repeat(500);
    let messages = vec![msg("user", &long), msg("user", "  \n  ")];
    let plan = CompressionPlan {
        preserve_verbatim: vec![0],
        compress_light: vec![],
        compress_heavy: vec![0, 1],
        summariser_system: String::new(),
        summariser_instruction: String::new(),
        target_bullets: 5,
    };
    let (text, preserved) = build_compaction_input(&plan, &messages);
    assert_eq!(preserved, format!("- {}\n", "x".repeat(400)));
    assert_eq!(
        text,
        format!(
            "[Messages to compress — preserve causal connections]\n\n[Messages to compress aggressively — type/outcome only]\n[user]: {}\n[user]: (empty)\n",
            "x".repeat(80)
        )
    );
}

#[test]
fn summary_assembly() {
    let s = assemble_summary("  - a\n- b \n", "- kept\n", ProblemClass::MultiHop);
    assert_eq!(
        s,
        "[Prior investigation summary (multi-hop)]\n\nKey findings (preserved):\n- kept\n\n\nCompressed context:\n- a\n- b\n\nContinue from here. Use what you learned above."
    );
    let s = assemble_summary("   ", "", ProblemClass::Temporal);
    assert_eq!(
        s,
        "[Prior investigation summary (temporal)]\n\nContinue from here. Use what you learned above."
    );
}

#[test]
fn plan_keeps_every_message_once() {
    let k = key;
    let s = vec![
        scored(4, k(2.0), 3, false, true, None),
        scored(5, k(0.5), 1, false, false, Some(4)),
        scored(6, k(7.0), 0, true, false, None),
        scored(7, k(0.0), 0, false, true, None),
        scored(8, k(3.5), 4, false, false, None),
    ];
    let chains = detect_chains(&s);
    for class in [
        ProblemClass::Lookup,
        ProblemClass::MultiHop,
        ProblemClass::Exploratory,
        ProblemClass::Aggregation,
        ProblemClass::Contradiction,
        ProblemClass::Temporal,
    ] {
        let plan = plan_compression(&s, &chains, &no_saturation(), class, &[]);
        let mut all: Vec<usize> = plan.preserve_verbatim.clone();
        all.extend(&plan.compress_light);
        all.extend(&plan.compress_heavy);
        all.sort();
        assert_eq!(all, vec![4, 5, 6, 7, 8], "{:?}", class);
    }
}

#[test]
fn plan_chain_member_kept_light() {
    let k = key;
    let s = vec![
        scored(0, k(5.0), 1, false, true, None),
        scored(1, k(0.0), 1, false, false, Some(0)),
        scored(2, k(6.0), 1, false, false, None),
    ];
    let chains = detect_chains(&s);
    let plan = plan_compression(&s, &chains, &no_saturation(), ProblemClass::MultiHop, &[]);
    assert!(plan.compress_light.contains(&1));
    assert!(!plan.compress_heavy.contains(&1));
}

#[test]
fn compacted_context_keeps_question_summary_and_recent() {
    let messages = vec![
        msg("user", "question"),
        msg("assistant", "a"),
        msg("user", "b"),
        msg("assistant", "c"),
    ];
    let ctx = compacted_context(&messages, "summary".to_string(), 2);
    let pairs: Vec<(&str, &str)> = ctx.iter().map(|m| (m.role.as_str(), m.content.as_str())).collect();
    assert_eq!(pairs, vec![("user", "question"), ("user", "summary"), ("user", "b"), ("assistant", "c")]);
    // More recent messages asked for than there are: all of them.
    let ctx = compacted_context(&messages[..2], "s".to_string(), 5);
    let pairs: Vec<(&str, &str)> = ctx.iter().map(|m| (m.role.as_str(), m.content.as_str())).collect();
    assert_eq!(pairs, vec![("user", "question"), ("user", "s"), ("user", "question"), ("assistant", "a")]);
}

#[test]
fn v1_context_wraps_the_summary() {
    let messages = vec![msg("user", "question"), msg("assistant", "a")];
    let recent = vec![msg("assistant", "r")];
    let ctx = v1_context(&messages, "S", &recent);
    let pairs: Vec<(&str, &str)> = ctx.iter().map(|m| (m.role.as_str(), m.content.as_str())).collect();
    assert_eq!(
        pairs,
        vec![
            ("user", "question"),
            ("user", "[Prior investigation summary]\nS\n\nContinue from here."),
            ("assistant", "r"),
        ]
    );
}

#[test]
fn signals_do_not_depend_on_earlier_messages() {
    let messages = vec![
        msg("user", "How many wells in 2024?"),
        msg("assistant", "The table has 123456 rows because of 2024"),
        msg("user", "<tool_result>schema field</tool_result>"),
        msg("assistant", "then the well count is 42 in 2025"),
        msg("user", "ok"),
    ];
    let q = &messages[0].content;
    let whole = message_signals(&messages, 1..5, q);
    let tail = message_signals(&messages, 3..5, q);
    assert_eq!(whole[2], tail[0]);
    assert_eq!(whole[3], tail[1]);
    // Adding a later message only adds decay to earlier ones.
    let shorter = message_signals(&messages, 1..4, q);
    for k in 0..3 {
        let (a, b) = (shorter[k].decay, whole[k].decay);
        assert!(b.data >= a.data && b.causal >= a.causal && b.temporal >= a.temporal);
        assert!(b.entity >= a.entity && b.structure >= a.structure);
        assert!(b.task_reference >= a.task_reference);
    }
}

#[test]
fn chains_keep_every_dependency() {
    // 1 ← 2 ← 3 form a chain; 4 also depends on 2, which already has a successor.
    let s = vec![
        scored(1, 0, 1, false, true, None),
        scored(2, 0, 1, false, true, Some(1)),
        scored(3, 0, 1, false, false, Some(2)),
        scored(4, 0, 1, false, false, Some(2)),
    ];
    let chains = detect_chains(&s);
    assert_eq!(chains.len(), 1);
    assert_eq!(chains[0].indices, vec![1, 2, 3]);
}

#[test]
fn recent_messages_never_reach_the_summariser() {
    let base = vec![
        msg("user", "What changed in the pump table?"),
        msg("user", "<tool_result>pump table: 123456 rows</tool_result>"),
        msg("assistant", "The table grew because of 2025 imports"),
        msg("user", "<tool_error>timeout</tool_error>"),
        msg("assistant", "recent one"),
        msg("user", "recent two"),
    ];
    let mut other = base.clone();
    other[4] = msg("assistant", "something else entirely, 999999");
    other[5] = msg("user", "and more");
    let keys = vec![key(2.0), key(5.0), key(0.5)];
    let a = analyze(&base, 0, 2, &keys);
    let b = analyze(&other, 0, 2, &keys);
    assert_eq!(a.problem_class, b.problem_class);
    assert_eq!(a.text_for_summariser, b.text_for_summariser);
    assert_eq!(a.preserved_text, b.preserved_text);
    assert_eq!(a.summariser_instruction, b.summariser_instruction);
    assert_eq!(a.stats.total_messages, b.stats.total_messages);
    assert_eq!(a.stats.median_influence_key, b.stats.median_influence_key);
    assert!(!a.text_for_summariser.contains("recent"));
}
