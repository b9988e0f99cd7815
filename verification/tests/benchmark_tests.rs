use measured_forgetting::benchmark::{merge_reps, model_listed, BenchmarkResults};

fn run(model: &str, scores: &[u32]) -> BenchmarkResults<u32> {
    BenchmarkResults { model: model.to_string(), scores: scores.to_vec() }
}

#[test]
fn merge_single_run_is_that_run() {
    let merged = merge_reps(&[run("qwen3:8b-run", &[3, 1, 2])], "qwen3:8b");
    assert_eq!(merged.model, "qwen3:8b-run");
    assert_eq!(merged.scores, vec![3, 1, 2]);
}

#[test]
fn merge_many_runs_takes_first_scores_and_given_name() {
    let reps = [run("a", &[1, 2]), run("b", &[3, 3]), run("c", &[0, 0])];
    let merged = merge_reps(&reps, "mistral:7b");
    assert_eq!(merged.model, "mistral:7b");
    assert_eq!(merged.scores, vec![1, 2]);
}

#[test]
fn model_listed_by_name_or_slashed_name() {
    let body = r#"{"models":[{"name":"qwen3/8b"},{"name":"mistral:7b"}]}"#;
    assert!(model_listed(body, "mistral:7b"));
    assert!(model_listed(body, "qwen3:8b"));
    assert!(!model_listed(body, "gemma3:9b"));
    assert!(!model_listed("", "a:b"));
}
