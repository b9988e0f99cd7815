//! Results of benchmark runs, the merging of repeated runs, and whether a
//! model server lists a model.

use vstd::prelude::*;

use crate::text::{chars_of, contains, contains_chars};

verus! {

/// The results of a benchmark run of one model: the model's name and the
/// score of each probe (`S` is the type of a probe's score).
pub struct BenchmarkResults<S> {
    pub model: String,
    pub scores: Vec<S>,
}

/// Merge repeated runs into a single result. A single run is returned as it
/// is; otherwise the result carries the given model name and the first run's
/// scores.
pub fn merge_reps<S: Clone>(reps: &[BenchmarkResults<S>], model: &str) -> (res: BenchmarkResults<S>)
    requires
        reps@.len() >= 1,
    ensures
        res.model@ == (if reps@.len() == 1 {
            reps@[0].model@
        } else {
            model@
        }),
        res.scores@.len() == reps@[0].scores@.len(),
        forall|i: int|
            0 <= i < res.scores@.len() ==> cloned(reps@[0].scores@[i], #[trigger] res.scores@[i]),
{
    let first = &reps[0];
    let scores = first.scores.clone();
    if reps.len() == 1 {
        BenchmarkResults { model: first.model.clone(), scores }
    } else {
        BenchmarkResults { model: model.to_owned(), scores }
    }
}

/// A model name with each ':' written as '/'.
pub open spec fn slashed(model: Seq<char>) -> Seq<char> {
    model.map_values(|c: char| if c == ':' {
        '/'
    } else {
        c
    })
}

/// Whether the model server's list of models, `body`, names `model`: the name
/// occurs in it, or the name with each ':' written as '/'.
pub fn model_listed(body: &str, model: &str) -> (res: bool)
    ensures
        res == (contains(body@, model@) || contains(body@, slashed(model@))),
{
    let b = chars_of(body);
    let m = chars_of(model);
    let mut alt: Vec<char> = Vec::new();
    let mut i: usize = 0;
    while i < m.len()
        invariant
            i <= m.len(),
            m@ == model@,
            alt@ == slashed(model@).take(i as int),
        decreases m.len() - i,
    {
        let c = if m[i] == ':' {
            '/'
        } else {
            m[i]
        };
        alt.push(c);
        i = i + 1;
        assert(alt@ =~= slashed(model@).take(i as int));
    }
    assert(alt@ =~= slashed(model@));
    contains_chars(&b, &m) || contains_chars(&b, &alt)
}

} // verus!
