use vstd::prelude::*;

verus! {

/// The id that ends a generated text.
pub const END_OF_TEXT: i64 = 0;

/// The tokens before the first end-of-text id (all of them where there is
/// none).
pub fn until_end_of_text(tokens: &[i64]) -> (res: Vec<i64>)
    ensures
        res@.len() <= tokens@.len(),
        res@ == tokens@.subrange(0, res@.len() as int),
        forall|i: int| 0 <= i < res@.len() ==> res@[i] != END_OF_TEXT,
        res@.len() < tokens@.len() ==> tokens@[res@.len() as int] == END_OF_TEXT,
{
    let mut out: Vec<i64> = Vec::new();
    let mut i: usize = 0;
    while i < tokens.len() && tokens[i] != END_OF_TEXT
        invariant
            i <= tokens@.len(),
            out@ == tokens@.subrange(0, i as int),
            forall|j: int| 0 <= j < i ==> tokens@[j] != END_OF_TEXT,
        decreases tokens@.len() - i,
    {
        out.push(tokens[i]);
        i = i + 1;
        assert(out@ =~= tokens@.subrange(0, i as int));
    }
    out
}

/// Turns the tokens generated step by step (`steps[t][b]`: the token of
/// sequence `b` at step `t`) into one row per sequence (`res[b][t]`), with
/// `n_seqs` rows of `n_steps` tokens; places that no step fills hold 0.
pub fn tokens_by_sequence(steps: &Vec<Vec<i64>>, n_seqs: usize, n_steps: usize) -> (res: Vec<Vec<i64>>)
    requires
        steps@.len() <= n_steps,
        forall|t: int| 0 <= t < steps@.len() ==> #[trigger] steps@[t]@.len() <= n_seqs,
    ensures
        res@.len() == n_seqs,
        forall|b: int| 0 <= b < n_seqs ==> #[trigger] res@[b]@.len() == n_steps,
        forall|b: int, t: int|
            0 <= b < n_seqs && 0 <= t < n_steps ==> #[trigger] res@[b]@[t] == if t < steps@.len() && b
                < steps@[t]@.len() {
                steps@[t]@[b]
            } else {
                0
            },
{
    let mut res: Vec<Vec<i64>> = Vec::new();
    let mut b: usize = 0;
    while b < n_seqs
        invariant
            b <= n_seqs,
            steps@.len() <= n_steps,
            res@.len() == b,
            forall|b2: int| 0 <= b2 < b ==> #[trigger] res@[b2]@.len() == n_steps,
            forall|b2: int, t: int|
                0 <= b2 < b && 0 <= t < n_steps ==> #[trigger] res@[b2]@[t] == if t < steps@.len() && b2
                    < steps@[t]@.len() {
                    steps@[t]@[b2]
                } else {
                    0
                },
        decreases n_seqs - b,
    {
        let mut row: Vec<i64> = Vec::new();
        let mut t: usize = 0;
        while t < n_steps
            invariant
                t <= n_steps,
                steps@.len() <= n_steps,
                row@.len() == t,
                forall|t2: int| 0 <= t2 < t ==> #[trigger] row@[t2] == if t2 < steps@.len() && b
                    < steps@[t2]@.len() {
                    steps@[t2]@[b as int]
                } else {
                    0
                },
            decreases n_steps - t,
        {
            if t < steps.len() && b < steps[t].len() {
                row.push(steps[t][b]);
            } else {
                row.push(0);
            }
            t = t + 1;
        }
        res.push(row);
        b = b + 1;
    }
    res
}

} // verus!
