use vstd::prelude::*;

verus! {

/// One step of feeding sequences of different lengths through the model in
/// a batch: the sequences still unfinished (by index, in order), where each
/// of them stands, and how many tokens each of them takes in this step.
pub struct BatchStep {
    pub active: Vec<usize>,
    pub starts: Vec<usize>,
    pub step: usize,
}

/// Sequence `i` is listed in `active`.
pub open spec fn is_active(active: Seq<usize>, i: int) -> bool {
    exists|k: int| 0 <= k < active.len() && #[trigger] active[k] as int == i
}

/// All lengths are equal.
pub open spec fn same_lengths(lengths: Seq<usize>) -> bool {
    forall|i: int, j: int| 0 <= i < lengths.len() && 0 <= j < lengths.len() ==> lengths[i] == lengths[j]
}

/// Sequence `i` has tokens left at position `pos[i]`.
pub open spec fn unfinished(lengths: Seq<usize>, pos: Seq<usize>, i: int) -> bool {
    pos[i] < lengths[i]
}

/// `(active, starts, step)` is the step taken at positions `pos`: `active`
/// lists, in increasing order, exactly the unfinished sequences; `starts` gives
/// their positions; `step` is the least number of tokens any of them has left.
pub open spec fn is_step_for(
    lengths: Seq<usize>,
    pos: Seq<usize>,
    active: Seq<usize>,
    starts: Seq<usize>,
    step: int,
) -> bool {
    &&& active.len() > 0
    &&& forall|k1: int, k2: int| 0 <= k1 < k2 < active.len() ==> active[k1] < active[k2]
    &&& forall|k: int|
        0 <= k < active.len() ==> #[trigger] active[k] < lengths.len() && unfinished(lengths, pos, active[k] as int)
    &&& forall|i: int| 0 <= i < lengths.len() && #[trigger] unfinished(lengths, pos, i) ==> is_active(active, i)
    &&& starts.len() == active.len()
    &&& forall|k: int| 0 <= k < active.len() ==> #[trigger] starts[k] == pos[active[k] as int]
    &&& forall|k: int| 0 <= k < active.len() ==> step <= lengths[#[trigger] active[k] as int] - pos[active[k] as int]
    &&& exists|k: int| 0 <= k < active.len() && step == lengths[#[trigger] active[k] as int] - pos[active[k] as int]
}

/// No sequence has tokens left.
pub open spec fn all_finished(lengths: Seq<usize>, pos: Seq<usize>) -> bool {
    forall|i: int| 0 <= i < lengths.len() ==> !#[trigger] unfinished(lengths, pos, i)
}

/// The positions after every sequence in `active` moves on by `step`.
pub open spec fn advanced(pos: Seq<usize>, active: Seq<usize>, step: int) -> Seq<usize> {
    Seq::new(pos.len(), |i: int| if is_active(active, i) { (pos[i] + step) as usize } else { pos[i] })
}

/// The positions of `n` sequences after the first `t` of `steps`, starting
/// at position 0.
pub open spec fn positions_after(n: nat, steps: Seq<BatchStep>, t: int) -> Seq<usize>
    decreases t,
{
    if t <= 0 {
        Seq::new(n, |i: int| 0usize)
    } else {
        advanced(positions_after(n, steps, t - 1), steps[t - 1].active@, steps[t - 1].step as int)
    }
}

/// How many of the first `k` sequences are unfinished.
pub open spec fn count_unfinished(lengths: Seq<usize>, pos: Seq<usize>, k: int) -> nat
    decreases k,
{
    if k <= 0 {
        0
    } else if unfinished(lengths, pos, k - 1) {
        count_unfinished(lengths, pos, k - 1) + 1
    } else {
        count_unfinished(lengths, pos, k - 1)
    }
}

/// Where no sequence becomes unfinished and sequence `j` becomes finished,
/// fewer sequences are unfinished.
proof fn lemma_count_decreases(lengths: Seq<usize>, p1: Seq<usize>, p2: Seq<usize>, k: int, j: int)
    requires
        forall|i: int| 0 <= i < k && unfinished(lengths, p2, i) ==> unfinished(lengths, p1, i),
    ensures
        count_unfinished(lengths, p2, k) <= count_unfinished(lengths, p1, k),
        0 <= j < k && unfinished(lengths, p1, j) && !unfinished(lengths, p2, j) ==> count_unfinished(
            lengths,
            p2,
            k,
        ) < count_unfinished(lengths, p1, k),
    decreases k,
{
    if k > 0 {
        lemma_count_decreases(lengths, p1, p2, k - 1, j);
    }
}

/// At most `k` of the first `k` sequences are unfinished.
proof fn lemma_count_bound(lengths: Seq<usize>, pos: Seq<usize>, k: int)
    ensures
        count_unfinished(lengths, pos, k) <= if k < 0 { 0 } else { k },
        count_unfinished(lengths, pos, k) == 0 ==> forall|i: int| 0 <= i < k ==> !unfinished(lengths, pos, i),
    decreases k,
{
    if k > 0 {
        lemma_count_bound(lengths, pos, k - 1);
    }
}

/// Whether all sequences have the same length.
pub fn all_same_length(lengths: &[usize]) -> (res: bool)
    ensures
        res == same_lengths(lengths@),
{
    let mut i: usize = 0;
    while i < lengths.len()
        invariant
            i <= lengths@.len(),
            forall|j: int| 0 <= j < i ==> #[trigger] lengths@[j] == lengths@[0],
        decreases lengths@.len() - i,
    {
        if lengths[i] != lengths[0] {
            return false;
        }
        i = i + 1;
    }
    true
}

/// The step to take at positions `pos`, or `None` where every sequence is
/// finished.
pub fn next_batch_step(lengths: &[usize], pos: &[usize]) -> (res: Option<BatchStep>)
    requires
        pos@.len() == lengths@.len(),
    ensures
        match res {
            Some(s) => is_step_for(lengths@, pos@, s.active@, s.starts@, s.step as int),
            None => all_finished(lengths@, pos@),
        },
{
    let mut active: Vec<usize> = Vec::new();
    let mut starts: Vec<usize> = Vec::new();
    let mut step: usize = 0;
    let mut i: usize = 0;
    while i < lengths.len()
        invariant
            pos@.len() == lengths@.len(),
            i <= lengths@.len(),
            starts@.len() == active@.len(),
            forall|k1: int, k2: int| 0 <= k1 < k2 < active@.len() ==> active@[k1] < active@[k2],
            forall|k: int| 0 <= k < active@.len() ==> #[trigger] active@[k] < i && unfinished(lengths@, pos@, active@[k] as int),
            forall|j: int| 0 <= j < i && #[trigger] unfinished(lengths@, pos@, j) ==> is_active(active@, j),
            forall|k: int| 0 <= k < active@.len() ==> #[trigger] starts@[k] == pos@[active@[k] as int],
            forall|k: int| 0 <= k < active@.len() ==> step <= lengths@[#[trigger] active@[k] as int] - pos@[active@[k] as int],
            active@.len() > 0 ==> exists|k: int| 0 <= k < active@.len() && step == lengths@[#[trigger] active@[k] as int] - pos@[active@[k] as int],
        decreases lengths@.len() - i,
    {
        if pos[i] < lengths[i] {
            let left = lengths[i] - pos[i];
            let ghost old_active = active@;
            if active.len() == 0 || left < step {
                step = left;
            }
            active.push(i);
            starts.push(pos[i]);
            proof {
                assert(active@[active@.len() - 1] == i);
                assert forall|j: int| 0 <= j < i + 1 && #[trigger] unfinished(lengths@, pos@, j) implies is_active(active@, j) by {
                    if j < i {
                        let k = choose|k: int| 0 <= k < old_active.len() && #[trigger] old_active[k] as int == j;
                        assert(active@[k] == j as usize);
                    } else {
                        assert(active@[active@.len() - 1] == j as usize);
                    }
                }
                if old_active.len() > 0 && step != left {
                    let k = choose|k: int| 0 <= k < old_active.len() && step == lengths@[#[trigger] old_active[k] as int] - pos@[old_active[k] as int];
                    assert(active@[k] == old_active[k]);
                } else {
                    assert(active@[active@.len() - 1] == i);
                }
            }
        }
        i = i + 1;
    }
    if active.len() == 0 {
        proof {
            assert forall|j: int| 0 <= j < lengths@.len() implies !#[trigger] unfinished(lengths@, pos@, j) by {
                if unfinished(lengths@, pos@, j) {
                    assert(is_active(active@, j));
                }
            }
        }
        None
    } else {
        Some(BatchStep { active, starts, step })
    }
}

/// Moves every sequence of `s` on by `s.step` tokens.
pub fn advance_positions(pos: &mut Vec<usize>, lengths: &[usize], s: &BatchStep)
    requires
        old(pos)@.len() == lengths@.len(),
        is_step_for(lengths@, old(pos)@, s.active@, s.starts@, s.step as int),
    ensures
        final(pos)@ == advanced(old(pos)@, s.active@, s.step as int),
{
    let ghost p0 = pos@;
    let n = pos.len();
    let mut k: usize = 0;
    while k < s.active.len()
        invariant
            p0.len() == n,
            is_step_for(lengths@, p0, s.active@, s.starts@, s.step as int),
            p0.len() == lengths@.len(),
            pos@.len() == p0.len(),
            k <= s.active@.len(),
            forall|i: int| 0 <= i < p0.len() ==> #[trigger] pos@[i] == if is_active(s.active@.subrange(0, k as int), i) {
                (p0[i] + s.step) as usize
            } else {
                p0[i]
            },
        decreases s.active@.len() - k,
    {
        let i = s.active[k];
        assert(s.active@[k as int] < lengths@.len());
        assert(s.step <= lengths@[i as int] - p0[i as int]);
        proof {
            assert(!is_active(s.active@.subrange(0, k as int), i as int)) by {
                if is_active(s.active@.subrange(0, k as int), i as int) {
                    let k2 = choose|k2: int| 0 <= k2 < k && #[trigger] s.active@.subrange(0, k as int)[k2] as int == i as int;
                    assert(s.active@[k2] < s.active@[k as int]);
                }
            }
        }
        let v = pos[i] + s.step;
        pos.set(i, v);
        proof {
            assert forall|j: int| 0 <= j < p0.len() implies #[trigger] pos@[j] == if is_active(s.active@.subrange(0, k + 1), j) {
                (p0[j] + s.step) as usize
            } else {
                p0[j]
            } by {
                let s1 = s.active@.subrange(0, k as int);
                let s2 = s.active@.subrange(0, k + 1);
                if is_active(s2, j) && j != i as int {
                    let k2 = choose|k2: int| 0 <= k2 < k + 1 && #[trigger] s2[k2] as int == j;
                    assert(s2[k2] == s.active@[k2]);
                    assert(s2[k as int] == i);
                    assert(k2 != k as int);
                    assert(s1[k2] == s.active@[k2]);
                    assert(is_active(s1, j));
                }
                if is_active(s1, j) {
                    let k2 = choose|k2: int| 0 <= k2 < k && #[trigger] s1[k2] as int == j;
                    assert(s1[k2] == s.active@[k2]);
                    assert(s2[k2] == s.active@[k2]);
                    assert(is_active(s2, j));
                }
                if j == i as int {
                    assert(s2[k as int] == i);
                    assert(is_active(s2, j));
                }
            }
        }
        k = k + 1;
    }
    proof {
        assert(s.active@.subrange(0, k as int) =~= s.active@);
        assert(pos@ =~= advanced(p0, s.active@, s.step as int));
    }
}

/// The whole schedule for sequences of the given lengths, all starting at
/// position 0: step after step, until every sequence is finished.
pub fn plan_batch(lengths: &[usize]) -> (res: Vec<BatchStep>)
    ensures
        forall|t: int|
            0 <= t < res@.len() ==> is_step_for(
                lengths@,
                positions_after(lengths@.len(), res@, t),
                #[trigger] res@[t].active@,
                res@[t].starts@,
                res@[t].step as int,
            ),
        all_finished(lengths@, positions_after(lengths@.len(), res@, res@.len() as int)),
{
    let n = lengths.len();
    let mut pos: Vec<usize> = Vec::new();
    let mut i: usize = 0;
    while i < n
        invariant
            i <= n,
            n == lengths@.len(),
            pos@.len() == i,
            forall|j: int| 0 <= j < i ==> pos@[j] == 0usize,
        decreases n - i,
    {
        pos.push(0);
        i = i + 1;
    }
    let mut steps: Vec<BatchStep> = Vec::new();
    proof {
        assert(pos@ =~= positions_after(n as nat, steps@, 0));
        lemma_count_bound(lengths@, pos@, n as int);
    }
    loop
        invariant
            n == lengths@.len(),
            pos@.len() == n,
            pos@ == positions_after(n as nat, steps@, steps@.len() as int),
            forall|t: int|
                0 <= t < steps@.len() ==> is_step_for(
                    lengths@,
                    positions_after(n as nat, steps@, t),
                    #[trigger] steps@[t].active@,
                    steps@[t].starts@,
                    steps@[t].step as int,
                ),
        decreases count_unfinished(lengths@, pos@, n as int),
    {
        match next_batch_step(lengths, pos.as_slice()) {
            None => {
                return steps;
            },
            Some(s) => {
                let ghost before = pos@;
                let ghost old_steps = steps@;
                advance_positions(&mut pos, lengths, &s);
                proof {
                    let k = choose|k: int| 0 <= k < s.active@.len() && s.step == lengths@[#[trigger] s.active@[k] as int] - before[s.active@[k] as int];
                    let j = s.active@[k] as int;
                    assert(is_active(s.active@, j));
                    assert forall|m: int| 0 <= m < n && unfinished(lengths@, pos@, m) implies unfinished(lengths@, before, m) by {
                        if is_active(s.active@, m) {
                            let k2 = choose|k2: int| 0 <= k2 < s.active@.len() && #[trigger] s.active@[k2] as int == m;
                            assert(unfinished(lengths@, before, s.active@[k2] as int));
                        }
                    }
                    lemma_count_decreases(lengths@, before, pos@, n as int, j);
                }
                steps.push(s);
                proof {
                    assert forall|t: int| 0 <= t <= old_steps.len() implies positions_after(n as nat, steps@, t)
                        == positions_after(n as nat, old_steps, t) by {
                        lemma_positions_prefix(n as nat, old_steps, steps@, t);
                    }
                    assert(positions_after(n as nat, steps@, steps@.len() as int) == advanced(
                        positions_after(n as nat, steps@, old_steps.len() as int),
                        s.active@,
                        s.step as int,
                    ));
                    assert forall|t: int| 0 <= t < steps@.len() implies is_step_for(
                        lengths@,
                        positions_after(n as nat, steps@, t),
                        #[trigger] steps@[t].active@,
                        steps@[t].starts@,
                        steps@[t].step as int,
                    ) by {
                        if t < old_steps.len() {
                            assert(steps@[t] == old_steps[t]);
                        }
                    }
                }
            },
        }
    }
}

/// The positions after the first `t` steps depend only on those steps.
proof fn lemma_positions_prefix(n: nat, a: Seq<BatchStep>, b: Seq<BatchStep>, t: int)
    requires
        0 <= t <= a.len(),
        a.len() <= b.len(),
        forall|k: int| 0 <= k < a.len() ==> a[k] == b[k],
    ensures
        positions_after(n, b, t) == positions_after(n, a, t),
    decreases t,
{
    if t > 0 {
        lemma_positions_prefix(n, a, b, t - 1);
        assert(a[t - 1] == b[t - 1]);
    }
}

/// No position runs past its sequence's end during the first `t` steps.
proof fn lemma_positions_bounded(lengths: Seq<usize>, steps: Seq<BatchStep>, t: int)
    requires
        0 <= t <= steps.len(),
        forall|u: int|
            0 <= u < steps.len() ==> is_step_for(
                lengths,
                positions_after(lengths.len(), steps, u),
                #[trigger] steps[u].active@,
                steps[u].starts@,
                steps[u].step as int,
            ),
    ensures
        positions_after(lengths.len(), steps, t).len() == lengths.len(),
        forall|i: int| 0 <= i < lengths.len() ==> #[trigger] positions_after(lengths.len(), steps, t)[i] <= lengths[i],
    decreases t,
{
    if t > 0 {
        lemma_positions_bounded(lengths, steps, t - 1);
        let p = positions_after(lengths.len(), steps, t - 1);
        let st = steps[t - 1];
        assert(is_step_for(lengths, p, st.active@, st.starts@, st.step as int));
        assert forall|i: int| 0 <= i < lengths.len() implies #[trigger] positions_after(lengths.len(), steps, t)[i] <= lengths[i] by {
            if is_active(st.active@, i) {
                let k = choose|k: int| 0 <= k < st.active@.len() && #[trigger] st.active@[k] as int == i;
                assert(st.step <= lengths[st.active@[k] as int] - p[st.active@[k] as int]);
            }
        }
    }
}

/// Law: along a complete schedule, each sequence is fed in consecutive
/// chunks that never run past its end, and at the end every sequence has been
/// fed exactly its whole length.
pub proof fn lemma_schedule_covers(lengths: Seq<usize>, steps: Seq<BatchStep>)
    requires
        forall|t: int|
            0 <= t < steps.len() ==> is_step_for(
                lengths,
                positions_after(lengths.len(), steps, t),
                #[trigger] steps[t].active@,
                steps[t].starts@,
                steps[t].step as int,
            ),
        all_finished(lengths, positions_after(lengths.len(), steps, steps.len() as int)),
    ensures
        forall|t: int, i: int|
            0 <= t <= steps.len() && 0 <= i < lengths.len() ==> #[trigger] positions_after(lengths.len(), steps, t)[i]
                <= lengths[i],
        positions_after(lengths.len(), steps, steps.len() as int) == lengths,
{
    assert forall|t: int, i: int|
        0 <= t <= steps.len() && 0 <= i < lengths.len() implies #[trigger] positions_after(lengths.len(), steps, t)[i]
            <= lengths[i] by {
        lemma_positions_bounded(lengths, steps, t);
    }
    let last = positions_after(lengths.len(), steps, steps.len() as int);
    lemma_positions_bounded(lengths, steps, steps.len() as int);
    assert forall|i: int| 0 <= i < lengths.len() implies last[i] == lengths[i] by {
        assert(!unfinished(lengths, last, i));
    }
    assert(last =~= lengths);
}

} // verus!
