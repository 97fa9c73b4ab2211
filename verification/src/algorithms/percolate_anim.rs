//! Conversions between node numbers of different widths, and the steps at which the frames
//! of a slowing percolation animation are drawn.
use vstd::prelude::*;

verus! {

/// `val` as a `u32`; it must fit.
pub fn from_usize_32(val: usize) -> (r: u32)
    requires
        val <= u32::MAX,
    ensures
        r == val,
{
    val as u32
}

/// `val` as a `u16`; it must fit.
pub fn from_usize_16(val: usize) -> (r: u16)
    requires
        val <= u16::MAX,
    ensures
        r == val,
{
    val as u16
}

/// The sum of the values.
pub open spec fn total(s: Seq<usize>) -> int
    decreases s.len(),
{
    if s.len() == 0 {
        0
    } else {
        total(s.drop_last()) + s.last()
    }
}

/// The steps of each frame, last frame first: `leading` holds the steps of every frame but the
/// last, first frame first, and the last frame takes what is left of `render_step_count`.
pub open spec fn frame_counts(leading: Seq<usize>, render_step_count: int) -> Seq<int> {
    Seq::new(
        leading.len() + 1,
        |k: int|
            if k == 0 {
                render_step_count - total(leading)
            } else {
                leading[leading.len() - k] as int
            },
    )
}

/// The sum of the first `k` values.
pub open spec fn prefix_sum(s: Seq<int>, k: int) -> int
    decreases k,
{
    if k <= 0 {
        0
    } else {
        prefix_sum(s, k - 1) + s[k - 1]
    }
}

proof fn lemma_total_take(s: Seq<usize>, k: int)
    requires
        0 <= k < s.len(),
    ensures
        total(s.take(k + 1)) == total(s.take(k)) + s[k],
        0 <= total(s.take(k)),
{
    assert(s.take(k + 1).drop_last() =~= s.take(k));
    lemma_total_nonneg(s.take(k));
}

proof fn lemma_total_nonneg(s: Seq<usize>)
    ensures
        0 <= total(s),
    decreases s.len(),
{
    if s.len() > 0 {
        lemma_total_nonneg(s.drop_last());
    }
}

/// The counts of the first `k` frames, last frame first, add up to what the frames after them
/// leave of the whole.
proof fn lemma_prefix_bound(leading: Seq<usize>, render_step_count: int, k: int)
    requires
        1 <= k <= leading.len() + 1,
    ensures
        prefix_sum(frame_counts(leading, render_step_count), k) == render_step_count - total(
            leading.take(leading.len() + 1 - k),
        ),
    decreases k,
{
    let n = leading.len() as int;
    let counts = frame_counts(leading, render_step_count);
    if k == 1 {
        assert(leading.take(n) =~= leading);
        assert(prefix_sum(counts, 1) == prefix_sum(counts, 0) + counts[0]);
    } else {
        lemma_prefix_bound(leading, render_step_count, k - 1);
        lemma_total_take(leading, n + 1 - k);
        assert(prefix_sum(counts, k) == prefix_sum(counts, k - 1) + counts[k - 1]);
    }
}

/// The step at which each frame is drawn, last frame first: the first at `start_render_step`
/// plus the steps of the last frame, less one, and each next one the steps of the next frame
/// further on. `leading` holds the steps of every frame but the last, first frame first; the
/// last frame takes what is left of `render_step_count`.
pub fn frame_steps(leading: &Vec<usize>, render_step_count: usize, start_render_step: usize) -> (steps: Vec<usize>)
    requires
        total(leading@) < render_step_count,
        start_render_step + render_step_count - 1 <= usize::MAX,
    ensures
        steps@.len() == leading@.len() + 1,
        forall|k: int|
            0 <= k < steps@.len() ==> #[trigger] steps@[k] == start_render_step + prefix_sum(
                frame_counts(leading@, render_step_count as int),
                k + 1,
            ) - 1,
        steps@[leading@.len() as int] == start_render_step + render_step_count - 1,
{
    let ghost counts = frame_counts(leading@, render_step_count as int);
    let ghost n = leading@.len() as int;
    let mut sum: usize = 0;
    for i in 0..leading.len()
        invariant
            sum == total(leading@.take(i as int)),
            total(leading@) < render_step_count,
    {
        proof {
            lemma_total_take(leading@, i as int);
            lemma_prefix_total(leading@, i + 1);
        }
        sum = sum + leading[i];
    }
    proof {
        assert(leading@.take(n) =~= leading@);
    }
    let last = render_step_count - sum;
    let mut this_index: usize = start_render_step + (last - 1);
    let mut steps: Vec<usize> = Vec::new();
    steps.push(this_index);
    proof {
        lemma_prefix_bound(leading@, render_step_count as int, 1);
        assert(leading@.take(n) =~= leading@);
    }
    for j in 0..leading.len()
        invariant
            counts == frame_counts(leading@, render_step_count as int),
            n == leading@.len(),
            total(leading@) < render_step_count,
            start_render_step + render_step_count - 1 <= usize::MAX,
            steps@.len() == j + 1,
            this_index == start_render_step + prefix_sum(counts, j + 1) - 1,
            forall|i: int| 0 <= i <= j ==> #[trigger] steps@[i] == start_render_step + prefix_sum(counts, i + 1) - 1,
    {
        proof {
            lemma_prefix_bound(leading@, render_step_count as int, j + 2);
            lemma_prefix_bound(leading@, render_step_count as int, j + 1);
            lemma_total_nonneg(leading@.take(n - j - 1));
            assert(counts[j + 1] == leading@[n - j - 1]);
            assert(prefix_sum(counts, j + 2) == prefix_sum(counts, j + 1) + counts[j + 1]);
        }
        this_index = this_index + leading[leading.len() - 1 - j];
        steps.push(this_index);
    }
    proof {
        lemma_prefix_bound(leading@, render_step_count as int, n + 1);
        assert(leading@.take(0) =~= Seq::<usize>::empty());
    }
    steps
}

/// A part adds no more than the whole.
proof fn lemma_prefix_total(s: Seq<usize>, k: int)
    requires
        0 <= k <= s.len(),
    ensures
        total(s.take(k)) <= total(s),
    decreases s.len() - k,
{
    if k < s.len() {
        lemma_prefix_total(s, k + 1);
        lemma_total_take(s, k);
    } else {
        assert(s.take(k) =~= s);
    }
}

/// A replay of `step_count` steps draws a frame at step `k` when it is the last step, or when
/// it is at or past `start_render_step` and falls on a multiple of `steps_per_frame` (every
/// step when that is zero).
pub open spec fn renders_step(k: int, step_count: int, start_render_step: int, steps_per_frame: int) -> bool {
    ||| k == step_count - 1
    ||| (k >= start_render_step && (steps_per_frame == 0 || k % steps_per_frame == 0))
}

/// The steps, in order, at which a replay of `step_count` steps draws its frames.
pub fn rule_frame_steps(step_count: usize, start_render_step: usize, steps_per_frame: usize) -> (steps: Vec<usize>)
    ensures
        forall|i: int, j: int| 0 <= i < j < steps@.len() ==> #[trigger] steps@[i] < #[trigger] steps@[j],
        forall|i: int| 0 <= i < steps@.len() ==> #[trigger] steps@[i] < step_count && renders_step(
            steps@[i] as int,
            step_count as int,
            start_render_step as int,
            steps_per_frame as int,
        ),
        forall|k: int|
            0 <= k < step_count && renders_step(k, step_count as int, start_render_step as int, steps_per_frame as int)
                ==> #[trigger] steps@.contains(k as usize),
{
    let mut steps: Vec<usize> = Vec::new();
    for k in 0..step_count
        invariant
            forall|i: int, j: int| 0 <= i < j < steps@.len() ==> #[trigger] steps@[i] < #[trigger] steps@[j],
            forall|i: int| 0 <= i < steps@.len() ==> #[trigger] steps@[i] < k && renders_step(
                steps@[i] as int,
                step_count as int,
                start_render_step as int,
                steps_per_frame as int,
            ),
            forall|m: int|
                0 <= m < k && renders_step(m, step_count as int, start_render_step as int, steps_per_frame as int)
                    ==> #[trigger] steps@.contains(m as usize),
    {
        let is_last_frame = k == step_count - 1;
        if is_last_frame || (k >= start_render_step && (steps_per_frame == 0 || k % steps_per_frame == 0)) {
            let ghost before = steps@;
            steps.push(k);
            proof {
                assert(steps@[before.len() as int] == k);
                assert forall|m: int|
                    0 <= m < k + 1 && renders_step(m, step_count as int, start_render_step as int, steps_per_frame as int)
                        implies #[trigger] steps@.contains(m as usize) by {
                    if m < k {
                        assert(before.contains(m as usize));
                        let i = choose|i: int| 0 <= i < before.len() && before[i] == m as usize;
                        assert(steps@[i] == m as usize);
                    } else {
                        assert(steps@[before.len() as int] == m as usize);
                    }
                }
            }
        }
    }
    steps
}

/// The frames drawn so far in a replay of `step_count` steps that draws at the steps of
/// `listed` in turn: at step `k` a frame is drawn when it is the last step or the step the
/// next listed entry names; once every entry has drawn a frame the last entry stays the next.
pub open spec fn listed_run(step_count: int, listed: Seq<usize>, m: int) -> Seq<int>
    decreases m,
{
    if m <= 0 {
        Seq::empty()
    } else {
        let prev = listed_run(step_count, listed, m - 1);
        let k = m - 1;
        let next = if prev.len() < listed.len() {
            listed[prev.len() as int] as int
        } else {
            listed[listed.len() - 1] as int
        };
        if k == step_count - 1 || k == next {
            prev.push(k)
        } else {
            prev
        }
    }
}

proof fn lemma_listed_run_bounds(step_count: int, listed: Seq<usize>, m: int)
    requires
        0 <= m,
    ensures
        listed_run(step_count, listed, m).len() <= m,
        forall|i: int| 0 <= i < listed_run(step_count, listed, m).len() ==> 0 <= #[trigger] listed_run(step_count, listed, m)[i] < m,
        forall|i: int, j: int|
            0 <= i < j < listed_run(step_count, listed, m).len() ==> #[trigger] listed_run(step_count, listed, m)[i]
                < #[trigger] listed_run(step_count, listed, m)[j],
    decreases m,
{
    if m > 0 {
        lemma_listed_run_bounds(step_count, listed, m - 1);
    }
}

/// The steps at which a replay of `step_count` steps draws its frames when it draws at the
/// steps of `listed` in turn, and at the last step.
pub fn listed_frame_steps(step_count: usize, listed: &Vec<usize>) -> (steps: Vec<usize>)
    requires
        listed@.len() >= 1,
    ensures
        steps@.map_values(|k: usize| k as int) == listed_run(step_count as int, listed@, step_count as int),
        forall|i: int, j: int| 0 <= i < j < steps@.len() ==> #[trigger] steps@[i] < #[trigger] steps@[j],
        forall|i: int| 0 <= i < steps@.len() ==> #[trigger] steps@[i] < step_count,
{
    let mut steps: Vec<usize> = Vec::new();
    let mut next_frame_step = listed[0];
    for k in 0..step_count
        invariant
            listed@.len() >= 1,
            steps@.map_values(|s: usize| s as int) == listed_run(step_count as int, listed@, k as int),
            next_frame_step as int == if steps@.len() < listed@.len() {
                listed@[steps@.len() as int] as int
            } else {
                listed@[listed@.len() - 1] as int
            },
    {
        let ghost before = steps@;
        proof {
            lemma_listed_run_bounds(step_count as int, listed@, k as int);
        }
        if k == step_count - 1 || k == next_frame_step {
            steps.push(k);
            if steps.len() < listed.len() {
                next_frame_step = listed[steps.len()];
            } else {
                proof {
                    if before.len() < listed@.len() {
                        assert(before.len() == listed@.len() - 1);
                    }
                }
            }
            proof {
                assert(steps@.map_values(|s: usize| s as int) =~= before.map_values(|s: usize| s as int).push(k as int));
            }
        }
    }
    proof {
        lemma_listed_run_bounds(step_count as int, listed@, step_count as int);
        let r = listed_run(step_count as int, listed@, step_count as int);
        assert forall|i: int| 0 <= i < steps@.len() implies #[trigger] steps@[i] < step_count by {
            assert(steps@.map_values(|s: usize| s as int)[i] == r[i]);
        }
        assert forall|i: int, j: int| 0 <= i < j < steps@.len() implies #[trigger] steps@[i] < #[trigger] steps@[j] by {
            assert(steps@.map_values(|s: usize| s as int)[i] == r[i]);
            assert(steps@.map_values(|s: usize| s as int)[j] == r[j]);
        }
    }
    steps
}

} // verus!
