use vstd::prelude::*;
use vstd::arithmetic::div_mod::{lemma_fundamental_div_mod, lemma_fundamental_div_mod_converse};
use crate::layout::SessionLayout;

verus! {

/// One filtered spectral bin of the input, and where it lands in the shorter
/// output spectrum: written there when `accumulate` is false, added to what is
/// there when it is true.
#[derive(Debug, Clone, Copy, PartialEq, Eq, Structural)]
pub struct FoldStep {
    pub output_x: usize,
    pub input_x: usize,
    pub accumulate: bool,
}

/// The step that handles input bin `i` when the output spectrum has `m` bins.
pub open spec fn step_for(i: nat, m: nat) -> FoldStep {
    FoldStep { output_x: (i % m) as usize, input_x: i as usize, accumulate: i >= m }
}

/// `steps` visits every input bin of `layout` once, in order, and folds bin `i`
/// onto output bin `i mod output_sample_count`.
pub open spec fn is_fold_schedule(layout: SessionLayout, steps: Seq<FoldStep>) -> bool {
    &&& steps.len() == layout.input_sample_count
    &&& forall|i: int|
        0 <= i < steps.len() ==> #[trigger] steps[i] == step_for(
            i as nat,
            layout.output_sample_count as nat,
        )
}

/// The order in which a query combines the filtered input spectrum into the
/// output spectrum.
///
/// The first `output_sample_count` bins are written directly; when the output
/// is shorter than the input, every further whole block of that many bins, and
/// then the remaining tail, is added onto the output bins from the start.
pub fn fold_schedule(layout: &SessionLayout) -> (r: Vec<FoldStep>)
    requires
        layout.wf(),
    ensures
        is_fold_schedule(*layout, r@),
{
    proof {
        layout.lemma_output_fits();
    }
    let m = layout.output_sample_count;
    let n = layout.input_sample_count;
    let mut steps: Vec<FoldStep> = Vec::new();
    let mut output_x: usize = 0;
    while output_x < m
        invariant
            layout.wf(),
            m == layout.output_sample_count,
            n == layout.input_sample_count,
            output_x <= m,
            steps@.len() == output_x,
            forall|i: int| 0 <= i < output_x ==> #[trigger] steps@[i] == step_for(i as nat, m as nat),
        decreases m - output_x,
    {
        proof {
            lemma_fundamental_div_mod_converse(output_x as int, m as int, 0, output_x as int);
        }
        steps.push(FoldStep { output_x, input_x: output_x, accumulate: false });
        output_x = output_x + 1;
    }
    if m < n {
        let rest = n % m;
        let cut_index = n - rest;
        proof {
            lemma_fundamental_div_mod(n as int, m as int);
            assert(cut_index == m * (n / m));
            assert(n / m >= 1) by (nonlinear_arith)
                requires
                    n == m * (n / m) + n % m,
                    n % m < m,
                    m <= n,
            ;
            assert(m <= cut_index) by (nonlinear_arith)
                requires
                    cut_index == m * (n / m),
                    n / m >= 1,
            ;
        }
        let mut chunk_index: usize = m;
        let ghost mut blocks: int = 1;
        while chunk_index < cut_index
            invariant
                layout.wf(),
                m == layout.output_sample_count,
                n == layout.input_sample_count,
                1 <= m < n,
                rest == n % m,
                cut_index == n - rest,
                cut_index == m * (n / m),
                1 <= blocks <= n / m,
                chunk_index == m * blocks,
                chunk_index <= cut_index,
                steps@.len() == chunk_index,
                forall|i: int|
                    0 <= i < chunk_index ==> #[trigger] steps@[i] == step_for(i as nat, m as nat),
            decreases cut_index - chunk_index,
        {
            proof {
                assert(blocks + 1 <= n / m) by (nonlinear_arith)
                    requires
                        m * blocks < m * (n / m),
                        1 <= m,
                ;
                assert(chunk_index + m <= cut_index) by (nonlinear_arith)
                    requires
                        chunk_index == m * blocks,
                        cut_index == m * (n / m),
                        blocks + 1 <= n / m,
                ;
            }
            let mut x: usize = 0;
            while x < m
                invariant
                    layout.wf(),
                    m == layout.output_sample_count,
                    n == layout.input_sample_count,
                    1 <= m,
                    chunk_index + m <= cut_index <= n,
                    chunk_index == m * blocks,
                    blocks >= 1,
                    x <= m,
                    steps@.len() == chunk_index + x,
                    forall|i: int|
                        0 <= i < chunk_index + x ==> #[trigger] steps@[i] == step_for(
                            i as nat,
                            m as nat,
                        ),
                decreases m - x,
            {
                proof {
                    assert(chunk_index + x == blocks * m + x) by (nonlinear_arith)
                        requires
                            chunk_index == m * blocks,
                    ;
                    lemma_fundamental_div_mod_converse(
                        chunk_index + x,
                        m as int,
                        blocks,
                        x as int,
                    );
                    assert(chunk_index >= m) by (nonlinear_arith)
                        requires
                            chunk_index == m * blocks,
                            blocks >= 1,
                            m >= 1,
                    ;
                }
                steps.push(FoldStep { output_x: x, input_x: chunk_index + x, accumulate: true });
                x = x + 1;
            }
            chunk_index = chunk_index + m;
            proof {
                assert(chunk_index == m * (blocks + 1)) by (nonlinear_arith)
                    requires
                        chunk_index == m * blocks + m,
                ;
                blocks = blocks + 1;
            }
        }
        let mut x: usize = 0;
        while x < rest
            invariant
                layout.wf(),
                m == layout.output_sample_count,
                n == layout.input_sample_count,
                1 <= m < n,
                rest == n % m,
                cut_index == n - rest,
                cut_index == m * (n / m),
                n / m >= 1,
                x <= rest,
                steps@.len() == cut_index + x,
                forall|i: int|
                    0 <= i < cut_index + x ==> #[trigger] steps@[i] == step_for(i as nat, m as nat),
            decreases rest - x,
        {
            proof {
                assert(cut_index + x == (n / m) * m + x) by (nonlinear_arith)
                    requires
                        cut_index == m * (n / m),
                ;
                lemma_fundamental_div_mod_converse(cut_index + x, m as int, (n / m) as int, x as int);
                assert(cut_index >= m) by (nonlinear_arith)
                    requires
                        cut_index == m * (n / m),
                        n / m >= 1,
                        m >= 1,
                ;
            }
            steps.push(FoldStep { output_x: x, input_x: cut_index + x, accumulate: true });
            x = x + 1;
        }
    }
    steps
}

/// The sum of the values at the indices below `k` that are `j` modulo `m`:
/// output bin `j` of the `m`-periodic folding of the first `k` values.
pub open spec fn strided_sum(values: Seq<int>, m: nat, j: nat, k: nat) -> int
    decreases k,
{
    if k == 0 {
        0
    } else {
        strided_sum(values, m, j, (k - 1) as nat) + if (k - 1) as nat % m == j {
            values[k - 1]
        } else {
            0
        }
    }
}

/// The output spectrum after carrying out `steps` in order on the filtered
/// input `values`, starting from the previous contents `init` of the output.
/// Values are modelled as integers: only their addition matters.
pub open spec fn run_steps(steps: Seq<FoldStep>, values: Seq<int>, init: Seq<int>) -> Seq<int>
    decreases steps.len(),
{
    if steps.len() == 0 {
        init
    } else {
        let prev = run_steps(steps.drop_last(), values, init);
        let s = steps.last();
        let v = values[s.input_x as int];
        if s.accumulate {
            prev.update(s.output_x as int, prev[s.output_x as int] + v)
        } else {
            prev.update(s.output_x as int, v)
        }
    }
}

proof fn lemma_strided_sum_untouched(values: Seq<int>, m: nat, j: nat, k: nat)
    requires
        k <= j < m,
    ensures
        strided_sum(values, m, j, k) == 0,
    decreases k,
{
    if k > 0 {
        lemma_strided_sum_untouched(values, m, j, (k - 1) as nat);
        lemma_fundamental_div_mod_converse((k - 1) as int, m as int, 0, (k - 1) as int);
    }
}

proof fn lemma_run_prefix(layout: SessionLayout, steps: Seq<FoldStep>, values: Seq<int>, init: Seq<int>, k: nat)
    requires
        layout.wf(),
        is_fold_schedule(layout, steps),
        values.len() == layout.input_sample_count,
        init.len() == layout.output_sample_count,
        k <= steps.len(),
    ensures
        run_steps(steps.take(k as int), values, init).len() == init.len(),
        forall|j: int|
            0 <= j < init.len() ==> #[trigger] run_steps(steps.take(k as int), values, init)[j] == if j
                < k {
                strided_sum(values, layout.output_sample_count as nat, j as nat, k)
            } else {
                init[j]
            },
    decreases k,
{
    let m = layout.output_sample_count as nat;
    if k > 0 {
        let i = (k - 1) as nat;
        lemma_run_prefix(layout, steps, values, init, i);
        assert(steps.take(k as int).drop_last() =~= steps.take(i as int));
        let s = steps[i as int];
        assert(s == step_for(i, m));
        let prev = run_steps(steps.take(i as int), values, init);
        let cur = run_steps(steps.take(k as int), values, init);
        assert(steps.take(k as int).last() == s);
        let v = values[i as int];
        if s.accumulate {
            assert(cur == prev.update(s.output_x as int, prev[s.output_x as int] + v));
        } else {
            assert(cur == prev.update(s.output_x as int, v));
        }
        if i < m {
            lemma_fundamental_div_mod_converse(i as int, m as int, 0, i as int);
        }
        assert forall|j: int| 0 <= j < init.len() implies #[trigger] cur[j] == if j < k {
            strided_sum(values, m, j as nat, k)
        } else {
            init[j]
        } by {
            if j == i % m {
                if i < m {
                    lemma_strided_sum_untouched(values, m, i, i);
                }
            }
        }
    }
}

/// Folding is aliasing: carrying out the fold schedule of a layout on any
/// filtered input spectrum leaves in each output bin `j` the sum of the input
/// bins `j`, `j + m`, `j + 2m`, ... (with `m` the output length), whatever the
/// output spectrum held before.
pub proof fn lemma_fold_is_strided_sum(
    layout: SessionLayout,
    steps: Seq<FoldStep>,
    values: Seq<int>,
    init: Seq<int>,
)
    requires
        layout.wf(),
        is_fold_schedule(layout, steps),
        values.len() == layout.input_sample_count,
        init.len() == layout.output_sample_count,
    ensures
        run_steps(steps, values, init).len() == layout.output_sample_count,
        forall|j: int|
            0 <= j < layout.output_sample_count ==> #[trigger] run_steps(steps, values, init)[j]
                == strided_sum(
                values,
                layout.output_sample_count as nat,
                j as nat,
                layout.input_sample_count as nat,
            ),
{
    layout.lemma_output_fits();
    lemma_run_prefix(layout, steps, values, init, steps.len());
    assert(steps.take(steps.len() as int) =~= steps);
}

/// Without downsampling there is nothing to fold: when the output is as wide
/// as the input, the output buffer is as long as the input buffer, every step
/// writes bin `i` to bin `i`, and the folded spectrum is the filtered one.
pub proof fn lemma_full_width_is_direct(
    layout: SessionLayout,
    steps: Seq<FoldStep>,
    values: Seq<int>,
    init: Seq<int>,
)
    requires
        layout.wf(),
        layout.output_width == layout.input_width,
        is_fold_schedule(layout, steps),
        values.len() == layout.input_sample_count,
        init.len() == layout.output_sample_count,
    ensures
        layout.output_sample_count == layout.input_sample_count,
        forall|i: int|
            0 <= i < steps.len() ==> #[trigger] steps[i] == (FoldStep {
                output_x: i as usize,
                input_x: i as usize,
                accumulate: false,
            }),
        run_steps(steps, values, init) == values,
{
    let n = layout.input_width as int;
    let p = layout.input_padding as int;
    assert(p * n / n == p) by {
        vstd::arithmetic::div_mod::lemma_div_by_multiple(p, n);
    }
    let m = layout.output_sample_count as nat;
    assert forall|i: int| 0 <= i < steps.len() implies #[trigger] steps[i] == (FoldStep {
        output_x: i as usize,
        input_x: i as usize,
        accumulate: false,
    }) by {
        assert(steps[i] == step_for(i as nat, m));
        lemma_fundamental_div_mod_converse(i, m as int, 0, i);
    }
    lemma_fold_is_strided_sum(layout, steps, values, init);
    assert forall|j: int| 0 <= j < m implies #[trigger] run_steps(steps, values, init)[j]
        == values[j] by {
        lemma_strided_sum_below_period(values, m, j as nat, m);
    }
    assert(run_steps(steps, values, init) =~= values);
}

proof fn lemma_strided_sum_below_period(values: Seq<int>, m: nat, j: nat, k: nat)
    requires
        j < m,
        j < k <= m,
    ensures
        strided_sum(values, m, j, k) == values[j as int],
    decreases k,
{
    lemma_fundamental_div_mod_converse((k - 1) as int, m as int, 0, (k - 1) as int);
    if k - 1 == j {
        lemma_strided_sum_untouched(values, m, j, j);
    } else {
        lemma_strided_sum_below_period(values, m, j, (k - 1) as nat);
    }
}

} // verus!
