use vstd::prelude::*;
use crate::layout::SessionLayout;

verus! {

/// The zero-padded input buffer: `samples` placed after `input_padding`
/// copies of `zero`, and followed by as many.
pub open spec fn padded_input_spec<T>(layout: SessionLayout, samples: Seq<T>, zero: T) -> Seq<T> {
    Seq::new(
        layout.input_sample_count as nat,
        |i: int|
            if layout.input_padding <= i < layout.input_padding + layout.input_width {
                samples[i - layout.input_padding]
            } else {
                zero
            },
    )
}

/// Builds the time-domain buffer that the forward transform reads: the input
/// samples in the middle, `zero` in the padding on both sides.
pub fn pad_input<T: Copy>(layout: &SessionLayout, samples: &Vec<T>, zero: T) -> (r: Vec<T>)
    requires
        layout.wf(),
        samples@.len() == layout.input_width,
    ensures
        r@ == padded_input_spec(*layout, samples@, zero),
{
    let n = layout.input_sample_count;
    let mut buffer: Vec<T> = Vec::new();
    let mut i: usize = 0;
    while i < layout.input_padding
        invariant
            layout.wf(),
            n == layout.input_sample_count,
            i <= layout.input_padding,
            buffer@ == padded_input_spec(*layout, samples@, zero).take(i as int),
        decreases layout.input_padding - i,
    {
        buffer.push(zero);
        i = i + 1;
        assert(buffer@ =~= padded_input_spec(*layout, samples@, zero).take(i as int));
    }
    let mut x: usize = 0;
    while x < layout.input_width
        invariant
            layout.wf(),
            n == layout.input_sample_count,
            samples@.len() == layout.input_width,
            x <= layout.input_width,
            buffer@ == padded_input_spec(*layout, samples@, zero).take(
                layout.input_padding + x,
            ),
        decreases layout.input_width - x,
    {
        buffer.push(samples[x]);
        x = x + 1;
        assert(buffer@ =~= padded_input_spec(*layout, samples@, zero).take(
            layout.input_padding + x,
        ));
    }
    let mut i: usize = layout.input_padding + layout.input_width;
    while i < n
        invariant
            layout.wf(),
            n == layout.input_sample_count,
            layout.input_padding + layout.input_width <= i <= n,
            buffer@ == padded_input_spec(*layout, samples@, zero).take(i as int),
        decreases n - i,
    {
        buffer.push(zero);
        i = i + 1;
        assert(buffer@ =~= padded_input_spec(*layout, samples@, zero).take(i as int));
    }
    assert(buffer@ =~= padded_input_spec(*layout, samples@, zero));
    buffer
}

/// The emitted series: for each output sample `x`, the real and the imaginary
/// part of the time-domain bin `output_padding + x`, one after the other.
pub open spec fn interleaved_spec<T>(layout: SessionLayout, re: Seq<T>, im: Seq<T>) -> Seq<T> {
    Seq::new(
        2 * layout.output_width as nat,
        |k: int|
            if k % 2 == 0 {
                re[layout.output_padding + k / 2]
            } else {
                im[layout.output_padding + k / 2]
            },
    )
}

/// Strips the padding off a query's time-domain result, given as its real
/// parts `re` and imaginary parts `im`, and interleaves what is left as
/// `[re_0, im_0, re_1, im_1, ...]`: exactly `output_width` pairs.
pub fn emit_interleaved<T: Copy>(layout: &SessionLayout, re: &Vec<T>, im: &Vec<T>) -> (r: Vec<T>)
    requires
        layout.wf(),
        re@.len() == layout.output_sample_count,
        im@.len() == layout.output_sample_count,
    ensures
        r@.len() == 2 * layout.output_width,
        r@ == interleaved_spec(*layout, re@, im@),
        forall|x: int|
            0 <= x < layout.output_width ==> {
                &&& #[trigger] r@[2 * x] == re@[layout.output_padding + x]
                &&& r@[2 * x + 1] == im@[layout.output_padding + x]
            },
{
    proof {
        layout.lemma_output_fits();
    }
    let mut out: Vec<T> = Vec::new();
    let mut x: usize = 0;
    while x < layout.output_width
        invariant
            layout.wf(),
            layout.output_sample_count <= layout.input_sample_count,
            re@.len() == layout.output_sample_count,
            im@.len() == layout.output_sample_count,
            x <= layout.output_width,
            out@ == interleaved_spec(*layout, re@, im@).take(2 * x),
        decreases layout.output_width - x,
    {
        let sample = layout.output_padding + x;
        out.push(re[sample]);
        out.push(im[sample]);
        x = x + 1;
        assert(out@ =~= interleaved_spec(*layout, re@, im@).take(2 * x)) by {
            assert((2 * x - 2) / 2 == x - 1);
            assert((2 * x - 1) / 2 == x - 1);
        }
    }
    assert(out@ =~= interleaved_spec(*layout, re@, im@));
    assert forall|x: int| 0 <= x < layout.output_width implies {
        &&& #[trigger] out@[2 * x] == re@[layout.output_padding + x]
        &&& out@[2 * x + 1] == im@[layout.output_padding + x]
    } by {
        assert((2 * x) / 2 == x);
        assert((2 * x + 1) / 2 == x);
        assert((2 * x) % 2 == 0);
        assert((2 * x + 1) % 2 == 1);
    }
    out
}

} // verus!
