use vstd::prelude::*;
use vstd::arithmetic::div_mod::{lemma_div_by_multiple, lemma_div_is_ordered};

verus! {

/// Why a session or a query was refused.
#[derive(Debug, Clone, Copy, PartialEq, Eq, Structural)]
pub enum CcwtError {
    /// The output width is zero or exceeds the number of input samples.
    InvalidConfiguration,
    /// A query parameter (such as a zero derivative) makes the kernel undefined.
    InvalidParameter,
}

/// The sizes of the buffers of one transform session.
///
/// The input of `input_width` samples is zero-padded by `input_padding` on each
/// side; the per-query output of `output_width` samples is computed in a buffer
/// padded by `output_padding` on each side, the same fraction of its width.
#[derive(Debug, Clone, Copy, PartialEq, Eq, Structural)]
pub struct SessionLayout {
    pub input_width: usize,
    pub input_padding: usize,
    pub input_sample_count: usize,
    pub output_width: usize,
    pub output_padding: usize,
    pub output_sample_count: usize,
}

impl SessionLayout {
    /// The layout is the one derived from its three chosen sizes.
    pub open spec fn wf(&self) -> bool {
        &&& 1 <= self.output_width <= self.input_width
        &&& self.input_sample_count == self.input_width + 2 * self.input_padding
        &&& self.output_padding == (self.input_padding * self.output_width) / (self.input_width as int)
        &&& self.output_sample_count == self.output_width + 2 * self.output_padding
    }

    /// Whether a session with these sizes can be built.
    pub open spec fn accepts(input_width: nat, output_width: nat) -> bool {
        1 <= output_width <= input_width
    }

    /// Derives the layout of a session over `input_width` samples, padded by
    /// `input_padding` on each side, with `output_width` samples per query.
    pub fn new(input_width: usize, input_padding: usize, output_width: usize) -> (r: Result<
        SessionLayout,
        CcwtError,
    >)
        requires
            input_width + 2 * input_padding <= usize::MAX,
        ensures
            Self::accepts(input_width as nat, output_width as nat) <==> r.is_ok(),
            !Self::accepts(input_width as nat, output_width as nat) ==> r == Err::<
                SessionLayout,
                CcwtError,
            >(CcwtError::InvalidConfiguration),
            r matches Ok(l) ==> {
                &&& l.wf()
                &&& l.input_width == input_width
                &&& l.input_padding == input_padding
                &&& l.output_width == output_width
            },
    {
        if output_width == 0 || output_width > input_width {
            return Err(CcwtError::InvalidConfiguration);
        }
        proof {
            assert((input_padding as int) * (output_width as int) <= u128::MAX) by (nonlinear_arith)
                requires
                    input_padding <= u64::MAX,
                    output_width <= u64::MAX,
            ;
        }
        let scaled: u128 = (input_padding as u128) * (output_width as u128);
        proof {
            assert(scaled <= input_padding * input_width) by (nonlinear_arith)
                requires
                    scaled == input_padding * output_width,
                    output_width <= input_width,
            ;
            lemma_div_is_ordered(scaled as int, input_padding * input_width, input_width as int);
            lemma_div_by_multiple(input_padding as int, input_width as int);
            assert(input_padding * input_width == input_width * input_padding) by (nonlinear_arith);
        }
        let output_padding = (scaled / (input_width as u128)) as usize;
        Ok(
            SessionLayout {
                input_width,
                input_padding,
                input_sample_count: input_width + 2 * input_padding,
                output_width,
                output_padding,
                output_sample_count: output_width + 2 * output_padding,
            },
        )
    }

    /// The output padding never exceeds the input padding, so the per-query
    /// buffer is never longer than the input buffer.
    pub proof fn lemma_output_fits(&self)
        requires
            self.wf(),
        ensures
            self.output_padding <= self.input_padding,
            self.output_sample_count <= self.input_sample_count,
    {
        let p = self.input_padding as int;
        let n = self.input_width as int;
        let w = self.output_width as int;
        assert(p * w <= p * n) by (nonlinear_arith)
            requires
                w <= n,
                0 <= p,
        ;
        lemma_div_is_ordered(p * w, p * n, n);
        lemma_div_by_multiple(p, n);
    }
}

} // verus!
