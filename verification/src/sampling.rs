use crate::zvec::ZVec;
use std::collections::VecDeque;
use vstd::prelude::*;
use vstd::string::*;

verus! {

/// How the samples of a layer are spread over it.
#[derive(Debug, PartialEq, Eq, Structural, Clone, Copy)]
pub enum SampleDistributeMethod {
    /// Samples at both ends of the layer and evenly between them.
    IncludeEndpoints,
    /// Samples at the middles of equal parts of the layer.
    ExcludeEndpoints,
}

impl Default for SampleDistributeMethod {
    fn default() -> (m: Self)
        ensures
            m == SampleDistributeMethod::IncludeEndpoints,
    {
        SampleDistributeMethod::IncludeEndpoints
    }
}

/// The name of a distribution method, as shown in the selection box.
pub open spec fn distribute_method_name(m: SampleDistributeMethod) -> Seq<char> {
    match m {
        SampleDistributeMethod::IncludeEndpoints => "Include endpoints"@,
        SampleDistributeMethod::ExcludeEndpoints => "Exclude endpoints"@,
    }
}

impl SampleDistributeMethod {
    pub fn to_string(&self) -> (s: String)
        ensures
            s@ == distribute_method_name(*self),
    {
        match self {
            SampleDistributeMethod::IncludeEndpoints => String::from_str("Include endpoints"),
            SampleDistributeMethod::ExcludeEndpoints => String::from_str("Exclude endpoints"),
        }
    }
}

/// The sample numbers of `layer`, from the first up to one past the last, when each layer from
/// `lowest` to `highest` gets `n` samples and the bottom or top layer may be sampled only on
/// its inner half.
///
/// Sample number `k` of a layer lies at `layer - 1/2 + num / den` for `(num, den)` given by
/// `sample_position`: the layer itself for a single sample, `k / (n - 1)` of the way through
/// the layer when the endpoints are included, and the middle of the `k`-th of `n` equal parts
/// when they are excluded.
pub open spec fn sample_numbers(
    method: SampleDistributeMethod,
    lowest: int,
    highest: int,
    n: int,
    half_bottom: bool,
    half_top: bool,
    layer: int,
) -> (int, int) {
    if n == 1 {
        (0, 1)
    } else {
        match method {
            SampleDistributeMethod::IncludeEndpoints => (
                if half_bottom && layer == lowest {
                    n / 2
                } else {
                    0
                },
                if half_top && layer == highest {
                    (n + 1) / 2
                } else {
                    n
                },
            ),
            SampleDistributeMethod::ExcludeEndpoints => {
                let first = if half_bottom && layer == lowest {
                    n / 2 + 1
                } else {
                    1
                };
                let last = if half_top && layer == highest {
                    (n + 1) / 2
                } else {
                    n
                };
                (first, last + 1)
            },
        }
    }
}

/// Where sample number `k` lies in its layer: at `layer - 1/2 + num / den`, for the returned
/// `(num, den)`.
pub open spec fn sample_position(method: SampleDistributeMethod, n: int, k: int) -> (int, int) {
    if n == 1 {
        (1, 2)
    } else {
        match method {
            SampleDistributeMethod::IncludeEndpoints => (k, n - 1),
            SampleDistributeMethod::ExcludeEndpoints => (2 * k - 1, 2 * n),
        }
    }
}

/// The integers from `a` up to one before `b`, as sample numbers.
pub open spec fn number_range(a: int, b: int) -> Seq<usize> {
    Seq::new(if b > a { (b - a) as nat } else { 0 }, |k: int| (a + k) as usize)
}

/// Every sample lies within its layer, a sample of a bottom layer that is sampled on its inner
/// half never lies below the middle of that layer, and one of such a top layer never above it.
pub proof fn lemma_samples_stay_in_layers(
    method: SampleDistributeMethod,
    lowest: int,
    highest: int,
    n: int,
    half_bottom: bool,
    half_top: bool,
    layer: int,
    k: int,
)
    requires
        n >= 1,
        lowest <= layer <= highest,
        sample_numbers(method, lowest, highest, n, half_bottom, half_top, layer).0 <= k,
        k < sample_numbers(method, lowest, highest, n, half_bottom, half_top, layer).1,
    ensures
        0 <= sample_position(method, n, k).0 <= sample_position(method, n, k).1,
        half_bottom && layer == lowest ==> 2 * sample_position(method, n, k).0 >= sample_position(
            method,
            n,
            k,
        ).1,
        half_top && layer == highest ==> 2 * sample_position(method, n, k).0 <= sample_position(
            method,
            n,
            k,
        ).1,
{
}

/// The samples of a layer are exactly those samples of a full layer that are not cut off: a
/// full layer has the samples `0..n` with the endpoints included, `1..=n` with them excluded,
/// and the single sample `0` when `n` is 1; a bottom layer that is sampled on its inner half
/// keeps exactly those that do not lie below its middle, and such a top layer those that do not
/// lie above it.
pub proof fn lemma_sample_numbers_exact(
    method: SampleDistributeMethod,
    lowest: int,
    highest: int,
    n: int,
    half_bottom: bool,
    half_top: bool,
    layer: int,
    k: int,
)
    requires
        n >= 0,
    ensures
        ({
            let s = sample_numbers(method, lowest, highest, n, half_bottom, half_top, layer);
            let cut_bottom = half_bottom && layer == lowest;
            let cut_top = half_top && layer == highest;
            (s.0 <= k < s.1) == if n == 1 {
                k == 0
            } else if method == SampleDistributeMethod::IncludeEndpoints {
                &&& 0 <= k < n
                &&& cut_bottom ==> 2 * k >= n - 1
                &&& cut_top ==> 2 * k <= n - 1
            } else {
                &&& 1 <= k <= n
                &&& cut_bottom ==> 2 * k - 1 >= n
                &&& cut_top ==> 2 * k - 1 <= n
            }
        }),
{
}

/// The sample numbers of each layer from `layer_lowest` to `layer_highest`.
/// The ZVec corresponds to the layers. Note! The layer number is the middle!
pub fn determine_sample_numbers(
    sample_distribute_method: SampleDistributeMethod,
    layer_lowest: isize,
    layer_highest: isize,
    nr_samples_per_layer: usize,
    only_sample_half_of_bottom_layer: bool,
    only_sample_half_of_top_layer: bool,
) -> (samples: ZVec<Vec<usize>>)
    requires
        sample_distribute_method == SampleDistributeMethod::IncludeEndpoints ==> nr_samples_per_layer >= 1,
        nr_samples_per_layer < usize::MAX,
        layer_lowest <= layer_highest ==> layer_highest < isize::MAX,
        layer_highest - layer_lowest < isize::MAX,
    ensures
        samples.wf(),
        samples.spec_min() == layer_lowest,
        samples@.len() == if layer_lowest <= layer_highest {
            layer_highest - layer_lowest + 1
        } else {
            0
        },
        forall|j: int|
            0 <= j < samples@.len() ==> (#[trigger] samples@[j])@ == number_range(
                sample_numbers(
                    sample_distribute_method,
                    layer_lowest as int,
                    layer_highest as int,
                    nr_samples_per_layer as int,
                    only_sample_half_of_bottom_layer,
                    only_sample_half_of_top_layer,
                    layer_lowest + j,
                ).0,
                sample_numbers(
                    sample_distribute_method,
                    layer_lowest as int,
                    layer_highest as int,
                    nr_samples_per_layer as int,
                    only_sample_half_of_bottom_layer,
                    only_sample_half_of_top_layer,
                    layer_lowest + j,
                ).1,
            ),
{
    let n = nr_samples_per_layer;
    let ghost lo = layer_lowest as int;
    let ghost hi = layer_highest as int;
    let mut data: VecDeque<Vec<usize>> = VecDeque::new();
    if layer_lowest <= layer_highest {
        let mut layer: isize = layer_lowest;
        loop
            invariant_except_break
                data@.len() == layer - layer_lowest,
            invariant
                lo == layer_lowest,
                hi == layer_highest,
                layer_lowest <= layer <= layer_highest,
                layer_highest < isize::MAX,
                layer_highest - layer_lowest < isize::MAX,
                sample_distribute_method == SampleDistributeMethod::IncludeEndpoints ==> n >= 1,
                n < usize::MAX,
                forall|j: int|
                    0 <= j < data@.len() ==> (#[trigger] data@[j])@ == number_range(
                        sample_numbers(
                            sample_distribute_method,
                            lo,
                            hi,
                            n as int,
                            only_sample_half_of_bottom_layer,
                            only_sample_half_of_top_layer,
                            lo + j,
                        ).0,
                        sample_numbers(
                            sample_distribute_method,
                            lo,
                            hi,
                            n as int,
                            only_sample_half_of_bottom_layer,
                            only_sample_half_of_top_layer,
                            lo + j,
                        ).1,
                    ),
            ensures
                data@.len() == layer_highest - layer_lowest + 1,
                forall|j: int|
                    0 <= j < data@.len() ==> (#[trigger] data@[j])@ == number_range(
                        sample_numbers(
                            sample_distribute_method,
                            lo,
                            hi,
                            n as int,
                            only_sample_half_of_bottom_layer,
                            only_sample_half_of_top_layer,
                            lo + j,
                        ).0,
                        sample_numbers(
                            sample_distribute_method,
                            lo,
                            hi,
                            n as int,
                            only_sample_half_of_bottom_layer,
                            only_sample_half_of_top_layer,
                            lo + j,
                        ).1,
                    ),
            decreases layer_highest - layer,
        {
            let (start, end): (usize, usize) = if n == 1 {
                (0, 1)
            } else {
                match sample_distribute_method {
                    SampleDistributeMethod::IncludeEndpoints => {
                        let start: usize = if only_sample_half_of_bottom_layer && layer == layer_lowest {
                            n / 2
                        } else {
                            0
                        };
                        let end: usize = if only_sample_half_of_top_layer && layer == layer_highest {
                            (n + 1) / 2
                        } else {
                            n
                        };
                        (start, end)
                    },
                    SampleDistributeMethod::ExcludeEndpoints => {
                        let start: usize = if only_sample_half_of_bottom_layer && layer == layer_lowest {
                            n / 2 + 1
                        } else {
                            1
                        };
                        let last: usize = if only_sample_half_of_top_layer && layer == layer_highest {
                            (n + 1) / 2
                        } else {
                            n
                        };
                        (start, last + 1)
                    },
                }
            };
            let ghost bounds = sample_numbers(
                sample_distribute_method,
                lo,
                hi,
                n as int,
                only_sample_half_of_bottom_layer,
                only_sample_half_of_top_layer,
                layer as int,
            );
            assert(bounds == (start as int, end as int));
            let mut samples: Vec<usize> = Vec::new();
            let mut k: usize = start;
            while k < end
                invariant
                    start <= end ==> start <= k <= end,
                    start > end ==> k == start,
                    samples@.len() == k - start,
                    forall|i: int| 0 <= i < samples@.len() ==> #[trigger] samples@[i] == start + i,
                decreases end - k,
            {
                samples.push(k);
                k = k + 1;
            }
            assert(samples@ =~= number_range(start as int, end as int));
            let ghost before = data@;
            data.push_back(samples);
            assert forall|j: int| 0 <= j < data@.len() implies (#[trigger] data@[j])@ == number_range(
                sample_numbers(
                    sample_distribute_method,
                    lo,
                    hi,
                    n as int,
                    only_sample_half_of_bottom_layer,
                    only_sample_half_of_top_layer,
                    lo + j,
                ).0,
                sample_numbers(
                    sample_distribute_method,
                    lo,
                    hi,
                    n as int,
                    only_sample_half_of_bottom_layer,
                    only_sample_half_of_top_layer,
                    lo + j,
                ).1,
            ) by {
                if j < before.len() {
                    assert(data@[j] == before[j]);
                }
            }
            if layer == layer_highest {
                break;
            }
            layer = layer + 1;
        }
    }
    ZVec::new(data, layer_lowest)
}

} // verus!
