//! What a conversion would come to, from a few real encodes.
//!
//! The list is cut into slices, one file from the middle of each is encoded, and each
//! slice is scaled by its own sample. One heavy outlier then speaks for its slice and
//! no further.

use crate::convert::Format;
use crate::number;
use crate::number::{Number, Precision};
use crate::scan;
use crate::scan::Entry;
use vstd::prelude::*;

verus! {

/// Files encoded to project a total. AVIF is the expensive path, so it settles for
/// three and stays a rough number.
pub open spec fn samples_for(format: Format) -> nat {
    match format {
        Format::WebP => 32,
        Format::Avif => 3,
    }
}

/// Files encoded to project a total.
pub fn sample_size(format: Format) -> (out: usize)
    ensures
        out == samples_for(format),
{
    match format {
        Format::WebP => 32,
        Format::Avif => 3,
    }
}

/// One sampled file and the slice of the list it speaks for.
#[derive(Debug)]
pub struct Stratum {
    /// The sampled file, as an index into the entries.
    pub index: usize,
    /// The sampled file's own size on disk.
    pub bytes: u64,
    /// Every file in its slice, that one too.
    pub slice_bytes: u64,
}

/// Where slice `k` of `slices` starts in a list of `len`.
pub open spec fn cut(k: int, len: int, slices: int) -> int {
    k * len / slices
}

/// The bytes of the files at `targets` from `from` to before `to`.
pub open spec fn bytes_of(entries: Seq<Entry>, targets: Seq<usize>, from: int, to: int) -> nat
    decreases to - from,
{
    if to <= from {
        0
    } else {
        bytes_of(entries, targets, from, to - 1) + entries[targets[to - 1] as int].bytes as nat
    }
}

/// How many slices a list of targets is cut into.
pub open spec fn slice_count(targets: Seq<usize>, format: Format) -> nat {
    if samples_for(format) <= targets.len() {
        samples_for(format)
    } else {
        targets.len()
    }
}

/// The stratum speaks for slice `k`: its sample is the file in the middle.
pub open spec fn is_stratum(
    entries: Seq<Entry>,
    targets: Seq<usize>,
    slices: int,
    k: int,
    stratum: Stratum,
) -> bool {
    let len = targets.len() as int;
    let (start, end) = (cut(k, len, slices), cut(k + 1, len, slices));
    let middle = (start + end) / 2;
    &&& 0 <= start <= middle < end <= len
    &&& stratum.index == targets[middle]
    &&& stratum.bytes == entries[targets[middle] as int].bytes
    &&& stratum.slice_bytes == bytes_of(entries, targets, start, end)
}

/// Cuts come in order, apart by at least one file while there are no more slices than
/// files.
proof fn lemma_cuts(k: int, len: int, slices: int)
    requires
        0 <= k < slices <= len,
    ensures
        0 <= cut(k, len, slices) < cut(k + 1, len, slices) <= len,
{
    let (a, b) = (k * len, (k + 1) * len);
    assert(a >= 0 && b == a + len && b <= slices * len) by (nonlinear_arith)
        requires
            a == k * len,
            b == (k + 1) * len,
            0 <= k < slices,
            len > 0,
    ;
    vstd::arithmetic::div_mod::lemma_div_pos_is_pos(a, slices);
    vstd::arithmetic::div_mod::lemma_div_is_ordered(a + slices, b, slices);
    vstd::arithmetic::div_mod::lemma_div_plus_one(a, slices);
    vstd::arithmetic::div_mod::lemma_div_is_ordered(b, slices * len, slices);
    vstd::arithmetic::div_mod::lemma_div_multiples_vanish(len, slices);
    assert((slices + a) / slices == 1 + a / slices);
    assert(len * slices == slices * len) by (nonlinear_arith);
}

/// Adding the bytes of neighbouring runs gives the bytes of the run they make up.
pub proof fn lemma_bytes_join(
    entries: Seq<Entry>,
    targets: Seq<usize>,
    from: int,
    middle: int,
    to: int,
)
    requires
        from <= middle <= to,
    ensures
        bytes_of(entries, targets, from, middle) + bytes_of(entries, targets, middle, to)
            == bytes_of(entries, targets, from, to),
    decreases to - middle,
{
    if middle < to {
        lemma_bytes_join(entries, targets, from, middle, to - 1);
    }
}

/// The bytes of the files at `targets` from `from` to before `to`.
pub(crate) fn sum_bytes(entries: &Vec<Entry>, targets: &Vec<usize>, from: usize, to: usize) -> (out: u64)
    requires
        from <= to <= targets@.len(),
        forall|i: int| 0 <= i < targets@.len() ==> (#[trigger] targets@[i]) < entries@.len(),
        bytes_of(entries@, targets@, 0, targets@.len() as int) <= u64::MAX,
    ensures
        out == bytes_of(entries@, targets@, from as int, to as int),
{
    let mut out: u64 = 0;
    let mut i: usize = from;
    while i < to
        invariant
            from <= i <= to <= targets@.len(),
            forall|i: int| 0 <= i < targets@.len() ==> (#[trigger] targets@[i]) < entries@.len(),
            bytes_of(entries@, targets@, 0, targets@.len() as int) <= u64::MAX,
            out == bytes_of(entries@, targets@, from as int, i as int),
        decreases to - i,
    {
        proof {
            let n = targets@.len() as int;
            lemma_bytes_join(entries@, targets@, 0, from as int, n);
            lemma_bytes_join(entries@, targets@, from as int, i + 1, n);
        }
        out = out + entries[targets[i]].bytes;
        i += 1;
    }
    out
}

/// One sample per slice of the list, taken from the middle of it. The list is
/// weight-sorted, so the first file of a slice is its heaviest and the least like the
/// rest of it.
pub fn strata(entries: &Vec<Entry>, targets: &Vec<usize>, format: Format) -> (out: Vec<Stratum>)
    requires
        forall|i: int| 0 <= i < targets@.len() ==> (#[trigger] targets@[i]) < entries@.len(),
        bytes_of(entries@, targets@, 0, targets@.len() as int) <= u64::MAX,
    ensures
        out@.len() == slice_count(targets@, format),
        forall|k: int|
            0 <= k < out@.len() ==> is_stratum(
                entries@,
                targets@,
                out@.len() as int,
                k,
                #[trigger] out@[k],
            ),
{
    let len: usize = targets.len();
    let wanted = sample_size(format);
    let slices: usize = if wanted <= len {
        wanted
    } else {
        len
    };
    let mut out: Vec<Stratum> = Vec::new();
    let mut slice: usize = 0;
    while slice < slices
        invariant
            slice <= slices <= len == targets@.len(),
            slices == slice_count(targets@, format),
            slices <= 32,
            out@.len() == slice,
            forall|i: int| 0 <= i < targets@.len() ==> (#[trigger] targets@[i]) < entries@.len(),
            bytes_of(entries@, targets@, 0, targets@.len() as int) <= u64::MAX,
            forall|k: int|
                0 <= k < slice ==> is_stratum(
                    entries@,
                    targets@,
                    slices as int,
                    k,
                    #[trigger] out@[k],
                ),
        decreases slices - slice,
    {
        proof {
            lemma_cuts(slice as int, len as int, slices as int);
        }
        let (n, s) = (len as u128, slices as u128);
        assert(slice * n <= 32 * n && (slice + 1) * n <= 32 * n) by (nonlinear_arith)
            requires
                slice + 1 <= 32,
                n >= 0,
        ;
        let start: usize = (slice as u128 * n / s) as usize;
        let end: usize = ((slice as u128 + 1) * n / s) as usize;
        let middle: usize = start + (end - start) / 2;
        assert(middle == (start + end) / 2);
        let index: usize = targets[middle];
        let slice_bytes = sum_bytes(entries, targets, start, end);
        out.push(Stratum { index, bytes: entries[index].bytes, slice_bytes });
        slice += 1;
    }
    out
}

/// The bytes that the first `n` slices speak for.
pub open spec fn spoken_for(strata: Seq<Stratum>, n: int) -> nat
    decreases n,
{
    if n <= 0 {
        0
    } else {
        spoken_for(strata, n - 1) + strata[n - 1].slice_bytes as nat
    }
}

/// The slices of a list speak for every byte in it, once.
pub proof fn law_slices_cover_the_list(
    entries: Seq<Entry>,
    targets: Seq<usize>,
    strata: Seq<Stratum>,
)
    requires
        0 < strata.len() <= targets.len(),
        forall|k: int|
            0 <= k < strata.len() ==> is_stratum(
                entries,
                targets,
                strata.len() as int,
                k,
                #[trigger] strata[k],
            ),
    ensures
        spoken_for(strata, strata.len() as int) == bytes_of(entries, targets, 0, targets.len() as int),
{
    let (len, slices) = (targets.len() as int, strata.len() as int);
    lemma_spoken_for(entries, targets, strata, slices);
    assert(slices * len / slices == len) by {
        vstd::arithmetic::div_mod::lemma_div_multiples_vanish(len, slices);
        assert(len * slices == slices * len) by (nonlinear_arith);
    }
}

proof fn lemma_spoken_for(entries: Seq<Entry>, targets: Seq<usize>, strata: Seq<Stratum>, n: int)
    requires
        0 <= n <= strata.len() <= targets.len(),
        strata.len() > 0,
        forall|k: int|
            0 <= k < strata.len() ==> is_stratum(
                entries,
                targets,
                strata.len() as int,
                k,
                #[trigger] strata[k],
            ),
    ensures
        spoken_for(strata, n) == bytes_of(
            entries,
            targets,
            0,
            cut(n, targets.len() as int, strata.len() as int),
        ),
    decreases n,
{
    let (len, slices) = (targets.len() as int, strata.len() as int);
    if n == 0 {
        assert(0 * len / slices == 0) by {
            assert(0 * len == 0);
            vstd::arithmetic::div_mod::lemma_div_basics(slices);
        }
    } else {
        lemma_spoken_for(entries, targets, strata, n - 1);
        assert(is_stratum(entries, targets, slices, n - 1, strata[n - 1]));
        lemma_bytes_join(entries, targets, 0, cut(n - 1, len, slices), cut(n, len, slices));
    }
}

/// How a sample shrank: encoded over source bytes, in double precision.
pub open spec fn sample_ratio(sample: (u64, u64)) -> (nat, int) {
    scan::ratio(
        sample.1 as nat,
        if sample.0 >= 1 {
            sample.0 as nat
        } else {
            1
        },
        Precision::Double,
    )
}

/// The ratios of the samples among the first `n` slices that encoded.
pub open spec fn ratios(slices: Seq<(u64, Option<(u64, u64)>)>, n: int) -> Seq<(nat, int)>
    decreases n,
{
    if n <= 0 {
        seq![]
    } else {
        match slices[n - 1].1 {
            Some(sample) => ratios(slices, n - 1).push(sample_ratio(sample)),
            None => ratios(slices, n - 1),
        }
    }
}

/// The sum of numbers, one after the other, in double precision.
pub open spec fn summed(values: Seq<(nat, int)>) -> (nat, int)
    decreases values.len(),
{
    if values.len() == 0 {
        (0, 0)
    } else {
        number::total(summed(values.drop_last()), values.last(), Precision::Double)
    }
}

/// The average of numbers, in double precision.
pub open spec fn average(values: Seq<(nat, int)>) -> (nat, int) {
    number::quotient(
        summed(values),
        number::nearest(values.len(), 1, Precision::Double),
        Precision::Double,
    )
}

/// What a slice comes to: its bytes by its own sample's ratio, or by `fallback` where
/// its sample did not encode.
pub open spec fn slice_projection(
    slice: (u64, Option<(u64, u64)>),
    fallback: (nat, int),
) -> (nat, int) {
    number::product(
        number::nearest(slice.0 as nat, 1, Precision::Double),
        match slice.1 {
            Some(sample) => sample_ratio(sample),
            None => fallback,
        },
        Precision::Double,
    )
}

/// What the first `n` slices come to.
pub open spec fn projections(
    slices: Seq<(u64, Option<(u64, u64)>)>,
    fallback: (nat, int),
    n: int,
) -> Seq<(nat, int)>
    decreases n,
{
    if n <= 0 {
        seq![]
    } else {
        projections(slices, fallback, n - 1).push(slice_projection(slices[n - 1], fallback))
    }
}

/// `value` as a file size: its whole part, or the largest size there is.
pub open spec fn as_size(value: (nat, int)) -> nat {
    if number::whole_part(value) <= u64::MAX {
        number::whole_part(value)
    } else {
        u64::MAX as nat
    }
}

/// How a sample shrank.
fn ratio_of(sample: (u64, u64)) -> (out: Number)
    ensures
        out.parts() == sample_ratio(sample),
        out.fills(Precision::Double),
        -118 <= out.exponent <= 15,
{
    let (source, encoded) = sample;
    let below = number::whole(
        if source >= 1 {
            source
        } else {
            1
        },
        Precision::Double,
    );
    number::divide(number::whole(encoded, Precision::Double), below, Precision::Double)
}

/// Project the encoded size of a whole list from a few real encodes.
///
/// Each entry is one slice's bytes and, when its sample encoded, that sample's own
/// source and encoded size. A slice is scaled by its own sample; a slice whose sample
/// would not decode is scaled by the average of the ones that did. Returns the total
/// and how many samples stood behind it, or `None` when nothing encoded at all.
pub fn project_total(slices: &Vec<(u64, Option<(u64, u64)>)>) -> (out: Option<(u64, usize)>)
    ensures
        out is None <==> ratios(slices@, slices@.len() as int).len() == 0,
        out matches Some((projected, counted)) ==> {
            let shown = ratios(slices@, slices@.len() as int);
            &&& counted == shown.len()
            &&& projected == as_size(
                summed(projections(slices@, average(shown), slices@.len() as int)),
            )
        },
{
    let len: usize = slices.len();
    let mut counted: usize = 0;
    let mut sum = Number { significand: 0, exponent: 0 };
    let mut i: usize = 0;
    while i < len
        invariant
            i <= len == slices@.len(),
            counted == ratios(slices@, i as int).len() <= i,
            sum.parts() == summed(ratios(slices@, i as int)),
            sum.fills(Precision::Double),
            -118 <= sum.exponent <= 15 + 2 * i,
        decreases len - i,
    {
        match slices[i].1 {
            Some(sample) => {
                let ratio = ratio_of(sample);
                proof {
                    let next = ratios(slices@, i + 1);
                    assert(next.drop_last() =~= ratios(slices@, i as int));
                    assert(next.last() == ratio.parts());
                }
                sum = number::plus(sum, ratio, Precision::Double);
                counted += 1;
            },
            None => {},
        }
        i += 1;
    }
    if counted == 0 {
        return None;
    }
    let ghost shown = ratios(slices@, len as int);
    let count = number::whole(counted as u64, Precision::Double);
    let fallback = number::divide(sum, count, Precision::Double);
    let ghost mean = average(shown);
    assert(fallback.parts() == mean);
    let mut projected = Number { significand: 0, exponent: 0 };
    let mut i: usize = 0;
    while i < len
        invariant
            i <= len == slices@.len(),
            fallback.parts() == mean,
            fallback.fills(Precision::Double),
            -300 <= fallback.exponent <= 100 + 2 * len,
            projected.parts() == summed(projections(slices@, mean, i as int)),
            projected.fills(Precision::Double),
            -500 <= projected.exponent <= 500 + 2 * len + 2 * i,
        decreases len - i,
    {
        let ratio = match slices[i].1 {
            Some(sample) => ratio_of(sample),
            None => fallback,
        };
        let part = number::multiply(
            number::whole(slices[i].0, Precision::Double),
            ratio,
            Precision::Double,
        );
        proof {
            let next = projections(slices@, mean, i + 1);
            assert(next.drop_last() =~= projections(slices@, mean, i as int));
            assert(next.last() == part.parts());
        }
        projected = number::plus(projected, part, Precision::Double);
        i += 1;
    }
    Some((number::truncate(projected, Precision::Double), counted))
}

/// What files weigh adds up: nothing weighs nothing, one file weighs its bytes, and a list
/// weighs what its parts do.
pub proof fn law_weights_add_up(
    entries: Seq<Entry>,
    targets: Seq<usize>,
    from: int,
    middle: int,
    to: int,
)
    requires
        from <= middle <= to,
    ensures
        bytes_of(entries, targets, from, from) == 0,
        bytes_of(entries, targets, from, from + 1) == entries[targets[from] as int].bytes,
        bytes_of(entries, targets, from, to) == bytes_of(entries, targets, from, middle) + bytes_of(
            entries,
            targets,
            middle,
            to,
        ),
    decreases to - middle,
{
    assert(bytes_of(entries, targets, from, from) == 0);
    assert(bytes_of(entries, targets, from, from + 1) == bytes_of(entries, targets, from, from)
        + entries[targets[from] as int].bytes);
    if middle < to {
        law_weights_add_up(entries, targets, from, middle, to - 1);
    }
}

/// As many files are sampled as the format affords, 32 for WebP and 3 for AVIF, or all of
/// them where there are no more.
pub proof fn law_a_few_files_are_sampled(targets: Seq<usize>)
    ensures
        slice_count(targets, Format::WebP) <= 32,
        slice_count(targets, Format::Avif) <= 3,
        targets.len() >= 32 ==> slice_count(targets, Format::WebP) == 32,
        targets.len() >= 3 ==> slice_count(targets, Format::Avif) == 3,
        targets.len() <= 32 ==> slice_count(targets, Format::WebP) == targets.len(),
        targets.len() <= 3 ==> slice_count(targets, Format::Avif) == targets.len(),
{
}

/// What the first `n` slices come to where the sample of each is `2^shrunk` times smaller
/// than its source, in units of `2^-most` bytes.
pub open spec fn shrunk_bytes(
    slices: Seq<(u64, Option<(u64, u64)>)>,
    shrunk: Seq<nat>,
    most: nat,
    n: int,
) -> nat
    decreases n,
{
    if n <= 0 {
        0
    } else {
        shrunk_bytes(slices, shrunk, most, n - 1) + slices[n - 1].0 as nat
            * vstd::arithmetic::power2::pow2((most - shrunk[n - 1]) as nat)
    }
}

/// How a sample shrank, where it shrank by a power of two.
proof fn lemma_power_ratio(sample: (u64, u64), k: nat)
    requires
        sample.1 > 0,
        sample.0 == sample.1 * vstd::arithmetic::power2::pow2(k),
    ensures
        sample_ratio(sample) == (0x10_0000_0000_0000nat, -k - 52),
{
    vstd::arithmetic::power2::lemma_pow2_pos(k);
    let p = vstd::arithmetic::power2::pow2(k);
    assert(sample.1 * p > 0) by (nonlinear_arith)
        requires
            sample.1 > 0,
            p > 0,
    ;
    let encoded = number::nearest(sample.1 as nat, 1, Precision::Double);
    number::lemma_nearest_fills(sample.1 as nat, 1, Precision::Double);
    number::lemma_nearest_shifts(sample.1 as nat, 1, k, Precision::Double);
    number::lemma_over_itself_shifted(encoded, k as int, Precision::Double);
}

proof fn lemma_slice_shrinks(slice: (u64, Option<(u64, u64)>), fallback: (nat, int), k: nat)
    requires
        match slice.1 {
            Some(sample) => sample.1 > 0 && sample.0 == sample.1 * vstd::arithmetic::power2::pow2(
                k,
            ),
            None => fallback == (0x10_0000_0000_0000nat, -k - 52),
        },
    ensures
        slice_projection(slice, fallback) == number::shifted(
            number::nearest(slice.0 as nat, 1, Precision::Double),
            -k,
        ),
{
    if slice.1 is Some {
        lemma_power_ratio(slice.1->0, k);
    }
    if slice.0 > 0 {
        number::lemma_nearest_fills(slice.0 as nat, 1, Precision::Double);
    }
    number::lemma_times_a_power(
        number::nearest(slice.0 as nat, 1, Precision::Double),
        -k,
        Precision::Double,
    );
}

/// Each slice is scaled by its own sample and no other: where the samples shrank to a half,
/// a quarter and so on, each by its own power of two, so is each slice projected to shrink,
/// and the total is the sum of that.
pub proof fn law_each_slice_goes_by_its_own_sample(
    slices: Seq<(u64, Option<(u64, u64)>)>,
    shrunk: Seq<nat>,
    most: nat,
    fallback: (nat, int),
    n: int,
)
    requires
        0 <= n <= slices.len(),
        shrunk.len() == slices.len(),
        shrunk_bytes(slices, shrunk, most, n) < 0x20_0000_0000_0000,
        forall|i: int|
            0 <= i < slices.len() ==> {
                &&& (#[trigger] slices[i]).1 matches Some((source, encoded))
                &&& encoded > 0
                &&& source == encoded * vstd::arithmetic::power2::pow2(shrunk[i])
                &&& shrunk[i] <= most
            },
    ensures
        as_size(summed(projections(slices, fallback, n))) == shrunk_bytes(slices, shrunk, most, n)
            / vstd::arithmetic::power2::pow2(most),
{
    lemma_projections_sum(slices, shrunk, most, fallback, n);
    let sum = shrunk_bytes(slices, shrunk, most, n);
    number::lemma_whole_part_of_a_count(sum, most, Precision::Double);
    lemma_no_more_than(sum, most);
}

proof fn lemma_no_more_than(sum: nat, k: nat)
    ensures
        sum / vstd::arithmetic::power2::pow2(k) <= sum,
{
    vstd::arithmetic::power2::lemma_pow2_pos(k);
    vstd::arithmetic::div_mod::lemma_div_nonincreasing(
        sum as int,
        vstd::arithmetic::power2::pow2(k) as int,
    );
}

proof fn lemma_projections_sum(
    slices: Seq<(u64, Option<(u64, u64)>)>,
    shrunk: Seq<nat>,
    most: nat,
    fallback: (nat, int),
    n: int,
)
    requires
        0 <= n <= slices.len(),
        shrunk.len() == slices.len(),
        shrunk_bytes(slices, shrunk, most, n) < 0x20_0000_0000_0000,
        forall|i: int|
            0 <= i < slices.len() ==> shrunk[i] <= most && match (#[trigger] slices[i]).1 {
                Some((source, encoded)) => encoded > 0 && source == encoded
                    * vstd::arithmetic::power2::pow2(shrunk[i]),
                None => fallback == (0x10_0000_0000_0000nat, -shrunk[i] - 52),
            },
    ensures
        summed(projections(slices, fallback, n)) == number::shifted(
            number::nearest(shrunk_bytes(slices, shrunk, most, n), 1, Precision::Double),
            -most,
        ),
    decreases n,
{
    if n > 0 {
        lemma_projections_sum(slices, shrunk, most, fallback, n - 1);
        let (slice, k) = (slices[n - 1], shrunk[n - 1]);
        assert(k <= most);
        lemma_slice_shrinks(slice, fallback, k);
        let by = (most - k) as nat;
        let p = vstd::arithmetic::power2::pow2(by);
        let part = slice.0 as nat * p;
        number::lemma_nearest_shifts(slice.0 as nat, 1, by, Precision::Double);
        if slice.0 > 0 {
            number::lemma_nearest_fills(slice.0 as nat, 1, Precision::Double);
        }
        let before = shrunk_bytes(slices, shrunk, most, n - 1);
        number::lemma_counts_add_up(before, part, -most, Precision::Double);
        let all = projections(slices, fallback, n);
        assert(all.drop_last() =~= projections(slices, fallback, n - 1));
        assert(all.last() == slice_projection(slice, fallback));
    }
}

/// Where every sample that encoded shrank alike, by a power of two, the whole is projected
/// to shrink that way, slices whose sample did not encode included; as long as one did.
pub proof fn law_equal_samples_project_the_whole(slices: Seq<(u64, Option<(u64, u64)>)>, k: nat)
    requires
        slices.len() < 0x20_0000_0000_0000,
        exists|i: int| 0 <= i < slices.len() && (#[trigger] slices[i]).1 is Some,
        forall|i: int|
            0 <= i < slices.len() ==> ((#[trigger] slices[i]).1 matches Some((source, encoded))
                ==> encoded > 0 && source == encoded * vstd::arithmetic::power2::pow2(k)),
        shrunk_bytes(slices, Seq::new(slices.len(), |i: int| k), k, slices.len() as int)
            < 0x20_0000_0000_0000,
    ensures
        ratios(slices, slices.len() as int).len() > 0,
        as_size(
            summed(
                projections(
                    slices,
                    average(ratios(slices, slices.len() as int)),
                    slices.len() as int,
                ),
            ),
        ) == shrunk_bytes(slices, Seq::new(slices.len(), |i: int| k), k, slices.len() as int)
            / vstd::arithmetic::power2::pow2(k),
{
    let n = slices.len() as int;
    let shrunk = Seq::new(slices.len(), |i: int| k);
    let shown = ratios(slices, n);
    lemma_equal_ratios(slices, k, n);
    let i = choose|i: int| 0 <= i < slices.len() && (#[trigger] slices[i]).1 is Some;
    lemma_some_ratio(slices, n, i);
    let count = number::nearest(shown.len(), 1, Precision::Double);
    number::lemma_nearest_fills(shown.len(), 1, Precision::Double);
    number::lemma_over_itself_shifted(count, k as int, Precision::Double);
    let mean = average(shown);
    assert(mean == (0x10_0000_0000_0000nat, -k - 52));
    lemma_projections_sum(slices, shrunk, k, mean, n);
    let sum = shrunk_bytes(slices, shrunk, k, n);
    number::lemma_whole_part_of_a_count(sum, k, Precision::Double);
    lemma_no_more_than(sum, k);
}

proof fn lemma_some_ratio(slices: Seq<(u64, Option<(u64, u64)>)>, n: int, i: int)
    requires
        0 <= i < n <= slices.len(),
        slices[i].1 is Some,
    ensures
        ratios(slices, n).len() > 0,
    decreases n,
{
    if i < n - 1 {
        lemma_some_ratio(slices, n - 1, i);
    }
}

proof fn lemma_equal_ratios(slices: Seq<(u64, Option<(u64, u64)>)>, k: nat, n: int)
    requires
        0 <= n <= slices.len() < 0x20_0000_0000_0000,
        forall|i: int|
            0 <= i < slices.len() ==> ((#[trigger] slices[i]).1 matches Some((source, encoded))
                ==> encoded > 0 && source == encoded * vstd::arithmetic::power2::pow2(k)),
    ensures
        ratios(slices, n).len() <= n,
        summed(ratios(slices, n)) == number::shifted(
            number::nearest(ratios(slices, n).len(), 1, Precision::Double),
            -k,
        ),
    decreases n,
{
    if n > 0 {
        lemma_equal_ratios(slices, k, n - 1);
        let before = ratios(slices, n - 1);
        if slices[n - 1].1 is Some {
            let sample = slices[n - 1].1->0;
            assert(slices[n - 1].1 is Some);
            lemma_power_ratio(sample, k);
            number::lemma_one(Precision::Double);
            number::lemma_counts_add_up(before.len(), 1, -k, Precision::Double);
            let all = ratios(slices, n);
            assert(all.drop_last() =~= before);
        }
    }
}

} // verus!
