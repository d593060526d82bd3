use imageguide::convert::Format;
use imageguide::estimate::{project_total, sample_size, strata};
use imageguide::scan::{Entry, ImageFormat};

#[test]
fn each_slice_is_projected_by_its_own_sample() {
    let (projected, counted) = project_total(&vec![
        (1_000_000_000, Some((10_000_000, 100_000))),
        (1_000_000_000, Some((10_000_000, 10_000_000))),
    ])
    .expect("two samples encoded");

    assert_eq!(counted, 2);
    assert_eq!(
        projected, 1_010_000_000,
        "10 MB from the first slice and the whole gigabyte from the second"
    );
}

#[test]
fn a_slice_whose_sample_would_not_decode_borrows_the_average() {
    let (projected, counted) = project_total(&vec![
        (100, Some((1000, 100))),
        (100, Some((1000, 300))),
        (100, None),
    ])
    .expect("two of three encoded");

    assert_eq!(counted, 2, "the broken file is not counted as evidence");
    assert_eq!(projected, 10 + 30 + 20, "its slice takes the 0.2 average");
}

#[test]
fn nothing_encoded_is_no_estimate() {
    assert!(project_total(&vec![(1000, None), (2000, None)]).is_none());
    assert!(project_total(&Vec::new()).is_none());
}

fn floating(slices: &[(u64, Option<(u64, u64)>)]) -> Option<(u64, usize)> {
    let ratio = |(source, encoded): (u64, u64)| encoded as f64 / source.max(1) as f64;
    let sampled: Vec<f64> = slices
        .iter()
        .filter_map(|(_, sample)| sample.map(ratio))
        .collect();
    if sampled.is_empty() {
        return None;
    }
    let average = sampled.iter().sum::<f64>() / sampled.len() as f64;
    let projected: f64 = slices
        .iter()
        .map(|(slice_bytes, sample)| *slice_bytes as f64 * sample.map_or(average, ratio))
        .sum();
    Some((projected as u64, sampled.len()))
}

#[test]
fn projections_are_those_of_double_precision() {
    let mut seed = 12_345u64;
    let mut next = |limit: u64| {
        seed = seed.wrapping_mul(6_364_136_223_846_793_005).wrapping_add(1);
        (seed >> 20) % limit
    };
    for _ in 0..200 {
        let count = 1 + next(9);
        let slices: Vec<(u64, Option<(u64, u64)>)> = (0..count)
            .map(|_| {
                let slice = next(1 << 40);
                let sample = (next(3) > 0).then_some((next(1 << 30), next(1 << 29)));
                (slice, sample)
            })
            .collect();
        assert_eq!(project_total(&slices), floating(&slices), "{slices:?}");
    }
    let large = vec![(u64::MAX, Some((1, u64::MAX)))];
    assert_eq!(project_total(&large), floating(&large));
}

#[test]
fn slices_cover_the_list() {
    let entries: Vec<Entry> = (0..100)
        .map(|index| Entry {
            path: format!("{index}.png"),
            format: ImageFormat::Png,
            width: 1,
            height: 1,
            bytes: 1000 - index,
        })
        .collect();
    let targets: Vec<usize> = (0..100).collect();
    for format in [Format::WebP, Format::Avif] {
        let slices = strata(&entries, &targets, format);
        assert_eq!(slices.len(), sample_size(format));
        let total: u64 = slices.iter().map(|slice| slice.slice_bytes).sum();
        assert_eq!(total, entries.iter().map(|entry| entry.bytes).sum::<u64>());
        for slice in &slices {
            assert_eq!(slice.bytes, entries[slice.index].bytes);
        }
    }
    assert_eq!(strata(&entries, &vec![3, 4], Format::WebP).len(), 2);
    assert_eq!((sample_size(Format::WebP), sample_size(Format::Avif)), (32, 3));
}
