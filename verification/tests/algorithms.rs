use bin_packing::algorithms::first_fit;
use bin_packing::algorithms::first_fit_decreasing;
use bin_packing::algorithms::next_fit;
use bin_packing::errors::Error;

#[test]
fn first_fit_empty() {
    let input: Vec<usize> = Vec::new();
    let bins = first_fit(1, input.iter().collect()).unwrap();
    assert!(bins.is_empty());
}

#[test]
fn first_fit_ordered() {
    let input: Vec<usize> = vec![1, 2, 3, 4];
    let bins = first_fit(5, input.iter().collect()).unwrap();
    assert_eq!(vec![&1, &2], bins[0]);
    assert_eq!(vec![&3], bins[1]);
    assert_eq!(vec![&4], bins[2]);
}

#[test]
fn first_fit_item_too_large() {
    let input: Vec<usize> = vec![2];
    assert!(first_fit(1, input.iter().collect()).is_err());
}

#[test]
fn next_fit_empty() {
    let input: Vec<usize> = Vec::new();
    let bins = next_fit(1, input.iter().collect()).unwrap();
    assert!(bins.is_empty());
}

#[test]
fn next_fit_ordered() {
    let input: Vec<usize> = vec![1, 2, 3, 4];
    let bins = next_fit(5, input.iter().collect()).unwrap();
    assert_eq!(vec![&1, &2], bins[0]);
    assert_eq!(vec![&3], bins[1]);
    assert_eq!(vec![&4], bins[2]);
}

#[test]
fn next_fit_item_too_large() {
    let input: Vec<usize> = vec![2];
    assert!(next_fit(1, input.iter().collect()).is_err());
}

#[test]
fn first_fit_decreasing_empty() {
    let input: Vec<usize> = Vec::new();
    let bins = first_fit_decreasing(1, input.iter().collect()).unwrap();
    assert!(bins.is_empty());
}

#[test]
fn first_fit_decreasing_ordered() {
    let input: Vec<usize> = vec![1, 2, 3, 4];
    let bins = first_fit_decreasing(5, input.iter().collect()).unwrap();
    assert_eq!(vec![&4, &1], bins[0]);
    assert_eq!(vec![&3, &2], bins[1]);
    assert_eq!(2, bins.len());
}

#[test]
fn first_fit_decreasing_item_too_large() {
    let input: Vec<usize> = vec![3, 7];
    let result = first_fit_decreasing(6, input.iter().collect());
    assert_eq!(Some(Error::ItemTooLargeError), result.err());
}

#[test]
fn next_fit_error_variant() {
    let input: Vec<usize> = vec![1, 9, 1];
    let result = next_fit(8, input.iter().collect());
    assert_eq!(Some(Error::ItemTooLargeError), result.err());
}

#[test]
fn next_fit_closes_bins_first_fit_reopens_them() {
    // Weights [2, 3, 2] with capacity 4: first-fit puts the last item back
    // into bin one, next-fit cannot, so the two policies diverge.
    let input: Vec<usize> = vec![2, 3, 2];
    let ff_bins = first_fit(4, input.iter().collect()).unwrap();
    assert_eq!(vec![vec![&2, &2], vec![&3]], ff_bins);
    let nf_bins = next_fit(4, input.iter().collect()).unwrap();
    assert_eq!(vec![vec![&2], vec![&3], vec![&2]], nf_bins);
}

#[test]
fn next_fit_divergence_example() {
    let input: Vec<usize> = vec![2, 2, 1, 2];
    let nf_bins = next_fit(4, input.iter().collect()).unwrap();
    assert_eq!(vec![vec![&2, &2], vec![&1, &2]], nf_bins);
    let ff_bins = first_fit(4, input.iter().collect()).unwrap();
    assert_eq!(vec![vec![&2, &2], vec![&1, &2]], ff_bins);
}

#[test]
fn item_weight_equal_to_capacity_fits() {
    let input: Vec<usize> = vec![5];
    let bins = first_fit(5, input.iter().collect()).unwrap();
    assert_eq!(vec![vec![&5]], bins);
    let bins = next_fit(5, input.iter().collect()).unwrap();
    assert_eq!(vec![vec![&5]], bins);
}

#[test]
fn conservation_across_bins() {
    let input: Vec<usize> = vec![3, 1, 1, 3, 2, 4];
    for bins in [
        first_fit(4, input.iter().collect()).unwrap(),
        next_fit(4, input.iter().collect()).unwrap(),
        first_fit_decreasing(4, input.iter().collect()).unwrap(),
    ] {
        let mut packed: Vec<usize> = bins.iter().flatten().map(|r| **r).collect();
        packed.sort();
        let mut expected = input.clone();
        expected.sort();
        assert_eq!(expected, packed);
    }
}

#[test]
fn capacity_never_exceeded() {
    let input: Vec<usize> = vec![3, 1, 1, 3, 2, 4, 2, 2];
    for bins in [
        first_fit(5, input.iter().collect()).unwrap(),
        next_fit(5, input.iter().collect()).unwrap(),
        first_fit_decreasing(5, input.iter().collect()).unwrap(),
    ] {
        for bin in bins {
            let load: usize = bin.iter().map(|r| **r).sum();
            assert!(load <= 5);
        }
    }
}
