use bin_packing::algorithms::first_fit;
use bin_packing::algorithms::sort_descending;
use bin_packing::packing_algorithms_trait::PackingAlgorithms;
use bin_packing::weighted_iterator::to_weighted;
use bin_packing::WeightedReference;

#[test]
fn using_usize_directly() {
    let numbers: Vec<u8> = vec![1, 2, 3, 4];
    let refs: Vec<&u8> = numbers.iter().collect();
    let bins = refs.first_fit(5).unwrap();
    assert_eq!(3, bins.len());
}

#[test]
fn using_to_weighted() {
    let words: Vec<&str> = vec!["hello", "world", "how", "are", "you"];
    let refs: Vec<&&str> = words.iter().collect();
    // Each item's weight will be the length of the str.
    let weighted = to_weighted(refs, |it: &&str| it.len());
    let bins = weighted.first_fit_decreasing(11).unwrap();
    assert_eq!(2, bins.len());
}

#[test]
fn sandbox() {
    let words = vec!["hello", "world", "how", "are", "you"];
    let bin_capacity: usize = 11;
    let refs: Vec<&&str> = words.iter().collect();
    // Each item's weight will be the length of the str.
    let weighted = to_weighted(refs, |word: &&str| word.len());
    let bins = weighted.first_fit_decreasing(bin_capacity).unwrap();
    println!("{:?}", bins);
}

#[test]
fn test_first_fit() {
    let numbers: Vec<u64> = vec![1, 2, 3, 4];
    let refs: Vec<&u64> = numbers.iter().collect();
    let bins = to_weighted(refs, |num: &u64| *num as usize).first_fit(4);
    assert_eq!(3, bins.unwrap().len());
}

#[test]
fn test_first_fit_decreasing() {
    let numbers: Vec<u64> = vec![1, 2, 3, 4];
    let refs: Vec<&u64> = numbers.iter().collect();
    let bins = to_weighted(refs, |num: &u64| *num as usize).first_fit_decreasing(4);
    assert_eq!(3, bins.unwrap().len());
}

#[test]
fn pack_weighted_references() {
    let input: Vec<u8> = vec![1, 2, 3, 4];
    let weighted = WeightedReference::<u8>::collect_from(input.iter().collect());
    let bins = first_fit(5, weighted).unwrap();
    assert_eq!(vec![&1, &2], bins[0]);
    assert_eq!(vec![&3], bins[1]);
    assert_eq!(vec![&4], bins[2]);
}

#[test]
fn decreasing_sort_is_stable_on_ties() {
    // Equal weights with tagged values: the original relative order of
    // "first", "second", "third" must survive the sort.
    let tags = ["first", "second", "third", "heavy"];
    let weighted: Vec<WeightedReference<&str>> = vec![
        WeightedReference { weight: 2, reference: &tags[0] },
        WeightedReference { weight: 2, reference: &tags[1] },
        WeightedReference { weight: 5, reference: &tags[3] },
        WeightedReference { weight: 2, reference: &tags[2] },
    ];
    let sorted = sort_descending(weighted);
    let order: Vec<&str> = sorted.iter().map(|w| *w.reference).collect();
    assert_eq!(vec!["heavy", "first", "second", "third"], order);
    let weights: Vec<usize> = sorted.iter().map(|w| w.weight).collect();
    assert_eq!(vec![5, 2, 2, 2], weights);
}

#[test]
fn weighting_adapter_is_idempotent() {
    let input: Vec<u8> = vec![3, 1, 4];
    let once = WeightedReference::<u8>::collect_from(input.iter().collect());
    let twice = WeightedReference::<u8>::collect_from(input.iter().collect());
    assert_eq!(once.len(), twice.len());
    for (a, b) in once.iter().zip(twice.iter()) {
        assert_eq!(a.weight, b.weight);
        assert!(std::ptr::eq(a.reference, b.reference));
    }
}

#[test]
fn to_weighted_is_idempotent() {
    let words: Vec<&str> = vec!["pack", "bins"];
    let once = to_weighted(words.iter().collect(), |it: &&str| it.len());
    let twice = to_weighted(words.iter().collect(), |it: &&str| it.len());
    assert_eq!(once.len(), twice.len());
    for (a, b) in once.iter().zip(twice.iter()) {
        assert_eq!(a.weight, b.weight);
        assert!(std::ptr::eq(a.reference, b.reference));
    }
}
