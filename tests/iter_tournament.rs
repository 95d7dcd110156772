use rand::distributions::{Alphanumeric, DistString};
use tournament::{Comparator, MaxComparator, MinComparator, Tournament};

fn random_sources(descending: bool) -> Vec<Vec<String>> {
    let mut rng = rand::thread_rng();
    (1..100)
        .map(|_| {
            (1..200)
                .map(|_| Alphanumeric.sample_string(&mut rng, 32))
                .collect::<Vec<_>>()
        })
        .map(|mut v| {
            if descending {
                v.sort_by(|a, b| b.cmp(a));
            } else {
                v.sort();
            }
            v
        })
        .collect::<Vec<_>>()
}

#[test]
fn iter_tournament_test_min() {
    let vecs = random_sources(false);
    let tournament_result = Tournament::from_iters_min(vecs.clone()).collect_all();
    let mut sort_result = vecs.iter().flatten().cloned().collect::<Vec<_>>();
    sort_result.sort();
    assert_eq!(tournament_result, sort_result);
}

#[test]
fn iter_tournament_test_max() {
    let vecs = random_sources(true);
    let tournament_result = Tournament::from_iters_max(vecs.clone()).collect_all();
    let mut sort_result = vecs.iter().flatten().cloned().collect::<Vec<_>>();
    sort_result.sort_by(|a, b| b.cmp(a));
    assert_eq!(tournament_result, sort_result);
}

#[test]
fn ascending_scenario() {
    let mut t = Tournament::from_iters_min(vec![vec![1u64, 3, 5], vec![2, 4], vec![0, 10]]);
    assert_eq!(t.collect_all(), vec![0, 1, 2, 3, 4, 5, 10]);
}

#[test]
fn descending_scenario() {
    let mut t = Tournament::from_iters_max(vec![vec![5u64, 3, 1], vec![4, 2], vec![10, 0]]);
    assert_eq!(t.collect_all(), vec![10, 5, 4, 3, 2, 1, 0]);
}

#[test]
fn empty_source_mixed_in() {
    let mut t = Tournament::from_iters_min(vec![vec![], vec![1u64, 2], vec![1, 3]]);
    assert_eq!(t.collect_all(), vec![1, 1, 2, 3]);
}

#[test]
fn no_sources_and_only_empty_sources() {
    let mut t = Tournament::<u64, MinComparator<u64>>::from_iters_min(vec![]);
    assert_eq!(t.next(), None);
    let mut t = Tournament::<u64, MinComparator<u64>>::from_iters_min(vec![vec![], vec![]]);
    assert_eq!(t.collect_all(), Vec::<u64>::new());
}

#[test]
fn next_steps_one_item_at_a_time() {
    let mut t = Tournament::from_iters_min(vec![vec![1u64, 3, 5], vec![2, 4], vec![0, 10]]);
    assert_eq!(t.next(), Some(0));
    assert_eq!(t.next(), Some(1));
    assert_eq!(t.next(), Some(2));
    assert_eq!(t.collect_all(), vec![3, 4, 5, 10]);
}

#[test]
fn exhaustion_is_final() {
    let mut t = Tournament::from_iters_min(vec![vec![7u64], vec![]]);
    assert_eq!(t.next(), Some(7));
    for _ in 0..5 {
        assert_eq!(t.next(), None);
    }
    assert_eq!(t.collect_all(), Vec::<u64>::new());
}

#[test]
fn count_and_items_preserved_with_uneven_sources() {
    let sources: Vec<Vec<u64>> = vec![
        (0..500).collect(),
        vec![],
        vec![250, 250, 250],
        (0..3).map(|x| x * 1000).collect(),
        vec![],
        vec![499],
    ];
    let total: usize = sources.iter().map(|s| s.len()).sum();
    let out = Tournament::from_iters_min(sources.clone()).collect_all();
    assert_eq!(out.len(), total);
    let mut expected = sources.into_iter().flatten().collect::<Vec<_>>();
    expected.sort();
    assert_eq!(out, expected);
}

#[test]
fn draws_go_to_the_earlier_source() {
    let mut t = Tournament::from_iters(
        vec![vec![(1u64, 'a')], vec![(1u64, 'b')], vec![(0u64, 'c')]],
        ByFirst {},
    );
    assert_eq!(t.collect_all(), vec![(0, 'c'), (1, 'a'), (1, 'b')]);
}

#[derive(Clone, Copy)]
struct ByFirst {}

impl Comparator<(u64, char)> for ByFirst {
    fn cmp(&self, a: &(u64, char), b: &(u64, char)) -> core::cmp::Ordering {
        a.0.cmp(&b.0)
    }
}

#[derive(Clone, Copy)]
struct CompareIgnoringCase {}

impl Comparator<String> for CompareIgnoringCase {
    fn cmp(&self, a: &String, b: &String) -> core::cmp::Ordering {
        a.to_lowercase().cmp(&b.to_lowercase())
    }
}

#[test]
fn custom_strategy_ignoring_case() {
    let sources = vec![
        vec!["aa".to_string(), "bb".to_string()],
        vec!["AA".to_string(), "BB".to_string()],
    ];
    let out = Tournament::from_iters(sources, CompareIgnoringCase {}).collect_all();
    assert_eq!(out, vec!["aa", "AA", "bb", "BB"]);
}

#[test]
fn custom_strategy_matches_sort_by_projection() {
    let sources = vec![
        vec!["apple".to_string(), "Cherry".to_string(), "pear".to_string()],
        vec!["Banana".to_string(), "cherry".to_string()],
        vec![],
        vec!["APPLE".to_string(), "fig".to_string(), "Zucchini".to_string()],
    ];
    let out = Tournament::from_iters(sources.clone(), CompareIgnoringCase {}).collect_all();
    let lowered = out.iter().map(|s| s.to_lowercase()).collect::<Vec<_>>();
    let mut expected = sources.iter().flatten().map(|s| s.to_lowercase()).collect::<Vec<_>>();
    expected.sort();
    assert_eq!(lowered, expected);
    let mut sorted_out = out.clone();
    sorted_out.sort();
    let mut all = sources.into_iter().flatten().collect::<Vec<_>>();
    all.sort();
    assert_eq!(sorted_out, all);
}

#[test]
fn built_in_strategies() {
    let min = MinComparator::<u64>::default();
    let max = MaxComparator::<u64>::default();
    assert_eq!(min.cmp(&1, &2), core::cmp::Ordering::Less);
    assert_eq!(min.cmp(&2, &2), core::cmp::Ordering::Equal);
    assert_eq!(max.cmp(&1, &2), core::cmp::Ordering::Greater);
    assert_eq!(max.cmp(&3, &2), core::cmp::Ordering::Less);
}
