use rand::distributions::{Alphanumeric, DistString};
use tournament::{BufferSource, Comparator, StreamingTournament, Tournament};

fn random_sources(descending: bool) -> Vec<Vec<String>> {
    let mut rng = rand::thread_rng();
    (1..100)
        .map(|_| {
            (1..200)
                .map(|_| Alphanumeric.sample_string(&mut rng, 32))
                .collect::<Vec<_>>()
        })
        .map(|mut v| {
            if descending {
                v.sort_by(|a, b| b.cmp(a));
            } else {
                v.sort();
            }
            v
        })
        .collect::<Vec<_>>()
}

fn buffers<T: Clone>(vecs: &[Vec<T>]) -> Vec<BufferSource<T>> {
    vecs.iter().map(|v| BufferSource::new(v.clone())).collect()
}

fn drain<T: Clone, C: Comparator<T>>(t: &mut StreamingTournament<T, C>) -> Vec<T> {
    let mut out = Vec::new();
    t.advance();
    while let Some(x) = t.get() {
        out.push(x.clone());
        t.advance();
    }
    out
}

#[test]
fn streaming_tournament_test_min() {
    let vecs = random_sources(false);
    let tournament_result = drain(&mut StreamingTournament::from_iters_min(buffers(&vecs)));
    let mut sort_result = vecs.iter().flatten().cloned().collect::<Vec<_>>();
    sort_result.sort();
    assert_eq!(tournament_result, sort_result);
}

#[test]
fn streaming_tournament_test_max() {
    let vecs = random_sources(true);
    let tournament_result = drain(&mut StreamingTournament::from_iters_max(buffers(&vecs)));
    let mut sort_result = vecs.iter().flatten().cloned().collect::<Vec<_>>();
    sort_result.sort_by(|a, b| b.cmp(a));
    assert_eq!(tournament_result, sort_result);
}

#[test]
fn streaming_ascending_scenario() {
    let vecs = vec![vec![1u64, 3, 5], vec![2, 4], vec![0, 10]];
    let mut t = StreamingTournament::from_iters_min(buffers(&vecs));
    assert_eq!(drain(&mut t), vec![0, 1, 2, 3, 4, 5, 10]);
}

#[test]
fn streaming_descending_scenario() {
    let vecs = vec![vec![5u64, 3, 1], vec![4, 2], vec![10, 0]];
    let mut t = StreamingTournament::from_iters_max(buffers(&vecs));
    assert_eq!(drain(&mut t), vec![10, 5, 4, 3, 2, 1, 0]);
}

#[test]
fn streaming_empty_source_mixed_in() {
    let vecs: Vec<Vec<u64>> = vec![vec![], vec![1, 2], vec![1, 3]];
    let mut t = StreamingTournament::from_iters_min(buffers(&vecs));
    assert_eq!(drain(&mut t), vec![1, 1, 2, 3]);
}

#[test]
fn first_advance_only_starts() {
    let vecs = vec![vec![1u64, 3], vec![2]];
    let mut t = StreamingTournament::from_iters_min(buffers(&vecs));
    assert_eq!(t.get(), Some(&1));
    t.advance();
    assert_eq!(t.get(), Some(&1));
    t.advance();
    assert_eq!(t.get(), Some(&2));
    t.advance();
    assert_eq!(t.get(), Some(&3));
    t.advance();
    assert_eq!(t.get(), None);
}

#[test]
fn streaming_exhaustion_is_final() {
    let vecs = vec![vec![4u64]];
    let mut t = StreamingTournament::from_iters_min(buffers(&vecs));
    t.advance();
    assert_eq!(t.get(), Some(&4));
    for _ in 0..5 {
        t.advance();
        assert_eq!(t.get(), None);
    }
    assert_eq!(t.size_hint(), (0, Some(0)));
}

#[test]
fn streaming_matches_eager_in_lockstep() {
    let vecs: Vec<Vec<u64>> = vec![
        vec![0, 2, 2, 9, 40],
        vec![],
        vec![1, 2, 3],
        vec![2, 2, 100, 101],
    ];
    let mut eager = Tournament::from_iters_min(vecs.clone());
    let mut streaming = StreamingTournament::from_iters_min(buffers(&vecs));
    streaming.advance();
    loop {
        let e = eager.next();
        assert_eq!(e.as_ref(), streaming.get());
        if e.is_none() {
            break;
        }
        streaming.advance();
    }
}

#[test]
fn streaming_size_hint_counts_current_items() {
    let vecs = vec![vec![1u64, 3, 5], vec![2, 4], vec![], vec![0, 10]];
    let mut t = StreamingTournament::from_iters_min(buffers(&vecs));
    assert_eq!(t.size_hint(), (7, Some(7)));
    t.advance();
    assert_eq!(t.size_hint(), (7, Some(7)));
    t.advance();
    assert_eq!(t.size_hint(), (6, Some(6)));
}

#[test]
fn buffer_source_protocol() {
    let mut s = BufferSource::new(vec![7u64, 8]);
    assert_eq!(s.get(), None);
    assert_eq!(s.size_hint(), (2, Some(2)));
    s.advance();
    assert_eq!(s.get(), Some(&7));
    assert_eq!(s.size_hint(), (1, Some(1)));
    s.advance();
    assert_eq!(s.get(), Some(&8));
    assert_eq!(s.size_hint(), (0, Some(0)));
    s.advance();
    assert_eq!(s.get(), None);
    s.advance();
    assert_eq!(s.get(), None);
}
