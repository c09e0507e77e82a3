use puzzles::compositions::Permutations;

fn all_of(maxes: Vec<u32>, total: u32) -> Vec<Vec<u32>> {
    let mut p = Permutations::new(maxes, total);
    let mut out = Vec::new();
    while let Some(c) = p.next() {
        out.push(c);
    }
    assert_eq!(p.next(), None);
    out
}

fn brute(maxes: &[u32], total: u32) -> Vec<Vec<u32>> {
    let mut out = vec![vec![]];
    for m in maxes {
        let mut next = Vec::new();
        for prefix in &out {
            for v in 0..=*m {
                let mut c: Vec<u32> = prefix.clone();
                c.push(v);
                next.push(c);
            }
        }
        out = next;
    }
    out.retain(|c| c.iter().sum::<u32>() == total);
    out
}

#[test]
fn enumerator_yields_by_decreasing_first_slot() {
    assert_eq!(
        all_of(vec![2, 2], 3),
        vec![vec![2, 1], vec![1, 2]],
    );
    assert_eq!(
        all_of(vec![3, 1, 2], 3),
        vec![vec![3, 0, 0], vec![2, 1, 0], vec![2, 0, 1], vec![1, 1, 1], vec![1, 0, 2], vec![0, 1, 2]],
    );
}

#[test]
fn enumerator_is_complete_and_without_duplicates() {
    for (maxes, total) in [(vec![2u32, 2, 2], 3u32), (vec![1, 4, 0, 2], 4), (vec![5], 3), (vec![3, 3], 0), (vec![1, 1], 3)] {
        let mut got = all_of(maxes.clone(), total);
        let mut want = brute(&maxes, total);
        let count = got.len();
        got.sort();
        got.dedup();
        want.sort();
        assert_eq!(got.len(), count);
        assert_eq!(got, want);
    }
}

#[test]
fn enumerator_counts_match_the_closed_form() {
    assert_eq!(all_of(vec![2, 2, 2], 3).len(), 7);
    assert_eq!(all_of(vec![9, 9, 9], 4).len(), 15);
    assert_eq!(all_of(vec![1, 1, 1, 1], 2).len(), 6);
}

#[test]
fn enumerator_edge_cases() {
    assert_eq!(all_of(vec![], 0), vec![Vec::<u32>::new()]);
    assert_eq!(all_of(vec![], 1), Vec::<Vec<u32>>::new());
    assert_eq!(all_of(vec![0, 0], 0), vec![vec![0, 0]]);
    assert_eq!(all_of(vec![2], 3), Vec::<Vec<u32>>::new());
}

#[test]
fn enumerator_restarts_from_the_start() {
    let first = all_of(vec![2, 1, 2], 3);
    let second = all_of(vec![2, 1, 2], 3);
    assert_eq!(first, second);
}
