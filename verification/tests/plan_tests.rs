use parget::plan::{split_range, split_range_for_host};

#[test]
fn split_range_even_split() {
    let r = split_range(1000, 4);
    assert_eq!(r, vec![(0, 250), (250, 500), (500, 750), (750, 1000)]);
}

#[test]
fn split_range_last_interval_absorbs_remainder() {
    let r = split_range(1001, 4);
    assert_eq!(r, vec![(0, 250), (250, 500), (500, 750), (750, 1001)]);
}

#[test]
fn split_range_small_size_coalesces_empty_intervals() {
    let r = split_range(3, 4);
    assert_eq!(r, vec![(0, 1), (1, 2), (2, 3)]);
    for &(b, e) in r.iter() {
        assert!(b < e);
    }
}

#[test]
fn split_range_empty_transfer_yields_no_intervals() {
    assert_eq!(split_range(0, 4), vec![]);
    assert_eq!(split_range(0, 1), vec![]);
}

#[test]
fn split_range_single_worker_takes_everything() {
    assert_eq!(split_range(17, 1), vec![(0, 17)]);
}

#[test]
fn split_range_is_a_partition() {
    for &size in &[0usize, 1, 2, 3, 7, 12, 100, 101, 1024, 4099] {
        for &workers in &[1usize, 2, 3, 4, 7, 8, 64] {
            let r = split_range(size, workers);
            let mut covered = vec![false; size];
            for &(b, e) in r.iter() {
                assert!(b < e, "empty interval in plan({size}, {workers})");
                assert!(e <= size);
                for slot in covered.iter_mut().take(e).skip(b) {
                    assert!(!*slot, "overlap in plan({size}, {workers})");
                    *slot = true;
                }
            }
            assert!(
                covered.iter().all(|&c| c),
                "hole in plan({size}, {workers})"
            );
        }
    }
}

#[test]
fn split_range_for_host_covers_the_size() {
    assert_eq!(split_range_for_host(0), vec![]);
    let r = split_range_for_host(1000);
    assert!(!r.is_empty());
    assert_eq!(r[0].0, 0);
    assert_eq!(r[r.len() - 1].1, 1000);
    for w in r.windows(2) {
        assert_eq!(w[0].1, w[1].0);
    }
}
