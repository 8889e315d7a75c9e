use bucket_archiver::archive::{archive_file_name, plan_archives};
use bucket_archiver::grouping::{group_by_size, THRESHOLD};

const MIB: u64 = 1024 * 1024;

#[test]
fn three_files_of_400_mib_make_two_groups() {
    let sizes = vec![400 * MIB, 400 * MIB, 400 * MIB];
    assert_eq!(group_by_size(&sizes), vec![vec![0, 1], vec![2]]);
    let plans = plan_archives("bucket", &sizes);
    assert_eq!(plans.len(), 2);
    assert_eq!(plans[0].file_name, "bucket_000.zip");
    assert_eq!(plans[0].members, vec![0, 1]);
    assert_eq!(plans[1].file_name, "bucket_001.zip");
    assert_eq!(plans[1].members, vec![2]);
}

#[test]
fn single_oversized_file_stands_alone() {
    let sizes = vec![2048 * MIB];
    assert_eq!(group_by_size(&sizes), vec![vec![0]]);
    let plans = plan_archives("bucket", &sizes);
    assert_eq!(plans.len(), 1);
    assert_eq!(plans[0].file_name, "bucket_000.zip");
    assert_eq!(plans[0].members, vec![0]);
}

#[test]
fn oversized_file_between_small_ones() {
    let sizes = vec![10, 2048 * MIB, 10, 20];
    assert_eq!(group_by_size(&sizes), vec![vec![0], vec![1], vec![2, 3]]);
}

#[test]
fn no_files_make_one_empty_group() {
    let sizes: Vec<u64> = Vec::new();
    assert_eq!(group_by_size(&sizes), vec![Vec::<usize>::new()]);
    let plans = plan_archives("empty", &sizes);
    assert_eq!(plans.len(), 1);
    assert_eq!(plans[0].file_name, "empty_000.zip");
    assert!(plans[0].members.is_empty());
}

#[test]
fn group_filled_exactly_to_threshold_stays_open() {
    let sizes = vec![THRESHOLD / 2, THRESHOLD / 2, 0, 1];
    assert_eq!(group_by_size(&sizes), vec![vec![0, 1, 2], vec![3]]);
}

#[test]
fn largest_sizes_do_not_overflow() {
    let sizes = vec![u64::MAX, u64::MAX, 0];
    assert_eq!(group_by_size(&sizes), vec![vec![0], vec![1], vec![2]]);
}

#[test]
fn groups_stay_within_threshold_and_cover_every_file() {
    let sizes = vec![
        300 * MIB, 500 * MIB, 300 * MIB, 1500 * MIB, 1, 1023 * MIB, 7, 0, 900 * MIB, 124 * MIB,
    ];
    let groups = group_by_size(&sizes);
    let mut seen: Vec<usize> = Vec::new();
    let mut total: u128 = 0;
    for (k, group) in groups.iter().enumerate() {
        let size: u128 = group.iter().map(|&i| sizes[i] as u128).sum();
        assert!(size <= THRESHOLD as u128 || (group.len() == 1 && sizes[group[0]] > THRESHOLD));
        if k + 1 < groups.len() {
            let next_first = groups[k + 1][0];
            assert!(size + sizes[next_first] as u128 > THRESHOLD as u128);
        }
        total += size;
        seen.extend(group.iter().copied());
    }
    assert_eq!(seen, (0..sizes.len()).collect::<Vec<usize>>());
    assert_eq!(total, sizes.iter().map(|&s| s as u128).sum::<u128>());
}

#[test]
fn grouping_is_the_same_on_every_run() {
    let sizes = vec![700 * MIB, 200 * MIB, 300 * MIB, 100, 1100 * MIB, 5];
    let first = plan_archives("b", &sizes);
    let second = plan_archives("b", &sizes);
    assert_eq!(first.len(), second.len());
    for (a, b) in first.iter().zip(second.iter()) {
        assert_eq!(a.file_name, b.file_name);
        assert_eq!(a.members, b.members);
    }
    assert_eq!(group_by_size(&sizes), group_by_size(&sizes));
}

#[test]
fn archive_names_are_padded_to_three_digits() {
    assert_eq!(archive_file_name("bkt", 0), "bkt_000.zip");
    assert_eq!(archive_file_name("bkt", 7), "bkt_007.zip");
    assert_eq!(archive_file_name("bkt", 42), "bkt_042.zip");
    assert_eq!(archive_file_name("bkt", 123), "bkt_123.zip");
    assert_eq!(archive_file_name("bkt", 1234), "bkt_1234.zip");
    assert_eq!(archive_file_name("", 10), "_010.zip");
}
