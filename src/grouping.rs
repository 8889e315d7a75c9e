use vstd::prelude::*;

verus! {

/// Largest total byte size of the files that go into one archive (1 GiB),
/// unless a single file is larger on its own.
pub const THRESHOLD: u64 = 1073741824;

/// The files `0 .. n` as the greedy pass has seen them: the groups closed so
/// far, the open group, and the byte total of the open group.
pub open spec fn grouping_after(sizes: Seq<u64>, n: nat) -> (Seq<Seq<usize>>, Seq<usize>, int)
    decreases n,
{
    if n == 0 {
        (Seq::empty(), Seq::empty(), 0)
    } else {
        let (closed, current, total) = grouping_after(sizes, (n - 1) as nat);
        let size = sizes[n - 1] as int;
        if total + size > THRESHOLD as int && current.len() > 0 {
            (closed.push(current), seq![(n - 1) as usize], size)
        } else {
            (closed, current.push((n - 1) as usize), total + size)
        }
    }
}

/// The groups of the greedy first-fit-by-arrival pass over `sizes`: files are
/// taken in order, and a new group is opened only when the next file would
/// push a non-empty group over `THRESHOLD`. The last group is closed even when
/// it is empty.
pub open spec fn greedy_groups(sizes: Seq<u64>) -> Seq<Seq<usize>> {
    let (closed, current, _total) = grouping_after(sizes, sizes.len());
    closed.push(current)
}

/// Total byte size of the files whose positions `group` lists.
pub open spec fn group_size(sizes: Seq<u64>, group: Seq<usize>) -> int
    decreases group.len(),
{
    if group.len() == 0 {
        0
    } else {
        group_size(sizes, group.drop_last()) + sizes[group.last() as int] as int
    }
}

/// Total byte size of the first `n` files.
pub open spec fn prefix_size(sizes: Seq<u64>, n: nat) -> int
    decreases n,
{
    if n == 0 {
        0
    } else {
        prefix_size(sizes, (n - 1) as nat) + sizes[n - 1] as int
    }
}

/// Sum of the byte sizes of all groups.
pub open spec fn groups_size(sizes: Seq<u64>, groups: Seq<Seq<usize>>) -> int
    decreases groups.len(),
{
    if groups.len() == 0 {
        0
    } else {
        groups_size(sizes, groups.drop_last()) + group_size(sizes, groups.last())
    }
}

/// The positions listed by the groups, one group after the other.
pub open spec fn concat_groups(groups: Seq<Seq<usize>>) -> Seq<usize>
    decreases groups.len(),
{
    if groups.len() == 0 {
        Seq::empty()
    } else {
        concat_groups(groups.drop_last()) + groups.last()
    }
}

/// A group that stays within the threshold, or holds one file that alone
/// exceeds it.
pub open spec fn group_within_threshold(sizes: Seq<u64>, group: Seq<usize>) -> bool {
    group_size(sizes, group) <= THRESHOLD as int || (group.len() == 1 && sizes[group[0] as int]
        > THRESHOLD)
}

/// The positions `0 .. n` in order.
pub open spec fn positions(n: nat) -> Seq<usize> {
    Seq::new(n, |i: int| i as usize)
}

/// Whether each group but the last was closed only because the first file of
/// the group after it would have pushed it over `THRESHOLD`.
pub open spec fn opened_lazily(sizes: Seq<u64>, groups: Seq<Seq<usize>>) -> bool {
    forall|k: int|
        0 <= k < groups.len() - 1 ==> {
            &&& #[trigger] groups[k + 1].len() > 0
            &&& group_size(sizes, groups[k]) + sizes[groups[k + 1][0] as int] > THRESHOLD as int
        }
}

/// What holds of the state of the greedy pass after each file.
proof fn lemma_grouping_state(sizes: Seq<u64>, n: nat)
    requires
        n <= sizes.len(),
        sizes.len() <= usize::MAX,
    ensures
        ({
            let (closed, current, total) = grouping_after(sizes, n);
            &&& total == group_size(sizes, current)
            &&& current.len() == 0 ==> n == 0
            &&& group_within_threshold(sizes, current)
            &&& forall|k: int|
                0 <= k < closed.len() ==> #[trigger] group_within_threshold(sizes, closed[k])
            &&& opened_lazily(sizes, closed.push(current))
            &&& concat_groups(closed) + current == positions(n)
            &&& groups_size(sizes, closed) + total == prefix_size(sizes, n)
        }),
    decreases n,
{
    if n > 0 {
        let m = (n - 1) as nat;
        lemma_grouping_state(sizes, m);
        let (closed, current, total) = grouping_after(sizes, m);
        let x = m as usize;
        let size = sizes[m as int] as int;
        assert(positions(n) =~= positions(m).push(x));
        assert(seq![x].drop_last() =~= Seq::<usize>::empty());
        assert(seq![x].last() == x);
        assert(x as int == m as int);
        assert(seq![x].len() == 1);
        assert(group_size(sizes, Seq::<usize>::empty()) == 0);
        assert(group_size(sizes, seq![x]) == size);
        if total + size > THRESHOLD as int && current.len() > 0 {
            let closed2 = closed.push(current);
            assert(closed2.drop_last() =~= closed);
            assert(concat_groups(closed2) == concat_groups(closed) + current);
            assert(concat_groups(closed2) + seq![x] =~= positions(n));
            assert(groups_size(sizes, closed2) == groups_size(sizes, closed) + total);
            let all = closed2.push(seq![x]);
            assert forall|k: int| 0 <= k < all.len() - 1 implies {
                &&& #[trigger] all[k + 1].len() > 0
                &&& group_size(sizes, all[k]) + sizes[all[k + 1][0] as int] > THRESHOLD as int
            } by {
                if k < closed2.len() - 1 {
                    assert(all[k] == closed.push(current)[k]);
                    assert(all[k + 1] == closed.push(current)[k + 1]);
                }
            }
            assert forall|k: int| 0 <= k < closed2.len() implies #[trigger]
                group_within_threshold(sizes, closed2[k]) by {
                if k < closed.len() {
                    assert(closed2[k] == closed[k]);
                }
            }
        } else {
            let current2 = current.push(x);
            assert(current2.drop_last() =~= current);
            assert(concat_groups(closed) + current2 =~= positions(n));
            if current.len() == 0 {
                assert(current2 =~= seq![x]);
            }
            let all = closed.push(current2);
            let before = closed.push(current);
            assert forall|k: int| 0 <= k < all.len() - 1 implies {
                &&& #[trigger] all[k + 1].len() > 0
                &&& group_size(sizes, all[k]) + sizes[all[k + 1][0] as int] > THRESHOLD as int
            } by {
                assert(all[k] == before[k]);
                if k + 1 < closed.len() {
                    assert(all[k + 1] == before[k + 1]);
                } else {
                    assert(before[k + 1] == current);
                    assert(current2[0] == current[0]);
                }
            }
        }
    } else {
        assert(positions(0) =~= Seq::<usize>::empty());
        assert(concat_groups(Seq::<Seq<usize>>::empty()) + Seq::<usize>::empty() =~= Seq::<
            usize,
        >::empty());
    }
}

/// Every group stays within `THRESHOLD`, unless it holds a single file whose
/// size alone exceeds it.
pub proof fn lemma_groups_within_threshold(sizes: Seq<u64>)
    requires
        sizes.len() <= usize::MAX,
    ensures
        forall|k: int|
            0 <= k < greedy_groups(sizes).len() ==> #[trigger] group_within_threshold(
                sizes,
                greedy_groups(sizes)[k],
            ),
{
    lemma_grouping_state(sizes, sizes.len());
    let (closed, current, total) = grouping_after(sizes, sizes.len());
    assert forall|k: int| 0 <= k < greedy_groups(sizes).len() implies #[trigger]
        group_within_threshold(sizes, greedy_groups(sizes)[k]) by {
        if k < closed.len() {
            assert(greedy_groups(sizes)[k] == closed[k]);
        }
    }
}

/// A new group is opened only when needed: each group but the last, with the
/// first file of the next group added, would exceed `THRESHOLD`.
pub proof fn lemma_groups_opened_lazily(sizes: Seq<u64>)
    requires
        sizes.len() <= usize::MAX,
    ensures
        opened_lazily(sizes, greedy_groups(sizes)),
{
    lemma_grouping_state(sizes, sizes.len());
}

/// The groups list every file exactly once, in directory order, and their
/// sizes add up to the size of all the files.
pub proof fn lemma_groups_partition_files(sizes: Seq<u64>)
    requires
        sizes.len() <= usize::MAX,
    ensures
        concat_groups(greedy_groups(sizes)) == positions(sizes.len()),
        groups_size(sizes, greedy_groups(sizes)) == prefix_size(sizes, sizes.len()),
{
    lemma_grouping_state(sizes, sizes.len());
    let (closed, current, total) = grouping_after(sizes, sizes.len());
    assert(greedy_groups(sizes).drop_last() =~= closed);
}

/// Partitions files, given by their byte sizes in directory order, into the
/// groups of the greedy pass; each group lists the positions of its files.
pub fn group_by_size(sizes: &Vec<u64>) -> (groups: Vec<Vec<usize>>)
    ensures
        groups.deep_view() == greedy_groups(sizes@),
{
    let mut groups: Vec<Vec<usize>> = Vec::new();
    let mut current: Vec<usize> = Vec::new();
    let mut total: u64 = 0;
    let mut i: usize = 0;
    while i < sizes.len()
        invariant
            i <= sizes.len(),
            grouping_after(sizes@, i as nat) == (groups.deep_view(), current@, total as int),
            current.len() == 0 ==> total == 0,
        decreases sizes.len() - i,
    {
        let size = sizes[i];
        if !current.is_empty() && (total > THRESHOLD || size > THRESHOLD - total) {
            let ghost before = groups.deep_view();
            let ghost closing = current@;
            assert(current.deep_view() =~= closing);
            groups.push(current);
            assert(groups.deep_view() =~= before.push(closing));
            current = Vec::new();
            current.push(i);
            total = size;
        } else {
            current.push(i);
            total = total + size;
        }
        i = i + 1;
    }
    let ghost before = groups.deep_view();
    let ghost closing = current@;
    assert(current.deep_view() =~= closing);
    groups.push(current);
    assert(groups.deep_view() =~= before.push(closing));
    groups
}

} // verus!
