use vstd::prelude::*;
use crate::grouping::{greedy_groups, group_by_size};

verus! {

/// The decimal digit character for `d < 10`.
pub open spec fn digit_char(d: nat) -> char {
    if d == 0 {
        '0'
    } else if d == 1 {
        '1'
    } else if d == 2 {
        '2'
    } else if d == 3 {
        '3'
    } else if d == 4 {
        '4'
    } else if d == 5 {
        '5'
    } else if d == 6 {
        '6'
    } else if d == 7 {
        '7'
    } else if d == 8 {
        '8'
    } else {
        '9'
    }
}

/// The decimal form of `n`, without leading zeros.
pub open spec fn decimal(n: nat) -> Seq<char>
    decreases n,
{
    if n < 10 {
        seq![digit_char(n)]
    } else {
        decimal(n / 10) + seq![digit_char(n % 10)]
    }
}

/// The decimal form of `n`, padded with zeros to at least three digits.
pub open spec fn decimal_padded3(n: nat) -> Seq<char> {
    if n < 10 {
        seq!['0', '0'] + decimal(n)
    } else if n < 100 {
        seq!['0'] + decimal(n)
    } else {
        decimal(n)
    }
}

/// The name of the archive at position `index` for the name prefix `prefix`:
/// `{prefix}_{index:03}.zip`.
pub open spec fn archive_name_of(prefix: Seq<char>, index: nat) -> Seq<char> {
    prefix + seq!['_'] + decimal_padded3(index) + seq!['.', 'z', 'i', 'p']
}

fn digit_str(d: usize) -> (r: &'static str)
    requires
        d < 10,
    ensures
        r@ == seq![digit_char(d as nat)],
{
    if d == 0 {
        proof { reveal_strlit("0"); }
        "0"
    } else if d == 1 {
        proof { reveal_strlit("1"); }
        "1"
    } else if d == 2 {
        proof { reveal_strlit("2"); }
        "2"
    } else if d == 3 {
        proof { reveal_strlit("3"); }
        "3"
    } else if d == 4 {
        proof { reveal_strlit("4"); }
        "4"
    } else if d == 5 {
        proof { reveal_strlit("5"); }
        "5"
    } else if d == 6 {
        proof { reveal_strlit("6"); }
        "6"
    } else if d == 7 {
        proof { reveal_strlit("7"); }
        "7"
    } else if d == 8 {
        proof { reveal_strlit("8"); }
        "8"
    } else {
        proof { reveal_strlit("9"); }
        "9"
    }
}

/// Appends the decimal form of `n` to `out`.
fn push_decimal(out: &mut String, n: usize)
    ensures
        final(out)@ == old(out)@ + decimal(n as nat),
    decreases n,
{
    if n >= 10 {
        push_decimal(out, n / 10);
    }
    out.append(digit_str(n % 10));
    if n >= 10 {
        assert(final(out)@ =~= old(out)@ + decimal(n as nat));
    } else {
        assert(final(out)@ =~= old(out)@ + decimal(n as nat));
    }
}

/// The file name of the archive at position `index`: `{prefix}_{index:03}.zip`.
pub fn archive_file_name(prefix: &str, index: usize) -> (r: String)
    ensures
        r@ == archive_name_of(prefix@, index as nat),
{
    let mut out = String::from_str(prefix);
    proof {
        reveal_strlit("_");
        reveal_strlit("00");
        reveal_strlit("0");
        reveal_strlit(".zip");
    }
    out.append("_");
    if index < 10 {
        out.append("00");
    } else if index < 100 {
        out.append("0");
    }
    push_decimal(&mut out, index);
    out.append(".zip");
    assert(out@ =~= archive_name_of(prefix@, index as nat));
    out
}

/// One archive to write: its file name, and the positions of the staged files
/// that go into it, in order.
#[derive(Debug)]
pub struct ArchivePlan {
    pub file_name: String,
    pub members: Vec<usize>,
}

/// Plans the archives for staged files given by their byte sizes in directory
/// order: one archive per group of the greedy pass, named after `prefix` and
/// the group's position.
pub fn plan_archives(prefix: &str, sizes: &Vec<u64>) -> (r: Vec<ArchivePlan>)
    ensures
        r.len() == greedy_groups(sizes@).len(),
        forall|k: int|
            0 <= k < r.len() ==> {
                &&& #[trigger] r[k].file_name@ == archive_name_of(prefix@, k as nat)
                &&& r[k].members@ == greedy_groups(sizes@)[k]
            },
{
    let groups = group_by_size(sizes);
    let ghost all = groups.deep_view();
    let mut plans: Vec<ArchivePlan> = Vec::new();
    let mut k: usize = 0;
    let n = groups.len();
    while k < n
        invariant
            n == groups.len(),
            all == greedy_groups(sizes@),
            k <= n,
            plans.len() == k,
            forall|a: int| k <= a < n ==> #[trigger] groups[a]@ == all[a],
            all.len() == n,
            forall|a: int|
                0 <= a < k ==> {
                    &&& #[trigger] plans[a].file_name@ == archive_name_of(prefix@, a as nat)
                    &&& plans[a].members@ == all[a]
                },
        decreases n - k,
    {
        let members = groups[k].clone();
        assert(members@ =~= groups[k as int]@);
        let file_name = archive_file_name(prefix, k);
        plans.push(ArchivePlan { file_name, members });
        k = k + 1;
    }
    plans
}

} // verus!
