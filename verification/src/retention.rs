//! Bounded retention of local archives: keep the newest few regular files of
//! a directory and name the rest for deletion.

use vstd::prelude::*;

verus! {

/// How many of the most recently modified files a directory keeps.
pub const RETENTION_WINDOW: usize = 3;

/// One immediate entry of a directory, as a scan of it reports.
#[derive(Debug, PartialEq, Eq)]
pub struct DirEntry {
    /// Where the entry lives.
    pub path: String,
    /// Whether the entry is a regular file rather than a directory.
    pub is_file: bool,
    /// Length of the entry in bytes.
    pub size: u64,
    /// When the entry was last modified, in nanoseconds since 1970-01-01;
    /// negative before that.
    pub modified: i128,
}

/// An entry counts for retention when it is a regular file.
pub open spec fn is_regular() -> spec_fn(DirEntry) -> bool {
    |entry: DirEntry| entry.is_file
}

/// Number of regular files among `entries`.
pub open spec fn file_count(entries: Seq<DirEntry>) -> nat {
    entries.filter(is_regular()).len()
}

/// Entry `a` comes before entry `b` when the newest come first: it was
/// modified later, or at the same instant and the scan met it earlier.
pub open spec fn precedes(entries: Seq<DirEntry>, a: int, b: int) -> bool {
    entries[a].modified > entries[b].modified || (entries[a].modified == entries[b].modified && a
        < b)
}

/// `order` lists the places of the regular files of `entries`, each of them
/// once, from the most recently modified to the least, files of one instant
/// in the order of the scan.
pub open spec fn is_newest_first(entries: Seq<DirEntry>, order: Seq<usize>) -> bool {
    &&& forall|k: int|
        0 <= k < order.len() ==> (#[trigger] order[k]) < entries.len()
            && entries[order[k] as int].is_file
    &&& forall|i: int|
        0 <= i < entries.len() && (#[trigger] entries[i]).is_file ==> exists|k: int|
            0 <= k < order.len() && #[trigger] order[k] == i
    &&& forall|a: int, b: int|
        0 <= a < b < order.len() ==> precedes(
            entries,
            #[trigger] order[a] as int,
            #[trigger] order[b] as int,
        )
}

/// What becomes of the regular files of a directory: places in the scan of
/// those that stay and of those that go, each list newest first.
#[derive(Debug, PartialEq, Eq)]
pub struct PrunePlan {
    /// Files that stay.
    pub keep: Vec<usize>,
    /// Files to delete, in the order in which to delete them.
    pub delete: Vec<usize>,
}

/// The places of the regular files of `entries`, newest first.
pub fn newest_first(entries: &Vec<DirEntry>) -> (order: Vec<usize>)
    ensures
        is_newest_first(entries@, order@),
        order@.len() == file_count(entries@),
{
    let mut order: Vec<usize> = Vec::new();
    let mut i: usize = 0;
    while i < entries.len()
        invariant
            i <= entries.len(),
            order@.len() == file_count(entries@.take(i as int)),
            forall|k: int|
                0 <= k < order.len() ==> (#[trigger] order[k]) < i && entries[order[k] as int].is_file,
            forall|j: int|
                0 <= j < i && (#[trigger] entries[j]).is_file ==> exists|k: int|
                    0 <= k < order.len() && #[trigger] order[k] == j,
            forall|a: int, b: int|
                0 <= a < b < order.len() ==> precedes(
                    entries@,
                    #[trigger] order[a] as int,
                    #[trigger] order[b] as int,
                ),
        decreases entries.len() - i,
    {
        proof {
            assert(entries@.take(i + 1) == entries@.take(i as int).push(entries[i as int]));
            entries@.take(i as int).lemma_filter_push(entries[i as int], is_regular());
        }
        if entries[i].is_file {
            let mut at: usize = 0;
            while at < order.len() && entries[order[at]].modified >= entries[i].modified
                invariant
                    i < entries.len(),
                    at <= order.len(),
                    forall|k: int| 0 <= k < order.len() ==> (#[trigger] order[k]) < i,
                    forall|k: int|
                        0 <= k < at ==> entries[(#[trigger] order[k]) as int].modified
                            >= entries[i as int].modified,
                decreases order.len() - at,
            {
                at += 1;
            }
            let ghost before = order@;
            order.insert(at, i);
            proof {
                assert forall|j: int| 0 <= j <= i && (#[trigger] entries[j]).is_file implies exists|
                    k: int,
                | 0 <= k < order.len() && #[trigger] order[k] == j by {
                    if j == i {
                        assert(order[at as int] == i);
                    } else {
                        let k = choose|k: int| 0 <= k < before.len() && #[trigger] before[k] == j;
                        if k < at {
                            assert(order[k] == j);
                        } else {
                            assert(order[k + 1] == j);
                        }
                    }
                }
                assert forall|a: int, b: int| 0 <= a < b < order.len() implies precedes(
                    entries@,
                    #[trigger] order[a] as int,
                    #[trigger] order[b] as int,
                ) by {
                    if b < at {
                        assert(order[a] == before[a] && order[b] == before[b]);
                    } else if b == at {
                        assert(order[a] == before[a]);
                    } else if a < at {
                        assert(order[a] == before[a] && order[b] == before[b - 1]);
                    } else if a == at {
                        assert(order[b] == before[b - 1]);
                        if at < b - 1 {
                            assert(precedes(entries@, before[at as int] as int, before[b - 1] as int));
                        }
                    } else {
                        assert(order[a] == before[a - 1] && order[b] == before[b - 1]);
                    }
                }
            }
        }
        i += 1;
    }
    assert(entries@.take(entries.len() as int) == entries@);
    order
}

/// Decides which regular files of a scanned directory stay and which go.
///
/// The `RETENTION_WINDOW` most recently modified regular files stay; of files
/// modified at the same instant the one that the scan met first counts as
/// the newer. All other regular files go. Directories are passed over: they
/// are neither counted nor named in the plan.
pub fn prune(entries: &Vec<DirEntry>) -> (plan: PrunePlan)
    ensures
        is_newest_first(entries@, plan.keep@ + plan.delete@),
        file_count(entries@) <= RETENTION_WINDOW ==> plan.keep@.len() == file_count(entries@)
            && plan.delete@.len() == 0,
        file_count(entries@) > RETENTION_WINDOW ==> plan.keep@.len() == RETENTION_WINDOW
            && plan.delete@.len() == file_count(entries@) - RETENTION_WINDOW,
        forall|k: int, d: int|
            0 <= k < plan.keep@.len() && 0 <= d < plan.delete@.len() ==> precedes(
                entries@,
                #[trigger] plan.keep@[k] as int,
                #[trigger] plan.delete@[d] as int,
            ),
{
    let mut keep = newest_first(entries);
    let ghost order = keep@;
    let delete = if keep.len() > RETENTION_WINDOW {
        keep.split_off(RETENTION_WINDOW)
    } else {
        Vec::new()
    };
    proof {
        assert(keep@ + delete@ == order);
        assert forall|k: int, d: int| 0 <= k < keep@.len() && 0 <= d < delete@.len() implies precedes(
            entries@,
            #[trigger] keep@[k] as int,
            #[trigger] delete@[d] as int,
        ) by {
            assert(keep@[k] == order[k]);
            assert(delete@[d] == order[RETENTION_WINDOW + d]);
        }
    }
    PrunePlan { keep, delete }
}

/// Two newest-first orders of one scan agree on their first `n` places.
proof fn lemma_orders_agree(entries: Seq<DirEntry>, first: Seq<usize>, second: Seq<usize>, n: int)
    requires
        is_newest_first(entries, first),
        is_newest_first(entries, second),
        0 <= n <= first.len(),
        n <= second.len(),
    ensures
        forall|k: int| 0 <= k < n ==> first[k] == second[k],
    decreases n,
{
    if n > 0 {
        lemma_orders_agree(entries, first, second, n - 1);
        let x = first[n - 1];
        let y = second[n - 1];
        assert(entries[x as int].is_file);
        assert(entries[y as int].is_file);
        let p = choose|p: int| 0 <= p < second.len() && #[trigger] second[p] == x;
        let q = choose|q: int| 0 <= q < first.len() && #[trigger] first[q] == y;
        if p < n - 1 {
            assert(precedes(entries, first[p] as int, first[n - 1] as int));
        } else if q < n - 1 {
            assert(precedes(entries, second[q] as int, second[n - 1] as int));
        } else if p > n - 1 && q > n - 1 {
            assert(precedes(entries, second[n - 1] as int, second[p] as int));
            assert(precedes(entries, first[n - 1] as int, first[q] as int));
        }
    }
}

/// A scan has one newest-first order only: the contract of [`newest_first`]
/// and of [`prune`] leaves no choice.
pub proof fn lemma_newest_first_unique(
    entries: Seq<DirEntry>,
    first: Seq<usize>,
    second: Seq<usize>,
)
    requires
        is_newest_first(entries, first),
        is_newest_first(entries, second),
    ensures
        first == second,
{
    if first.len() < second.len() {
        lemma_orders_agree(entries, first, second, first.len() as int);
        let y = second[first.len() as int];
        assert(entries[y as int].is_file);
        let q = choose|q: int| 0 <= q < first.len() && #[trigger] first[q] == y;
        assert(precedes(entries, second[q] as int, second[first.len() as int] as int));
    } else if second.len() < first.len() {
        lemma_orders_agree(entries, first, second, second.len() as int);
        let x = first[second.len() as int];
        assert(entries[x as int].is_file);
        let p = choose|p: int| 0 <= p < second.len() && #[trigger] second[p] == x;
        assert(precedes(entries, first[p] as int, first[second.len() as int] as int));
    } else {
        lemma_orders_agree(entries, first, second, first.len() as int);
        assert(first =~= second);
    }
}

/// Number of regular files among the first `i` entries.
pub open spec fn files_before(entries: Seq<DirEntry>, i: int) -> nat {
    file_count(entries.take(i))
}

/// One entry further on, the count of files grows by one at a regular file
/// and not at all at a directory.
proof fn lemma_files_before_step(entries: Seq<DirEntry>, i: int)
    requires
        0 <= i < entries.len(),
    ensures
        files_before(entries, i + 1) == files_before(entries, i) + (if entries[i].is_file {
            1nat
        } else {
            0nat
        }),
{
    assert(entries.take(i + 1) == entries.take(i).push(entries[i]));
    entries.take(i).lemma_filter_push(entries[i], is_regular());
}

/// The count of files before a place never shrinks along the scan.
proof fn lemma_files_before_grows(entries: Seq<DirEntry>, i: int, j: int)
    requires
        0 <= i <= j <= entries.len(),
    ensures
        files_before(entries, i) <= files_before(entries, j),
    decreases j - i,
{
    if i < j {
        lemma_files_before_grows(entries, i, j - 1);
        lemma_files_before_step(entries, j - 1);
    }
}

/// A regular file stands, among the regular files alone, at the place given
/// by the number of regular files before it.
proof fn lemma_file_place(entries: Seq<DirEntry>, i: int)
    requires
        0 <= i < entries.len(),
        entries[i].is_file,
    ensures
        files_before(entries, i) <= i,
        files_before(entries, i) < file_count(entries),
        entries.filter(is_regular())[files_before(entries, i) as int] == entries[i],
{
    let upto = entries.take(i + 1);
    let rest = entries.skip(i + 1);
    lemma_files_before_step(entries, i);
    assert(upto == entries.take(i).push(entries[i]));
    entries.take(i).lemma_filter_push(entries[i], is_regular());
    entries.take(i).lemma_filter_len(is_regular());
    assert(entries == upto + rest);
    Seq::filter_distributes_over_add(upto, rest, is_regular());
}

/// Every place among the first regular files belongs to one of the first
/// `n` entries.
proof fn lemma_place_has_file(entries: Seq<DirEntry>, place: int, n: int)
    requires
        0 <= n <= entries.len(),
        0 <= place < files_before(entries, n),
    ensures
        exists|i: int|
            0 <= i < n && (#[trigger] entries[i]).is_file && files_before(entries, i) == place,
    decreases n,
{
    if n == 0 {
        assert(entries.take(0).filter(is_regular()).len() == 0) by {
            entries.take(0).lemma_filter_len(is_regular());
        }
    } else {
        lemma_files_before_step(entries, n - 1);
        if place < files_before(entries, n - 1) {
            lemma_place_has_file(entries, place, n - 1);
        } else {
            assert(entries[n - 1].is_file && files_before(entries, n - 1) == place);
        }
    }
}

/// Directories do not matter: the newest-first order of a scan names the
/// same files, place by place, as the newest-first order of the scan with
/// its directories taken out.
pub proof fn lemma_directories_do_not_matter(
    entries: Seq<DirEntry>,
    order: Seq<usize>,
    bare: Seq<usize>,
)
    requires
        is_newest_first(entries, order),
        is_newest_first(entries.filter(is_regular()), bare),
    ensures
        order.len() == bare.len(),
        forall|k: int|
            0 <= k < order.len() ==> entries[(#[trigger] order[k]) as int] == entries.filter(
                is_regular(),
            )[bare[k] as int],
{
    let files = entries.filter(is_regular());
    let moved = Seq::new(order.len(), |k: int| files_before(entries, order[k] as int) as usize);
    assert forall|k: int| 0 <= k < moved.len() implies (#[trigger] moved[k]) < files.len()
        && files[moved[k] as int].is_file && files[moved[k] as int] == entries[order[k] as int] by {
        lemma_file_place(entries, order[k] as int);
    }
    assert forall|j: int| 0 <= j < files.len() && (#[trigger] files[j]).is_file implies exists|
        k: int,
    | 0 <= k < moved.len() && #[trigger] moved[k] == j by {
        assert(entries.take(entries.len() as int) == entries);
        lemma_place_has_file(entries, j, entries.len() as int);
        let i = choose|i: int|
            0 <= i < entries.len() && (#[trigger] entries[i]).is_file && files_before(entries, i)
                == j;
        let k = choose|k: int| 0 <= k < order.len() && #[trigger] order[k] == i;
        assert(moved[k] == j);
    }
    assert forall|a: int, b: int| 0 <= a < b < moved.len() implies precedes(
        files,
        #[trigger] moved[a] as int,
        #[trigger] moved[b] as int,
    ) by {
        let (x, y) = (order[a] as int, order[b] as int);
        assert(precedes(entries, x, y));
        lemma_file_place(entries, x);
        lemma_file_place(entries, y);
        if x < y {
            lemma_files_before_step(entries, x);
            lemma_files_before_grows(entries, x + 1, y);
        }
    }
    lemma_newest_first_unique(files, moved, bare);
}

} // verus!
