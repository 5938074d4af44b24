//! Initial population of a permanent session: the files found by a scan of
//! the working directory, ordered newest first, discovery order breaking
//! ties in modification time.

use vstd::prelude::*;

use crate::mru::{
    contains_string, dedup_first, is_wf_path, lemma_dedup_first_distinct,
    lemma_dedup_first_membership, wf_path, MruList,
};

verus! {

broadcast use {
    vstd::seq_lib::lemma_seq_contains_after_push,
    vstd::seq_lib::lemma_seq_empty_contains_nothing,
    vstd::seq_lib::lemma_seq_concat_contains_all_elements,
};

/// How many directory entries the initial scan may consume before it stops.
pub const MAX_INITIAL_LOAD: u32 = 10000;

/// One regular file found by the scan: its path, and its last-modified
/// time in nanoseconds since the system epoch.
pub struct ScanEntry {
    /// The file's path, as discovered.
    pub path: String,
    /// The file's last-modified time, in nanoseconds since the epoch.
    pub mtime: u64,
}

/// A scan entry keyed for sorting: its position in discovery order makes
/// the ordering strict, so equal modification times keep discovery order.
pub struct SortItem {
    /// The file's path.
    pub path: String,
    /// The file's last-modified time.
    pub mtime: u64,
    /// The entry's position in discovery order.
    pub idx: usize,
}

/// Strict ordering of keyed entries: the more recently modified first, and
/// among equally recent ones, the one discovered earlier.
pub open spec fn precedes(a: SortItem, b: SortItem) -> bool {
    a.mtime > b.mtime || (a.mtime == b.mtime && a.idx < b.idx)
}

/// The scan's entries keyed by their discovery position.
pub open spec fn to_items(files: Seq<ScanEntry>) -> Seq<SortItem>
    decreases files.len(),
{
    if files.len() == 0 {
        Seq::empty()
    } else {
        to_items(files.drop_last()).push(
            SortItem {
                path: files.last().path,
                mtime: files.last().mtime,
                idx: (files.len() - 1) as usize,
            },
        )
    }
}

/// Insertion into a sorted sequence, before the first entry the inserted
/// one precedes.
pub open spec fn insert_sorted(x: SortItem, s: Seq<SortItem>) -> Seq<SortItem>
    decreases s.len(),
{
    if s.len() == 0 {
        seq![x]
    } else if precedes(x, s[0]) {
        seq![x] + s
    } else {
        seq![s[0]] + insert_sorted(x, s.drop_first())
    }
}

/// The keyed entries sorted by repeated insertion, in discovery order.
pub open spec fn sort_items(s: Seq<SortItem>) -> Seq<SortItem>
    decreases s.len(),
{
    if s.len() == 0 {
        Seq::empty()
    } else {
        insert_sorted(s.last(), sort_items(s.drop_last()))
    }
}

/// The paths of a sequence of keyed entries, in order.
pub open spec fn item_paths(s: Seq<SortItem>) -> Seq<Seq<char>>
    decreases s.len(),
{
    if s.len() == 0 {
        Seq::empty()
    } else {
        item_paths(s.drop_last()).push(s.last().path@)
    }
}

/// The well-formed paths among the given ones, in order.
pub open spec fn keep_wf(xs: Seq<Seq<char>>) -> Seq<Seq<char>>
    decreases xs.len(),
{
    if xs.len() == 0 {
        Seq::empty()
    } else {
        let rest = keep_wf(xs.drop_last());
        if wf_path(xs.last()) {
            rest.push(xs.last())
        } else {
            rest
        }
    }
}

/// What seeding a session denotes: the scanned paths in newest-first
/// order, ill-formed ones skipped, the first occurrence of each kept.
pub open spec fn initial_list_spec(files: Seq<ScanEntry>) -> Seq<Seq<char>> {
    dedup_first(keep_wf(item_paths(sort_items(to_items(files)))))
}

/// Whatever survives the well-formedness filter was in the input, and is a
/// well-formed path.
proof fn lemma_keep_wf_sub(xs: Seq<Seq<char>>)
    ensures
        forall|y: Seq<char>| #[trigger] keep_wf(xs).contains(y) ==> xs.contains(y) && wf_path(y),
    decreases xs.len(),
{
    if xs.len() > 0 {
        lemma_keep_wf_sub(xs.drop_last());
        assert(xs.drop_last().push(xs.last()) =~= xs);
        let rest = keep_wf(xs.drop_last());
        assert forall|y: Seq<char>| #[trigger] keep_wf(xs).contains(y) implies xs.contains(y)
            && wf_path(y) by {
            if wf_path(xs.last()) {
                assert(rest.push(xs.last()).contains(y));
            }
            if wf_path(xs.last()) && y == xs.last() {
                assert(xs[xs.len() - 1] == y);
            } else {
                assert(rest.contains(y));
                let i = choose|i: int| 0 <= i < xs.drop_last().len() && xs.drop_last()[i] == y;
                assert(xs[i] == y);
            }
        }
    }
}

/// Inserting at the first position whose entry the new one precedes is
/// what `insert_sorted` denotes.
proof fn lemma_insert_sorted_at(x: SortItem, s: Seq<SortItem>, j: int)
    requires
        0 <= j <= s.len(),
        forall|t: int| 0 <= t < j ==> !precedes(x, #[trigger] s[t]),
        j < s.len() ==> precedes(x, s[j]),
    ensures
        insert_sorted(x, s) == s.take(j) + seq![x] + s.skip(j),
    decreases j,
{
    if j == 0 {
        if s.len() == 0 {
            assert(insert_sorted(x, s) =~= s.take(0) + seq![x] + s.skip(0));
        } else {
            assert(precedes(x, s[0]));
            assert(seq![x] + s =~= s.take(0) + seq![x] + s.skip(0));
        }
    } else {
        assert(!precedes(x, s[0]));
        let t = s.drop_first();
        assert(forall|k: int| 0 <= k < j - 1 ==> t[k] == s[k + 1]);
        lemma_insert_sorted_at(x, t, j - 1);
        assert(seq![s[0]] + (t.take(j - 1) + seq![x] + t.skip(j - 1)) =~= s.take(j) + seq![x]
            + s.skip(j));
    }
}

/// A sequence in scan order: no later entry precedes an earlier one, so
/// modification times never increase, and equally recent entries keep
/// their discovery order.
pub open spec fn sorted_newest_first(s: Seq<SortItem>) -> bool {
    forall|i: int, j: int| 0 <= i < j < s.len() ==> !precedes(#[trigger] s[j], #[trigger] s[i])
}

proof fn lemma_insert_sorted_membership(x: SortItem, s: Seq<SortItem>)
    ensures
        insert_sorted(x, s).len() == s.len() + 1,
        forall|y: SortItem| #[trigger]
            insert_sorted(x, s).contains(y) <==> (y == x || s.contains(y)),
    decreases s.len(),
{
    if s.len() == 0 {
        assert forall|y: SortItem| #[trigger]
            insert_sorted(x, s).contains(y) <==> (y == x || s.contains(y)) by {
            assert(seq![x][0] == x);
            if y == x {
                assert(seq![x].contains(y));
            }
        }
    } else if precedes(x, s[0]) {
        assert forall|y: SortItem| #[trigger]
            insert_sorted(x, s).contains(y) <==> (y == x || s.contains(y)) by {
            assert(insert_sorted(x, s) == seq![x] + s);
            assert(seq![x].contains(y) <==> y == x) by {
                assert(seq![x][0] == x);
                if seq![x].contains(y) {
                    let k = choose|k: int| 0 <= k < 1 && seq![x][k] == y;
                }
            }
        }
    } else {
        lemma_insert_sorted_membership(x, s.drop_first());
        assert(seq![s[0]] + s.drop_first() =~= s);
        let rest = insert_sorted(x, s.drop_first());
        assert forall|y: SortItem| #[trigger]
            insert_sorted(x, s).contains(y) <==> (y == x || s.contains(y)) by {
            assert(insert_sorted(x, s) == seq![s[0]] + rest);
            assert(seq![s[0]].contains(y) <==> y == s[0]) by {
                assert(seq![s[0]][0] == s[0]);
                if seq![s[0]].contains(y) {
                    let k = choose|k: int| 0 <= k < 1 && seq![s[0]][k] == y;
                }
            }
            assert(s.contains(y) <==> (y == s[0] || s.drop_first().contains(y))) by {
                assert((seq![s[0]] + s.drop_first()).contains(y) <==> (seq![s[0]].contains(y)
                    || s.drop_first().contains(y)));
            }
        }
    }
}

proof fn lemma_insert_sorted_sorted(x: SortItem, s: Seq<SortItem>)
    requires
        sorted_newest_first(s),
    ensures
        sorted_newest_first(insert_sorted(x, s)),
    decreases s.len(),
{
    if s.len() == 0 {
    } else if precedes(x, s[0]) {
        let res = seq![x] + s;
        assert forall|i: int, j: int| 0 <= i < j < res.len() implies !precedes(
            #[trigger] res[j],
            #[trigger] res[i],
        ) by {
            if i == 0 {
                assert(res[j] == s[j - 1]);
                if precedes(s[j - 1], x) {
                    assert(precedes(s[j - 1], s[0]));
                    assert(!precedes(s[j - 1], s[0]));
                }
            } else {
                assert(res[i] == s[i - 1] && res[j] == s[j - 1]);
            }
        }
    } else {
        assert(sorted_newest_first(s.drop_first())) by {
            assert(forall|k: int| 0 <= k < s.len() - 1 ==> s.drop_first()[k] == s[k + 1]);
        }
        lemma_insert_sorted_sorted(x, s.drop_first());
        lemma_insert_sorted_membership(x, s.drop_first());
        let rest = insert_sorted(x, s.drop_first());
        let res = seq![s[0]] + rest;
        assert forall|i: int, j: int| 0 <= i < j < res.len() implies !precedes(
            #[trigger] res[j],
            #[trigger] res[i],
        ) by {
            if i == 0 {
                let y = rest[j - 1];
                assert(res[j] == y);
                assert(rest.contains(y));
                if y == x {
                    assert(!precedes(x, s[0]));
                } else {
                    assert(s.drop_first().contains(y));
                    let k = choose|k: int|
                        0 <= k < s.drop_first().len() && s.drop_first()[k] == y;
                    assert(s[k + 1] == y);
                    assert(!precedes(y, s[0]));
                }
            } else {
                assert(res[i] == rest[i - 1] && res[j] == rest[j - 1]);
            }
        }
    }
}

/// What sorting guarantees: the seeded order is newest first with ties in
/// discovery order, over exactly the scanned entries.
pub proof fn lemma_sort_items_newest_first(s: Seq<SortItem>)
    ensures
        sorted_newest_first(sort_items(s)),
        sort_items(s).len() == s.len(),
        forall|y: SortItem| #[trigger] sort_items(s).contains(y) <==> s.contains(y),
    decreases s.len(),
{
    if s.len() > 0 {
        lemma_sort_items_newest_first(s.drop_last());
        lemma_insert_sorted_sorted(s.last(), sort_items(s.drop_last()));
        lemma_insert_sorted_membership(s.last(), sort_items(s.drop_last()));
        assert(s.drop_last().push(s.last()) =~= s);
    }
}

fn precedes_exec(a: &SortItem, b: &SortItem) -> (r: bool)
    ensures
        r == precedes(*a, *b),
{
    a.mtime > b.mtime || (a.mtime == b.mtime && a.idx < b.idx)
}

/// The scan's entries keyed by discovery order and sorted newest first.
fn sorted_items(files: &Vec<ScanEntry>) -> (r: Vec<SortItem>)
    ensures
        r@ == sort_items(to_items(files@)),
{
    let n = files.len();
    let mut items: Vec<SortItem> = Vec::new();
    let mut i: usize = 0;
    while i < n
        invariant
            n == files.len(),
            0 <= i <= n,
            items@ == to_items(files@.take(i as int)),
        decreases n - i,
    {
        proof {
            assert(files@.take(i as int + 1).drop_last() =~= files@.take(i as int));
            assert(files@.take(i as int + 1).last() == files@[i as int]);
        }
        items.push(SortItem { path: files[i].path.clone(), mtime: files[i].mtime, idx: i });
        proof {
            assert(items@ =~= to_items(files@.take(i as int + 1)));
        }
        i = i + 1;
    }
    proof {
        assert(files@.take(n as int) =~= files@);
    }
    let m = items.len();
    let mut out: Vec<SortItem> = Vec::new();
    let mut k: usize = 0;
    while k < m
        invariant
            m == items.len(),
            0 <= k <= m,
            out@ == sort_items(items@.take(k as int)),
        decreases m - k,
    {
        proof {
            assert(items@.take(k as int + 1).drop_last() =~= items@.take(k as int));
            assert(items@.take(k as int + 1).last() == items@[k as int]);
        }
        let x = SortItem {
            path: items[k].path.clone(),
            mtime: items[k].mtime,
            idx: items[k].idx,
        };
        proof {
            assert(x == items@[k as int]);
        }
        let mut j: usize = 0;
        while j < out.len() && !precedes_exec(&x, &out[j])
            invariant
                0 <= j <= out.len(),
                forall|t: int| 0 <= t < j ==> !precedes(x, #[trigger] out@[t]),
            decreases out.len() - j,
        {
            j = j + 1;
        }
        proof {
            lemma_insert_sorted_at(x, out@, j as int);
        }
        let ghost pre = out@;
        out.insert(j, x);
        proof {
            assert(pre.subrange(0, j as int) =~= pre.take(j as int));
            assert(pre.subrange(j as int, pre.len() as int) =~= pre.skip(j as int));
            assert(out@ =~= pre.take(j as int) + seq![x] + pre.skip(j as int));
        }
        k = k + 1;
    }
    proof {
        assert(items@.take(m as int) =~= items@);
    }
    out
}

/// Build the list a fresh permanent session is seeded with: the scanned
/// files ordered newest first (discovery order breaking ties), ill-formed
/// paths skipped, and no path twice.
pub fn initial_session_population(files: &Vec<ScanEntry>) -> (r: MruList)
    ensures
        r@ == initial_list_spec(files@),
        r.wf(),
{
    let sorted = sorted_items(files);
    let n = sorted.len();
    let mut entries: Vec<String> = Vec::new();
    let mut i: usize = 0;
    proof {
        assert(entries.deep_view() =~= dedup_first(keep_wf(item_paths(sorted@.take(0)))));
    }
    while i < n
        invariant
            n == sorted.len(),
            0 <= i <= n,
            entries.deep_view() == dedup_first(keep_wf(item_paths(sorted@.take(i as int)))),
        decreases n - i,
    {
        proof {
            assert(sorted@.take(i as int + 1).drop_last() =~= sorted@.take(i as int));
            assert(sorted@.take(i as int + 1).last() == sorted@[i as int]);
            let xp = item_paths(sorted@.take(i as int));
            let p = sorted@[i as int].path@;
            assert(item_paths(sorted@.take(i as int + 1)) == xp.push(p));
            assert(xp.push(p).drop_last() =~= xp);
            assert(xp.push(p).last() == p);
            let yw = keep_wf(xp);
            assert(keep_wf(xp.push(p)) == if wf_path(p) {
                yw.push(p)
            } else {
                yw
            });
            if wf_path(p) {
                assert(yw.push(p).drop_last() =~= yw);
                assert(yw.push(p).last() == p);
                assert(dedup_first(yw.push(p)) == if yw.contains(p) {
                    dedup_first(yw)
                } else {
                    dedup_first(yw).push(p)
                });
            }
            lemma_dedup_first_membership(yw);
        }
        if is_wf_path(sorted[i].path.as_str()) {
            if !contains_string(&entries, &sorted[i].path) {
                let ghost pre = entries.deep_view();
                entries.push(sorted[i].path.clone());
                proof {
                    assert(entries.deep_view() =~= pre.push(sorted@[i as int].path@));
                }
            }
        }
        i = i + 1;
    }
    proof {
        assert(sorted@.take(n as int) =~= sorted@);
        let paths = keep_wf(item_paths(sorted@));
        lemma_keep_wf_sub(item_paths(sorted@));
        lemma_dedup_first_membership(paths);
        lemma_dedup_first_distinct(paths);
        assert forall|t: int| 0 <= t < entries.deep_view().len() implies wf_path(
            #[trigger] entries.deep_view()[t],
        ) by {
            let y = entries.deep_view()[t];
            assert(entries.deep_view().contains(y));
            assert(paths.contains(y));
        }
    }
    MruList::from_entries(entries)
}

} // verus!
