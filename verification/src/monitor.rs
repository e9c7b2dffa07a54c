//! Which processes make up a running project, and the recent history of what it costs.
//!
//! Measuring only the process Oracle spawned would be badly wrong: `cmd /C npm run dev` is
//! a shell that launches npm that launches a dev server that forks workers. The real cost
//! lives in the descendants, so every sample walks the process tree from the root and sums
//! the whole subtree. Reading the process table and adding up what it reports is the
//! caller's part; which processes belong to a project, and how much history is kept, is
//! decided here.
use vstd::prelude::*;

verus! {

/// Samples retained per project. At one sample a second this is the last minute, which is
/// all a sparkline needs.
pub const HISTORY: usize = 60;

/// The children of `parent` in a process table of `(pid, parent)` rows, in table order.
pub open spec fn kids_of(procs: Seq<(u32, Option<u32>)>, parent: u32) -> Seq<u32>
    decreases procs.len(),
{
    if procs.len() == 0 {
        Seq::empty()
    } else if procs.last().1 == Some(parent) {
        kids_of(procs.drop_last(), parent).push(procs.last().0)
    } else {
        kids_of(procs.drop_last(), parent)
    }
}

/// Some row of the process table makes `pid` a child of `parent`.
pub open spec fn named_child(procs: Seq<(u32, Option<u32>)>, parent: u32, pid: u32) -> bool {
    exists|j: int| 0 <= j < procs.len() && procs[j].1 == Some(parent) && procs[j].0 == pid
}

/// Every process with a parent is listed among that parent's children, whatever its pid,
/// and every listed child is a process whose parent that is: the children of a parent are
/// exactly the rows that name it.
pub proof fn lemma_children_are_the_rows_naming_the_parent(
    procs: Seq<(u32, Option<u32>)>,
    parent: u32,
)
    ensures
        forall|j: int|
            0 <= j < procs.len() && procs[j].1 == Some(parent) ==> kids_of(procs, parent).contains(
                #[trigger] procs[j].0,
            ),
        forall|m: int|
            0 <= m < kids_of(procs, parent).len() ==> #[trigger] named_child(
                procs,
                parent,
                kids_of(procs, parent)[m],
            ),
    decreases procs.len(),
{
    if procs.len() > 0 {
        let t = procs.drop_last();
        lemma_children_are_the_rows_naming_the_parent(t, parent);
        let kt = kids_of(t, parent);
        let k = kids_of(procs, parent);
        assert forall|j: int|
            0 <= j < procs.len() && procs[j].1 == Some(parent) implies k.contains(
            #[trigger] procs[j].0,
        ) by {
            if j < t.len() {
                assert(t[j] == procs[j]);
                assert(kt.contains(t[j].0));
                let m = choose|m: int| 0 <= m < kt.len() && kt[m] == t[j].0;
                if procs.last().1 == Some(parent) {
                    assert(k[m] == kt[m]);
                }
            } else {
                assert(k[k.len() - 1] == procs[j].0);
            }
        }
        assert forall|m: int| 0 <= m < k.len() implies #[trigger] named_child(procs, parent, k[m]) by {
            if m < kt.len() {
                assert(k[m] == kt[m]);
                assert(named_child(t, parent, kt[m]));
                let j = choose|j: int| 0 <= j < t.len() && t[j].1 == Some(parent) && t[j].0 == kt[m];
                assert(procs[j] == t[j]);
                assert(0 <= j < procs.len() && procs[j].1 == Some(parent) && procs[j].0 == k[m]);
            } else {
                let n = procs.len() - 1;
                assert(procs.last().1 == Some(parent));
                assert(0 <= n < procs.len() && procs[n].1 == Some(parent) && procs[n].0 == k[m]);
            }
        }
    }
}

/// Where the entry for `parent` is in a child index, looking from `from` on.
pub open spec fn entry_of(index: Seq<(u32, Vec<u32>)>, parent: u32, from: int) -> Option<int>
    decreases index.len() - from,
{
    if from < 0 || from >= index.len() {
        None
    } else if index[from].0 == parent {
        Some(from)
    } else {
        entry_of(index, parent, from + 1)
    }
}

/// The children a child index lists for `parent`.
pub open spec fn kids_in(index: Seq<(u32, Vec<u32>)>, parent: u32) -> Seq<u32> {
    match entry_of(index, parent, 0) {
        Some(j) => index[j].1@,
        None => Seq::empty(),
    }
}

/// Every child a child index lists, entry after entry.
pub open spec fn all_kids(index: Seq<(u32, Vec<u32>)>) -> Seq<u32>
    decreases index.len(),
{
    if index.len() == 0 {
        Seq::empty()
    } else {
        all_kids(index.drop_last()) + index.last().1@
    }
}

proof fn lemma_entry_of(index: Seq<(u32, Vec<u32>)>, parent: u32, from: int)
    requires
        0 <= from,
    ensures
        match entry_of(index, parent, from) {
            Some(j) => from <= j < index.len() && index[j].0 == parent,
            None => forall|k: int| from <= k < index.len() ==> index[k].0 != parent,
        },
    decreases index.len() - from,
{
    if from < index.len() && index[from].0 != parent {
        lemma_entry_of(index, parent, from + 1);
    }
}

/// Replacing the children of an entry keeps where every parent is found.
proof fn lemma_entry_of_update(
    index: Seq<(u32, Vec<u32>)>,
    j: int,
    kids: Vec<u32>,
    parent: u32,
    from: int,
)
    requires
        0 <= j < index.len(),
        0 <= from,
    ensures
        entry_of(index.update(j, (index[j].0, kids)), parent, from) == entry_of(index, parent, from),
    decreases index.len() - from,
{
    if from < index.len() {
        assert(index.update(j, (index[j].0, kids))[from].0 == index[from].0);
        if index[from].0 != parent {
            lemma_entry_of_update(index, j, kids, parent, from + 1);
        }
    }
}

/// A new entry at the end is found only for a parent no earlier entry has.
proof fn lemma_entry_of_push(index: Seq<(u32, Vec<u32>)>, e: (u32, Vec<u32>), parent: u32, from: int)
    requires
        0 <= from <= index.len(),
    ensures
        entry_of(index.push(e), parent, from) == match entry_of(index, parent, from) {
            Some(j) => Some(j),
            None => if e.0 == parent {
                Some(index.len() as int)
            } else {
                None
            },
        },
    decreases index.len() - from,
{
    if from < index.len() {
        assert(index.push(e)[from] == index[from]);
        if index[from].0 != parent {
            lemma_entry_of_push(index, e, parent, from + 1);
        }
    } else {
        assert(index.push(e)[from] == e);
        if e.0 != parent {
            assert(entry_of(index.push(e), parent, from + 1) is None);
        }
    }
}

/// Every child an entry lists is among all the children the index lists.
proof fn lemma_entry_in_all(index: Seq<(u32, Vec<u32>)>, j: int, x: u32)
    requires
        0 <= j < index.len(),
        index[j].1@.contains(x),
    ensures
        all_kids(index).contains(x),
    decreases index.len(),
{
    let prev = all_kids(index.drop_last());
    if j == index.len() - 1 {
        let k = choose|k: int| 0 <= k < index[j].1@.len() && index[j].1@[k] == x;
        assert((prev + index.last().1@)[prev.len() + k] == x);
    } else {
        lemma_entry_in_all(index.drop_last(), j, x);
        let k = choose|k: int| 0 <= k < prev.len() && prev[k] == x;
        assert((prev + index.last().1@)[k] == x);
    }
}

/// The entry for `parent`, looked up from the front.
fn find_entry(index: &Vec<(u32, Vec<u32>)>, parent: u32) -> (r: Option<usize>)
    ensures
        match r {
            Some(j) => entry_of(index@, parent, 0) == Some(j as int),
            None => entry_of(index@, parent, 0) is None,
        },
{
    let mut j: usize = 0;
    while j < index.len()
        invariant
            j <= index@.len(),
            entry_of(index@, parent, 0) == entry_of(index@, parent, j as int),
        decreases index@.len() - j,
    {
        if index[j].0 == parent {
            return Some(j);
        }
        j += 1;
    }
    None
}

/// Parent to children, built once per refresh so that walking the trees of many projects
/// does not scan the whole process table for every process. Each parent has one entry;
/// children keep the order of `processes`, a table of `(pid, parent)` rows.
pub fn child_index(processes: &Vec<(u32, Option<u32>)>) -> (r: Vec<(u32, Vec<u32>)>)
    ensures
        forall|p: u32| #[trigger] kids_in(r@, p) == kids_of(processes@, p),
{
    let mut index: Vec<(u32, Vec<u32>)> = Vec::new();
    let mut i: usize = 0;
    while i < processes.len()
        invariant
            i <= processes@.len(),
            forall|p: u32| #[trigger] kids_in(index@, p) == kids_of(processes@.take(i as int), p),
        decreases processes@.len() - i,
    {
        let (pid, parent) = processes[i];
        let ghost before = index@;
        proof {
            assert(processes@.take(i + 1).drop_last() =~= processes@.take(i as int));
            assert(processes@.take(i + 1).last() == (pid, parent));
        }
        match parent {
            Some(parent) => {
                proof {
                    lemma_entry_of(index@, parent, 0);
                }
                match find_entry(&index, parent) {
                    Some(j) => {
                        let (key, mut kids) = index.remove(j);
                        kids.push(pid);
                        index.insert(j, (key, kids));
                        proof {
                            assert(index@ =~= before.update(j as int, (key, kids)));
                            assert forall|p: u32| #[trigger] kids_in(index@, p) == kids_of(
                                processes@.take(i + 1),
                                p,
                            ) by {
                                lemma_entry_of_update(before, j as int, kids, p, 0);
                                lemma_entry_of(before, p, 0);
                                assert(kids_in(before, p) == kids_of(processes@.take(i as int), p));
                                assert(key == parent);
                                if p != parent {
                                    if let Some(j2) = entry_of(before, p, 0) {
                                        assert(j2 != j);
                                        assert(index@[j2] == before[j2]);
                                    }
                                }
                            }
                        }
                    },
                    None => {
                        let kids = vec![pid];
                        let ghost e = (parent, kids);
                        index.push((parent, kids));
                        proof {
                            assert(index@ == before.push(e));
                            assert forall|p: u32| #[trigger] kids_in(index@, p) == kids_of(
                                processes@.take(i + 1),
                                p,
                            ) by {
                                lemma_entry_of_push(before, e, p, 0);
                                lemma_entry_of(before, p, 0);
                                if let Some(j2) = entry_of(before, p, 0) {
                                    assert(index@[j2] == before[j2]);
                                }
                                assert(kids_in(before, p) == kids_of(processes@.take(i as int), p));
                                if p == parent {
                                    assert(kids_of(processes@.take(i as int), p) =~= Seq::<
                                        u32,
                                    >::empty());
                                    assert(e.1@ =~= seq![pid]);
                                }
                            }
                        }
                    },
                }
            },
            None => {},
        }
        i += 1;
    }
    assert(processes@.take(processes@.len() as int) =~= processes@);
    index
}

/// The walk reached `r[i]` as a child of something it had reached before it.
pub open spec fn reached(index: Seq<(u32, Vec<u32>)>, r: Seq<u32>, i: int) -> bool {
    exists|j: int| 0 <= j < i && #[trigger] kids_in(index, r[j]).contains(r[i])
}

/// `x` is one of the elements of `v`.
fn holds(v: &Vec<u32>, x: u32) -> (r: bool)
    ensures
        r == v@.contains(x),
{
    let mut i: usize = 0;
    while i < v.len()
        invariant
            i <= v@.len(),
            forall|k: int| 0 <= k < i ==> v@[k] != x,
        decreases v@.len() - i,
    {
        if v[i] == x {
            return true;
        }
        i += 1;
    }
    false
}

/// A list of distinct pids, each the root or a listed child, is no longer than those.
proof fn lemma_walk_bounded(r: Seq<u32>, root: u32, index: Seq<(u32, Vec<u32>)>)
    requires
        r.no_duplicates(),
        forall|i: int| 0 <= i < r.len() ==> #[trigger] r[i] == root || all_kids(index).contains(r[i]),
    ensures
        r.len() <= 1 + all_kids(index).len(),
{
    broadcast use vstd::seq_lib::seq_to_set_is_finite;
    let c = seq![root] + all_kids(index);
    assert forall|x: u32| r.to_set().contains(x) implies c.to_set().contains(x) by {
        let i = choose|i: int| 0 <= i < r.len() && r[i] == x;
        if x == root {
            assert(c[0] == root);
        } else {
            let k = choose|k: int| 0 <= k < all_kids(index).len() && all_kids(index)[k] == x;
            assert(c[k + 1] == x);
        }
    }
    r.unique_seq_to_set();
    c.lemma_cardinality_of_set();
    vstd::set_lib::lemma_len_subset(r.to_set(), c.to_set());
}

/// The processes of a project's tree: the root first, then its descendants as a
/// breadth-first walk reaches them, each once.
///
/// A pid that appears as its own ancestor, as a recycled pid can make it, is visited once
/// like any other, so the walk always ends.
pub fn subtree(root: u32, index: &Vec<(u32, Vec<u32>)>) -> (r: Vec<u32>)
    ensures
        r@.len() > 0,
        r@[0] == root,
        r@.no_duplicates(),
        forall|i: int| 0 < i < r@.len() ==> #[trigger] reached(index@, r@, i),
        forall|i: int, x: u32|
            0 <= i < r@.len() && #[trigger] kids_in(index@, r@[i]).contains(x) ==> r@.contains(x),
{
    let ghost bound = 1 + all_kids(index@).len();
    let mut r: Vec<u32> = vec![root];
    let mut k: usize = 0;
    while k < r.len()
        invariant
            r@.len() >= 1,
            r@[0] == root,
            r@.no_duplicates(),
            k <= r@.len() <= bound,
            bound == 1 + all_kids(index@).len(),
            forall|i: int| 0 <= i < r@.len() ==> #[trigger] r@[i] == root || all_kids(index@).contains(r@[i]),
            forall|i: int| 0 < i < r@.len() ==> #[trigger] reached(index@, r@, i),
            forall|i: int, x: u32|
                0 <= i < k && #[trigger] kids_in(index@, r@[i]).contains(x) ==> r@.contains(x),
        decreases bound - k,
    {
        let node = r[k];
        proof {
            lemma_entry_of(index@, node, 0);
        }
        match find_entry(index, node) {
            Some(j) => {
                let kids = &index[j].1;
                let mut m: usize = 0;
                while m < kids.len()
                    invariant
                        m <= kids@.len(),
                        kids@ == kids_in(index@, node),
                        entry_of(index@, node, 0) == Some(j as int),
                        j < index@.len(),
                        kids@ == index@[j as int].1@,
                        node == r@[k as int],
                        k < r@.len() <= bound,
                        bound == 1 + all_kids(index@).len(),
                        r@.len() >= 1,
                        r@[0] == root,
                        r@.no_duplicates(),
                        forall|i: int| 0 <= i < r@.len() ==> #[trigger] r@[i] == root || all_kids(index@).contains(r@[i]),
                        forall|i: int| 0 < i < r@.len() ==> #[trigger] reached(index@, r@, i),
                        forall|i: int, x: u32|
                            0 <= i < k && #[trigger] kids_in(index@, r@[i]).contains(x) ==> r@.contains(x),
                        forall|t: int| 0 <= t < m ==> r@.contains(#[trigger] kids@[t]),
                    decreases kids@.len() - m,
                {
                    let c = kids[m];
                    if !holds(&r, c) {
                        let ghost before = r@;
                        proof {
                            lemma_entry_in_all(index@, j as int, c);
                            assert(kids@[m as int] == c);
                        }
                        r.push(c);
                        proof {
                            assert(r@[before.len() as int] == c);
                            assert(kids_in(index@, r@[k as int]).contains(r@[before.len() as int]));
                            assert forall|a: int, b: int| 0 <= a < b < r@.len() implies r@[a] != r@[b] by {
                                if b == before.len() {
                                    assert(before[a] == r@[a]);
                                } else {
                                    assert(before[a] != before[b]);
                                }
                            }
                            assert forall|i: int| 0 < i < r@.len() implies #[trigger] reached(index@, r@, i) by {
                                if i < before.len() {
                                    assert(reached(index@, before, i));
                                    let j2 = choose|j2: int| 0 <= j2 < i && #[trigger] kids_in(index@, before[j2]).contains(before[i]);
                                    assert(r@[j2] == before[j2]);
                                    assert(r@[i] == before[i]);
                                    assert(kids_in(index@, r@[j2]).contains(r@[i]));
                                } else {
                                    assert(kids_in(index@, r@[k as int]).contains(r@[i]));
                                }
                            }
                            assert forall|i: int, x: u32|
                                0 <= i < k && #[trigger] kids_in(index@, r@[i]).contains(x) implies r@.contains(x) by {
                                assert(r@[i] == before[i]);
                                assert(before.contains(x));
                                let w = choose|w: int| 0 <= w < before.len() && before[w] == x;
                                assert(r@[w] == x);
                            }
                            assert forall|t: int| 0 <= t <= m implies r@.contains(#[trigger] kids@[t]) by {
                                if t < m {
                                    let w = choose|w: int| 0 <= w < before.len() && before[w] == kids@[t];
                                    assert(r@[w] == kids@[t]);
                                }
                            }
                            lemma_walk_bounded(r@, root, index@);
                        }
                    }
                    m += 1;
                }
                proof {
                    assert forall|i: int, x: u32|
                        0 <= i < k + 1 && #[trigger] kids_in(index@, r@[i]).contains(x) implies r@.contains(x) by {
                        if i == k {
                            let t = choose|t: int| 0 <= t < kids@.len() && kids@[t] == x;
                            assert(r@.contains(kids@[t]));
                        }
                    }
                }
            },
            None => {
                assert(kids_in(index@, node) =~= Seq::<u32>::empty());
            },
        }
        k += 1;
    }
    r
}


/// The history each project id has, from entries of `(id, samples)`; a later entry for an
/// id wins.
pub open spec fn history_map<T>(entries: Seq<(String, Vec<T>)>) -> Map<Seq<char>, Seq<T>>
    decreases entries.len(),
{
    if entries.len() == 0 {
        Map::empty()
    } else {
        history_map(entries.drop_last()).insert(entries.last().0@, entries.last().1@)
    }
}

/// A history after one more sample: the sample last, the oldest dropped when it was full.
pub open spec fn with_sample<T>(prev: Seq<T>, sample: T) -> Seq<T> {
    if prev.len() >= HISTORY {
        prev.skip(prev.len() - (HISTORY - 1)).push(sample)
    } else {
        prev.push(sample)
    }
}

proof fn lemma_history_map_update<T>(entries: Seq<(String, Vec<T>)>, j: int, e: (String, Vec<T>))
    requires
        0 <= j < entries.len(),
        e.0@ == entries[j].0@,
        forall|a: int, b: int|
            0 <= a < b < entries.len() ==> #[trigger] entries[a].0@ != #[trigger] entries[b].0@,
    ensures
        history_map(entries.update(j, e)) == history_map(entries).insert(e.0@, e.1@),
    decreases entries.len(),
{
    let dl = entries.drop_last();
    if j == entries.len() - 1 {
        assert(entries.update(j, e).drop_last() =~= dl);
        assert(history_map(entries.update(j, e)) =~= history_map(entries).insert(e.0@, e.1@));
    } else {
        assert(entries.update(j, e).drop_last() =~= dl.update(j, e));
        lemma_history_map_update(dl, j, e);
        assert(entries[j].0@ != entries.last().0@);
        assert(history_map(entries.update(j, e)) =~= history_map(entries).insert(e.0@, e.1@));
    }
}

proof fn lemma_history_map_remove<T>(entries: Seq<(String, Vec<T>)>, j: int)
    requires
        0 <= j < entries.len(),
        forall|a: int, b: int|
            0 <= a < b < entries.len() ==> #[trigger] entries[a].0@ != #[trigger] entries[b].0@,
    ensures
        history_map(entries.remove(j)) == history_map(entries).remove(entries[j].0@),
    decreases entries.len(),
{
    let dl = entries.drop_last();
    let k = entries[j].0@;
    if j == entries.len() - 1 {
        assert(entries.remove(j) =~= dl);
        lemma_history_map_keys(dl, k);
        assert(!history_map(dl).contains_key(k)) by {
            if history_map(dl).contains_key(k) {
                let i = choose|i: int| 0 <= i < dl.len() && #[trigger] dl[i].0@ == k;
                assert(entries[i].0@ == k);
            }
        }
        assert(history_map(entries.remove(j)) =~= history_map(entries).remove(k));
    } else {
        assert(entries.remove(j).drop_last() =~= dl.remove(j));
        assert(entries.remove(j).last() == entries.last());
        assert(dl[j] == entries[j]);
        lemma_history_map_remove(dl, j);
        assert(entries.last().0@ != k);
        assert(history_map(entries.remove(j)) =~= history_map(entries).remove(k));
    }
}

proof fn lemma_history_map_keys<T>(entries: Seq<(String, Vec<T>)>, k: Seq<char>)
    ensures
        history_map(entries).contains_key(k) <==> exists|i: int|
            0 <= i < entries.len() && #[trigger] entries[i].0@ == k,
    decreases entries.len(),
{
    if entries.len() > 0 {
        let dl = entries.drop_last();
        lemma_history_map_keys(dl, k);
        if history_map(dl).contains_key(k) {
            let i = choose|i: int| 0 <= i < dl.len() && #[trigger] dl[i].0@ == k;
            assert(entries[i] == dl[i]);
        }
        if exists|i: int| 0 <= i < entries.len() && #[trigger] entries[i].0@ == k {
            let i = choose|i: int| 0 <= i < entries.len() && #[trigger] entries[i].0@ == k;
            if i < dl.len() {
                assert(dl[i] == entries[i]);
            }
        }
    }
}

proof fn lemma_history_map_value<T>(entries: Seq<(String, Vec<T>)>, j: int)
    requires
        0 <= j < entries.len(),
        forall|a: int, b: int|
            0 <= a < b < entries.len() ==> #[trigger] entries[a].0@ != #[trigger] entries[b].0@,
    ensures
        history_map(entries).contains_key(entries[j].0@),
        history_map(entries)[entries[j].0@] == entries[j].1@,
    decreases entries.len(),
{
    if j < entries.len() - 1 {
        let dl = entries.drop_last();
        assert(dl[j] == entries[j]);
        lemma_history_map_value(dl, j);
        assert(entries[j].0@ != entries.last().0@);
    }
}

/// The memory readings of a process tree, one per pid of the tree: `None` for a process that
/// left the table before it was read.
pub open spec fn present_memory(readings: Seq<Option<u64>>) -> int
    decreases readings.len(),
{
    if readings.len() == 0 {
        0
    } else {
        present_memory(readings.drop_last()) + match readings.last() {
            Some(m) => m as int,
            None => 0,
        }
    }
}

/// How many processes of a tree were still there to be read.
pub open spec fn present_count(readings: Seq<Option<u64>>) -> nat
    decreases readings.len(),
{
    if readings.len() == 0 {
        0
    } else {
        present_count(readings.drop_last()) + if readings.last() is Some { 1nat } else { 0nat }
    }
}

/// What a project's process tree adds up to: the memory of every process still there,
/// saturating at `u64::MAX` as a running sum of byte counts does, and how many there were.
pub fn tree_totals(readings: &Vec<Option<u64>>) -> (r: (u64, usize))
    ensures
        r.0 == (if present_memory(readings@) > u64::MAX {
            u64::MAX as int
        } else {
            present_memory(readings@)
        }),
        r.1 == present_count(readings@),
{
    let mut memory: u64 = 0;
    let mut count: usize = 0;
    let mut i: usize = 0;
    while i < readings.len()
        invariant
            i <= readings@.len(),
            count == present_count(readings@.take(i as int)),
            count <= i,
            memory == (if present_memory(readings@.take(i as int)) > u64::MAX {
                u64::MAX as int
            } else {
                present_memory(readings@.take(i as int))
            }),
            present_memory(readings@.take(i as int)) >= 0,
        decreases readings@.len() - i,
    {
        assert(readings@.take(i + 1).drop_last() =~= readings@.take(i as int));
        assert(readings@.take(i + 1).last() == readings@[i as int]);
        if let Some(m) = readings[i] {
            memory = memory.saturating_add(m);
            count += 1;
        }
        i += 1;
    }
    assert(readings@.take(readings@.len() as int) =~= readings@);
    (memory, count)
}


/// Recent samples per project, at most `HISTORY` each, newest last.
pub struct Histories<T> {
    entries: Vec<(String, Vec<T>)>,
}

impl<T> View for Histories<T> {
    type V = Map<Seq<char>, Seq<T>>;

    closed spec fn view(&self) -> Map<Seq<char>, Seq<T>> {
        history_map(self.entries@)
    }
}

impl<T> Histories<T> {
    /// One entry per project, none longer than `HISTORY`.
    pub closed spec fn wf(&self) -> bool {
        &&& forall|a: int, b: int|
            0 <= a < b < self.entries@.len() ==> #[trigger] self.entries@[a].0@
                != #[trigger] self.entries@[b].0@
        &&& forall|a: int| 0 <= a < self.entries@.len() ==> #[trigger] self.entries@[a].1@.len() <= HISTORY
    }

    /// Every history held is at most `HISTORY` samples long.
    pub proof fn lemma_bounded(&self, id: Seq<char>)
        requires
            self.wf(),
            self@.contains_key(id),
        ensures
            self@[id].len() <= HISTORY,
    {
        lemma_history_map_keys(self.entries@, id);
        let i = choose|i: int| 0 <= i < self.entries@.len() && #[trigger] self.entries@[i].0@ == id;
        lemma_history_map_value(self.entries@, i);
    }

    pub fn new() -> (r: Histories<T>)
        ensures
            r.wf(),
            r@ == Map::<Seq<char>, Seq<T>>::empty(),
    {
        Histories { entries: Vec::new() }
    }

    fn position(&self, id: &str) -> (r: Option<usize>)
        ensures
            match r {
                Some(j) => j < self.entries@.len() && self.entries@[j as int].0@ == id@,
                None => forall|a: int| 0 <= a < self.entries@.len() ==> #[trigger] self.entries@[a].0@ != id@,
            },
    {
        let key = crate::text::chars_of(id);
        let mut j: usize = 0;
        while j < self.entries.len()
            invariant
                j <= self.entries@.len(),
                key@ == id@,
                forall|a: int| 0 <= a < j ==> #[trigger] self.entries@[a].0@ != id@,
            decreases self.entries@.len() - j,
        {
            if crate::text::same(crate::text::chars_of(self.entries[j].0.as_str()).as_slice(), key.as_slice()) {
                return Some(j);
            }
            j += 1;
        }
        None
    }

    /// The samples held for a project, oldest first.
    pub fn history(&self, id: &str) -> (r: Option<&Vec<T>>)
        requires
            self.wf(),
        ensures
            match r {
                Some(v) => self@.contains_key(id@) && v@ == self@[id@],
                None => !self@.contains_key(id@),
            },
    {
        proof {
            lemma_history_map_keys(self.entries@, id@);
        }
        match self.position(id) {
            Some(j) => {
                proof {
                    lemma_history_map_value(self.entries@, j as int);
                }
                Some(&self.entries[j].1)
            },
            None => None,
        }
    }

    /// Adds a sample to a project's history, dropping its oldest when it already holds
    /// `HISTORY`.
    pub fn record(&mut self, id: &str, sample: T)
        requires
            old(self).wf(),
        ensures
            final(self).wf(),
            final(self)@ == old(self)@.insert(
                id@,
                with_sample(
                    if old(self)@.contains_key(id@) {
                        old(self)@[id@]
                    } else {
                        Seq::empty()
                    },
                    sample,
                ),
            ),
    {
        proof {
            lemma_history_map_keys(self.entries@, id@);
        }
        match self.position(id) {
            Some(j) => {
                proof {
                    lemma_history_map_value(self.entries@, j as int);
                }
                let ghost before = self.entries@;
                let (key, mut samples) = self.entries.remove(j);
                if samples.len() >= HISTORY {
                    samples.remove(0);
                    assert(samples@ =~= before[j as int].1@.skip(before[j as int].1@.len() - (HISTORY - 1)));
                }
                samples.push(sample);
                let ghost e = (key, samples);
                self.entries.insert(j, (key, samples));
                proof {
                    assert(self.entries@ =~= before.update(j as int, e));
                    lemma_history_map_update(before, j as int, e);
                    assert forall|a: int, b: int|
                        0 <= a < b < self.entries@.len() implies #[trigger] self.entries@[a].0@
                            != #[trigger] self.entries@[b].0@ by {
                        assert(before[a].0@ != before[b].0@);
                    }
                    assert forall|a: int| 0 <= a < self.entries@.len() implies #[trigger] self.entries@[a].1@.len() <= HISTORY by {
                        if a != j {
                            assert(self.entries@[a] == before[a]);
                        }
                    }
                }
            },
            None => {
                let ghost before = self.entries@;
                let mut samples: Vec<T> = Vec::new();
                samples.push(sample);
                self.entries.push((id.to_string(), samples));
                proof {
                    assert(with_sample(Seq::<T>::empty(), sample) =~= seq![sample]);
                    assert(self.entries@.drop_last() =~= before);
                    assert forall|a: int, b: int|
                        0 <= a < b < self.entries@.len() implies #[trigger] self.entries@[a].0@
                            != #[trigger] self.entries@[b].0@ by {
                        if b < before.len() {
                            assert(before[a].0@ != before[b].0@);
                        } else {
                            assert(self.entries@[a] == before[a]);
                        }
                    }
                    assert forall|a: int| 0 <= a < self.entries@.len() implies #[trigger] self.entries@[a].1@.len() <= HISTORY by {
                        if a < before.len() {
                            assert(self.entries@[a] == before[a]);
                        }
                    }
                }
            },
        }
    }

    /// Drops the history of a project that is no longer running.
    pub fn forget(&mut self, id: &str)
        requires
            old(self).wf(),
        ensures
            final(self).wf(),
            final(self)@ == old(self)@.remove(id@),
    {
        proof {
            lemma_history_map_keys(self.entries@, id@);
        }
        match self.position(id) {
            Some(j) => {
                let ghost before = self.entries@;
                proof {
                    lemma_history_map_remove(before, j as int);
                }
                self.entries.remove(j);
                proof {
                    assert forall|a: int, b: int|
                        0 <= a < b < self.entries@.len() implies #[trigger] self.entries@[a].0@
                            != #[trigger] self.entries@[b].0@ by {
                        let a0 = if a < j { a } else { a + 1 };
                        let b0 = if b < j { b } else { b + 1 };
                        assert(self.entries@[a] == before[a0]);
                        assert(self.entries@[b] == before[b0]);
                        assert(before[a0].0@ != before[b0].0@);
                    }
                    assert forall|a: int| 0 <= a < self.entries@.len() implies #[trigger] self.entries@[a].1@.len() <= HISTORY by {
                        let a0 = if a < j { a } else { a + 1 };
                        assert(self.entries@[a] == before[a0]);
                    }
                }
            },
            None => {
                assert(old(self)@.remove(id@) =~= old(self)@);
            },
        }
    }

    /// Keeps the histories of the projects in `live` only: a project that stopped does not
    /// keep its history forever.
    pub fn retain_live(&mut self, live: &Vec<String>)
        requires
            old(self).wf(),
        ensures
            final(self).wf(),
            final(self)@ == old(self)@.restrict(
                Set::new(|k: Seq<char>| exists|i: int| 0 <= i < live@.len() && #[trigger] live@[i]@ == k),
            ),
    {
        let ghost keep = Set::new(|k: Seq<char>| exists|i: int| 0 <= i < live@.len() && #[trigger] live@[i]@ == k);
        let mut taken: Vec<(String, Vec<T>)> = Vec::new();
        std::mem::swap(&mut taken, &mut self.entries);
        let ghost all = taken@;
        let n = taken.len();
        let mut rest = taken;
        let mut kept: Vec<(String, Vec<T>)> = Vec::new();
        let mut done: usize = 0;
        let ghost mut from: Seq<int> = Seq::empty();
        while rest.len() > 0
            invariant
                done + rest@.len() == all.len(),
                all.len() == n,
                rest@ == all.skip(done as int),
                history_map(kept@) == history_map(all.take(done as int)).restrict(keep),
                keep == Set::new(|k: Seq<char>| exists|i: int| 0 <= i < live@.len() && #[trigger] live@[i]@ == k),
                from.len() == kept@.len(),
                forall|a: int| 0 <= a < from.len() ==> 0 <= #[trigger] from[a] < done && kept@[a] == all[from[a]],
                forall|a: int, b: int| 0 <= a < b < from.len() ==> #[trigger] from[a] < #[trigger] from[b],
                forall|a: int, b: int|
                    0 <= a < b < all.len() ==> #[trigger] all[a].0@ != #[trigger] all[b].0@,
                forall|a: int| 0 <= a < all.len() ==> #[trigger] all[a].1@.len() <= HISTORY,
            decreases rest@.len(),
        {
            let e = rest.remove(0);
            proof {
                assert(e == all[done as int]);
                assert(all.skip(done + 1) =~= all.skip(done as int).drop_first());
                assert(all.take(done + 1).drop_last() =~= all.take(done as int));
            }
            let mut found = false;
            let mut i: usize = 0;
            while i < live.len()
                invariant
                    i <= live@.len(),
                    found == exists|t: int| 0 <= t < i && #[trigger] live@[t]@ == e.0@,
                decreases live@.len() - i,
            {
                if crate::text::same(
                    crate::text::chars_of(live[i].as_str()).as_slice(),
                    crate::text::chars_of(e.0.as_str()).as_slice(),
                ) {
                    found = true;
                }
                i += 1;
            }
            proof {
                assert(found == keep.contains(e.0@));
            }
            let ghost before = kept@;
            if found {
                kept.push(e);
                proof {
                    assert(kept@.drop_last() =~= before);
                    from = from.push(done as int);
                    assert(history_map(kept@) =~= history_map(all.take(done + 1)).restrict(keep));
                }
            } else {
                proof {
                    assert(history_map(kept@) =~= history_map(all.take(done + 1)).restrict(keep));
                }
            }
            done += 1;
        }
        assert(all.take(all.len() as int) =~= all);
        self.entries = kept;
        proof {
            assert forall|a: int, b: int|
                0 <= a < b < self.entries@.len() implies #[trigger] self.entries@[a].0@
                    != #[trigger] self.entries@[b].0@ by {
                assert(from[a] < from[b]);
                assert(all[from[a]].0@ != all[from[b]].0@);
            }
            assert forall|a: int| 0 <= a < self.entries@.len() implies #[trigger] self.entries@[a].1@.len() <= HISTORY by {
                assert(self.entries@[a] == all[from[a]]);
            }
        }
    }
}

} // verus!
