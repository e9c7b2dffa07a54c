//! A stable sort by an integer key, the one `slice::sort_by_key` performs.
//!
//! Elements travel with their key as `(key, element)` pairs. The result is what inserting
//! each element in turn after every element whose key is not greater would give, which is
//! exactly a stable sort: ties keep the order they arrived in.
use vstd::prelude::*;

verus! {

/// `x` placed after the last element of `s` whose key is not greater than its own.
pub open spec fn insert_by_key<T>(s: Seq<(i64, T)>, x: (i64, T)) -> Seq<(i64, T)>
    decreases s.len(),
{
    if s.len() == 0 || s.last().0 <= x.0 {
        s.push(x)
    } else {
        insert_by_key(s.drop_last(), x).push(s.last())
    }
}

/// `s` stably sorted by key.
pub open spec fn sort_by_key<T>(s: Seq<(i64, T)>) -> Seq<(i64, T)>
    decreases s.len(),
{
    if s.len() == 0 {
        s
    } else {
        insert_by_key(sort_by_key(s.drop_last()), s.last())
    }
}

pub open spec fn keys_sorted<T>(s: Seq<(i64, T)>) -> bool {
    forall|i: int, j: int| 0 <= i <= j < s.len() ==> s[i].0 <= s[j].0
}

/// Inserting where the scan stopped is inserting by key.
proof fn lemma_insert_at<T>(s: Seq<(i64, T)>, x: (i64, T), j: int)
    requires
        0 <= j <= s.len(),
        j == 0 || s[j - 1].0 <= x.0,
        forall|k: int| j <= k < s.len() ==> s[k].0 > x.0,
    ensures
        insert_by_key(s, x) == s.insert(j, x),
    decreases s.len(),
{
    if s.len() == 0 || s.last().0 <= x.0 {
        assert(j == s.len());
        assert(s.insert(j, x) =~= s.push(x));
    } else {
        let t = s.drop_last();
        lemma_insert_at(t, x, j);
        assert(t.insert(j, x).push(s.last()) =~= s.insert(j, x));
    }
}

/// Sorts `v` stably by the key each element carries.
pub fn stable_sort<T>(v: Vec<(i64, T)>) -> (r: Vec<(i64, T)>)
    ensures
        r@ == sort_by_key(v@),
{
    let ghost all = v@;
    let n = v.len();
    let mut rest = v;
    let mut out: Vec<(i64, T)> = Vec::new();
    let mut taken: usize = 0;
    while rest.len() > 0
        invariant
            taken + rest@.len() == all.len(),
            all.len() == n,
            rest@ == all.skip(taken as int),
            out@ == sort_by_key(all.take(taken as int)),
        decreases rest@.len(),
    {
        let x = rest.remove(0);
        proof {
            assert(x == all[taken as int]);
            assert(all.skip(taken + 1) =~= all.skip(taken as int).drop_first());
            assert(all.take(taken + 1).drop_last() =~= all.take(taken as int));
            assert(all.take(taken + 1).last() == x);
        }
        let mut j: usize = out.len();
        while j > 0 && out[j - 1].0 > x.0
            invariant
                j <= out@.len(),
                forall|k: int| j <= k < out@.len() ==> out@[k].0 > x.0,
            decreases j,
        {
            j -= 1;
        }
        proof {
            lemma_insert_at(out@, x, j as int);
        }
        out.insert(j, x);
        taken += 1;
    }
    assert(all.take(all.len() as int) =~= all);
    out
}

proof fn lemma_insert_keeps_sorted<T>(s: Seq<(i64, T)>, x: (i64, T))
    requires
        keys_sorted(s),
    ensures
        keys_sorted(insert_by_key(s, x)),
        insert_by_key(s, x).len() == s.len() + 1,
        insert_by_key(s, x).to_multiset() == s.to_multiset().insert(x),
    decreases s.len(),
{
    broadcast use vstd::seq_lib::group_to_multiset_ensures;
    if s.len() == 0 || s.last().0 <= x.0 {
    } else {
        let t = s.drop_last();
        lemma_insert_keeps_sorted(t, x);
        let u = insert_by_key(t, x);
        assert(s =~= t.push(s.last()));
        assert forall|i: int, j: int| 0 <= i <= j < u.len() + 1 implies
            #[trigger] u.push(s.last())[i].0 <= #[trigger] u.push(s.last())[j].0 by {
            if j == u.len() && i < u.len() {
                // Every element of `u` is `x` or an element of `t`, all no greater than `s.last()`.
                assert(u.to_multiset().count(u[i]) > 0);
                if u[i] != x {
                    assert(t.to_multiset().count(u[i]) > 0);
                    assert(t.contains(u[i]));
                    let k = choose|k: int| 0 <= k < t.len() && t[k] == u[i];
                    assert(s[k] == t[k]);
                }
            }
        }
    }
}

/// A stable sort leaves the keys in order.
pub proof fn lemma_sort_sorted<T>(s: Seq<(i64, T)>)
    ensures
        keys_sorted(sort_by_key(s)),
        sort_by_key(s).len() == s.len(),
        sort_by_key(s).to_multiset() == s.to_multiset(),
    decreases s.len(),
{
    broadcast use vstd::seq_lib::group_to_multiset_ensures;
    if s.len() > 0 {
        lemma_sort_sorted(s.drop_last());
        lemma_insert_keeps_sorted(sort_by_key(s.drop_last()), s.last());
        assert(s =~= s.drop_last().push(s.last()));
    }
}


/// The elements of `s` whose key is `k`, in the order they come.
pub open spec fn with_key<T>(s: Seq<(i64, T)>, k: i64) -> Seq<(i64, T)>
    decreases s.len(),
{
    if s.len() == 0 {
        s
    } else if s.last().0 == k {
        with_key(s.drop_last(), k).push(s.last())
    } else {
        with_key(s.drop_last(), k)
    }
}

proof fn lemma_insert_with_key<T>(s: Seq<(i64, T)>, x: (i64, T), k: i64)
    ensures
        with_key(insert_by_key(s, x), k) == if x.0 == k {
            with_key(s, k).push(x)
        } else {
            with_key(s, k)
        },
    decreases s.len(),
{
    if s.len() == 0 || s.last().0 <= x.0 {
        assert(s.push(x).drop_last() =~= s);
    } else {
        let t = s.drop_last();
        lemma_insert_with_key(t, x, k);
        let u = insert_by_key(t, x);
        assert(u.push(s.last()).drop_last() =~= u);
    }
}

/// The sort is stable: for every key, the elements carrying it come out in the order they
/// went in.
pub proof fn lemma_sort_stable<T>(s: Seq<(i64, T)>, k: i64)
    ensures
        with_key(sort_by_key(s), k) == with_key(s, k),
    decreases s.len(),
{
    if s.len() > 0 {
        lemma_sort_stable(s.drop_last(), k);
        lemma_insert_with_key(sort_by_key(s.drop_last()), s.last(), k);
    }
}

/// Two elements carrying a key make it appear twice among the elements with that key.
proof fn lemma_with_key_two<T>(s: Seq<(i64, T)>, a: int, b: int)
    requires
        0 <= a < b < s.len(),
        s[a].0 == s[b].0,
    ensures
        with_key(s, s[a].0).len() >= 2,
    decreases s.len(),
{
    let t = s.drop_last();
    if b == s.len() - 1 {
        lemma_with_key_one(t, a);
    } else {
        assert(t[a] == s[a] && t[b] == s[b]);
        lemma_with_key_two(t, a, b);
    }
}

proof fn lemma_with_key_one<T>(s: Seq<(i64, T)>, a: int)
    requires
        0 <= a < s.len(),
    ensures
        with_key(s, s[a].0).len() >= 1,
    decreases s.len(),
{
    let t = s.drop_last();
    if a < s.len() - 1 {
        assert(t[a] == s[a]);
        lemma_with_key_one(t, a);
    }
}

/// When no two elements share a key, each key is carried by at most one element.
proof fn lemma_with_key_at_most_one<T>(s: Seq<(i64, T)>, k: i64)
    requires
        forall|a: int, b: int| 0 <= a < b < s.len() ==> #[trigger] s[a].0 != #[trigger] s[b].0,
    ensures
        with_key(s, k).len() <= 1,
        (forall|a: int| 0 <= a < s.len() ==> #[trigger] s[a].0 != k) ==> with_key(s, k).len() == 0,
    decreases s.len(),
{
    if s.len() > 0 {
        let t = s.drop_last();
        assert forall|a: int, b: int| 0 <= a < b < t.len() implies #[trigger] t[a].0 != #[trigger] t[b].0 by {
            assert(t[a] == s[a] && t[b] == s[b]);
        }
        lemma_with_key_at_most_one(t, k);
        if s.last().0 == k {
            assert forall|a: int| 0 <= a < t.len() implies #[trigger] t[a].0 != k by {
                assert(t[a] == s[a]);
                assert(s[a].0 != s[s.len() - 1].0);
            }
        } else {
            if forall|a: int| 0 <= a < s.len() ==> #[trigger] s[a].0 != k {
                assert forall|a: int| 0 <= a < t.len() implies #[trigger] t[a].0 != k by {
                    assert(t[a] == s[a]);
                }
            }
        }
    }
}

/// Sorting elements whose keys are all different keeps them all different, so the sorted
/// keys strictly increase.
pub proof fn lemma_sort_distinct_keys_increase<T>(s: Seq<(i64, T)>)
    requires
        forall|a: int, b: int| 0 <= a < b < s.len() ==> #[trigger] s[a].0 != #[trigger] s[b].0,
    ensures
        forall|a: int, b: int|
            0 <= a < b < sort_by_key(s).len() ==> #[trigger] sort_by_key(s)[a].0 < #[trigger] sort_by_key(
                s,
            )[b].0,
{
    lemma_sort_sorted(s);
    let t = sort_by_key(s);
    assert forall|a: int, b: int| 0 <= a < b < t.len() implies #[trigger] t[a].0 < #[trigger] t[b].0 by {
        if t[a].0 == t[b].0 {
            lemma_with_key_two(t, a, b);
            lemma_sort_stable(s, t[a].0);
            lemma_with_key_at_most_one(s, t[a].0);
        }
    }
}

/// Keys that strictly increase and all lie below the length are the positions themselves.
pub proof fn lemma_increasing_keys_are_positions<T>(s: Seq<(i64, T)>)
    requires
        forall|a: int, b: int| 0 <= a < b < s.len() ==> #[trigger] s[a].0 < #[trigger] s[b].0,
        forall|a: int| 0 <= a < s.len() ==> 0 <= #[trigger] s[a].0 < s.len(),
    ensures
        forall|k: int| 0 <= k < s.len() ==> #[trigger] s[k].0 == k,
{
    assert forall|k: int| 0 <= k < s.len() implies #[trigger] s[k].0 == k by {
        lemma_key_at_least(s, k);
        lemma_key_at_most(s, k);
    }
}

proof fn lemma_key_at_least<T>(s: Seq<(i64, T)>, k: int)
    requires
        0 <= k < s.len(),
        forall|a: int, b: int| 0 <= a < b < s.len() ==> #[trigger] s[a].0 < #[trigger] s[b].0,
        forall|a: int| 0 <= a < s.len() ==> 0 <= #[trigger] s[a].0 < s.len(),
    ensures
        s[k].0 >= k,
    decreases k,
{
    if k > 0 {
        lemma_key_at_least(s, k - 1);
        assert(s[k - 1].0 < s[k].0);
    }
}

proof fn lemma_key_at_most<T>(s: Seq<(i64, T)>, k: int)
    requires
        0 <= k < s.len(),
        forall|a: int, b: int| 0 <= a < b < s.len() ==> #[trigger] s[a].0 < #[trigger] s[b].0,
        forall|a: int| 0 <= a < s.len() ==> 0 <= #[trigger] s[a].0 < s.len(),
    ensures
        s[k].0 <= k,
    decreases s.len() - k,
{
    if k < s.len() - 1 {
        lemma_key_at_most(s, k + 1);
        assert(s[k].0 < s[k + 1].0);
    }
}

/// Every element of the sorted sequence is one of the input's.
pub proof fn lemma_sort_member<T>(s: Seq<(i64, T)>, k: int)
    requires
        0 <= k < s.len(),
    ensures
        s.contains(sort_by_key(s)[k]),
{
    broadcast use vstd::seq_lib::group_to_multiset_ensures;
    lemma_sort_sorted(s);
    let x = sort_by_key(s)[k];
    assert(sort_by_key(s).contains(x));
    assert(sort_by_key(s).to_multiset().count(x) > 0);
}

/// Sorting what is already in order changes nothing.
pub proof fn lemma_sort_sorted_is_identity<T>(s: Seq<(i64, T)>)
    requires
        keys_sorted(s),
    ensures
        sort_by_key(s) == s,
    decreases s.len(),
{
    if s.len() > 0 {
        let t = s.drop_last();
        assert(keys_sorted(t));
        lemma_sort_sorted_is_identity(t);
        if t.len() > 0 {
            assert(t.last().0 <= s.last().0);
        }
        assert(t.push(s.last()) =~= s);
    }
}

/// `a` sorts no later than `b`, comparing characters by code point as `str::cmp` does.
pub open spec fn text_le(a: Seq<char>, b: Seq<char>) -> bool
    decreases a.len(),
{
    if a.len() == 0 {
        true
    } else if b.len() == 0 {
        false
    } else if a[0] < b[0] {
        true
    } else if a[0] > b[0] {
        false
    } else {
        text_le(a.drop_first(), b.drop_first())
    }
}

pub fn text_le_exec(a: &[char], b: &[char]) -> (r: bool)
    ensures
        r == text_le(a@, b@),
{
    let mut i: usize = 0;
    assert(a@.skip(0) =~= a@);
    assert(b@.skip(0) =~= b@);
    while i < a.len() && i < b.len() && a[i] == b[i]
        invariant
            i <= a@.len(),
            i <= b@.len(),
            text_le(a@, b@) == text_le(a@.skip(i as int), b@.skip(i as int)),
        decreases a@.len() - i,
    {
        proof {
            assert(a@.skip(i as int).drop_first() =~= a@.skip(i + 1));
            assert(b@.skip(i as int).drop_first() =~= b@.skip(i + 1));
        }
        i += 1;
    }
    if i == a.len() {
        assert(a@.skip(i as int).len() == 0);
        true
    } else if i == b.len() {
        assert(b@.skip(i as int).len() == 0);
        false
    } else {
        let x = a[i];
        let y = b[i];
        assert(a@.skip(i as int)[0] == x);
        assert(b@.skip(i as int)[0] == y);
        x < y
    }
}

/// `x` placed after the last element of `s` whose key sorts no later than its own.
pub open spec fn insert_by_text<T>(s: Seq<(Seq<char>, T)>, x: (Seq<char>, T)) -> Seq<(Seq<char>, T)>
    decreases s.len(),
{
    if s.len() == 0 || text_le(s.last().0, x.0) {
        s.push(x)
    } else {
        insert_by_text(s.drop_last(), x).push(s.last())
    }
}

/// `s` stably sorted by its text keys.
pub open spec fn sort_by_text<T>(s: Seq<(Seq<char>, T)>) -> Seq<(Seq<char>, T)>
    decreases s.len(),
{
    if s.len() == 0 {
        s
    } else {
        insert_by_text(sort_by_text(s.drop_last()), s.last())
    }
}

proof fn lemma_insert_text_at<T>(s: Seq<(Seq<char>, T)>, x: (Seq<char>, T), j: int)
    requires
        0 <= j <= s.len(),
        j == 0 || text_le(s[j - 1].0, x.0),
        forall|k: int| j <= k < s.len() ==> !text_le(#[trigger] s[k].0, x.0),
    ensures
        insert_by_text(s, x) == s.insert(j, x),
    decreases s.len(),
{
    if s.len() == 0 || text_le(s.last().0, x.0) {
        assert(j == s.len());
        assert(s.insert(j, x) =~= s.push(x));
    } else {
        let t = s.drop_last();
        lemma_insert_text_at(t, x, j);
        assert(t.insert(j, x).push(s.last()) =~= s.insert(j, x));
    }
}

proof fn lemma_insert_text_elements<T>(s: Seq<(Seq<char>, T)>, x: (Seq<char>, T))
    ensures
        insert_by_text(s, x).len() == s.len() + 1,
        forall|k: int| 0 <= k < s.len() + 1 ==> {
            let e = #[trigger] insert_by_text(s, x)[k];
            e == x || exists|j: int| 0 <= j < s.len() && s[j] == e
        },
    decreases s.len(),
{
    if s.len() == 0 || text_le(s.last().0, x.0) {
        assert forall|k: int| 0 <= k < s.len() + 1 implies {
            let e = #[trigger] insert_by_text(s, x)[k];
            e == x || exists|j: int| 0 <= j < s.len() && s[j] == e
        } by {
            if k < s.len() {
                assert(s.push(x)[k] == s[k]);
            }
        }
    } else {
        let t = s.drop_last();
        lemma_insert_text_elements(t, x);
        let u = insert_by_text(t, x);
        assert forall|k: int| 0 <= k < s.len() + 1 implies {
            let e = #[trigger] insert_by_text(s, x)[k];
            e == x || exists|j: int| 0 <= j < s.len() && s[j] == e
        } by {
            if k < u.len() {
                let e = u[k];
                assert(u.push(s.last())[k] == e);
                if e != x {
                    let j = choose|j: int| 0 <= j < t.len() && t[j] == e;
                    assert(s[j] == e);
                }
            } else {
                assert(s[s.len() - 1] == s.last());
            }
        }
    }
}

/// Every element of a sorted sequence is one of the input's, and none is lost in count.
pub proof fn lemma_sort_text_elements<T>(s: Seq<(Seq<char>, T)>)
    ensures
        sort_by_text(s).len() == s.len(),
        forall|k: int| 0 <= k < s.len() ==> exists|j: int|
            0 <= j < s.len() && s[j] == #[trigger] sort_by_text(s)[k],
    decreases s.len(),
{
    if s.len() > 0 {
        let t = s.drop_last();
        lemma_sort_text_elements(t);
        let st = sort_by_text(t);
        lemma_insert_text_elements(st, s.last());
        assert forall|k: int| 0 <= k < s.len() implies exists|j: int|
            0 <= j < s.len() && s[j] == #[trigger] sort_by_text(s)[k] by {
            let e = sort_by_text(s)[k];
            if e == s.last() {
                assert(s[s.len() - 1] == e);
            } else {
                let j1 = choose|j: int| 0 <= j < st.len() && st[j] == e;
                let j2 = choose|j: int| 0 <= j < t.len() && t[j] == st[j1];
                assert(s[j2] == e);
            }
        }
    }
}

/// Any two texts are ordered one way or the other.
pub proof fn lemma_text_le_total(a: Seq<char>, b: Seq<char>)
    ensures
        text_le(a, b) || text_le(b, a),
    decreases a.len(),
{
    if a.len() > 0 && b.len() > 0 && a[0] == b[0] {
        lemma_text_le_total(a.drop_first(), b.drop_first());
    }
}

/// Texts ordered both ways are the same text.
pub proof fn lemma_text_le_antisymmetric(a: Seq<char>, b: Seq<char>)
    requires
        text_le(a, b),
        text_le(b, a),
    ensures
        a == b,
    decreases a.len(),
{
    if a.len() == 0 {
        assert(b.len() == 0);
        assert(a =~= b);
    } else {
        assert(b.len() > 0);
        assert(a[0] == b[0]);
        lemma_text_le_antisymmetric(a.drop_first(), b.drop_first());
        assert(a.drop_first().len() == b.drop_first().len());
        assert(a.len() == b.len());
        assert forall|i: int| 0 <= i < a.len() implies a[i] == b[i] by {
            if i > 0 {
                assert(a[i] == a.drop_first()[i - 1]);
                assert(b[i] == b.drop_first()[i - 1]);
            }
        }
        assert(a =~= b);
    }
}

/// The order on texts is transitive.
pub proof fn lemma_text_le_transitive(a: Seq<char>, b: Seq<char>, c: Seq<char>)
    requires
        text_le(a, b),
        text_le(b, c),
    ensures
        text_le(a, c),
    decreases a.len(),
{
    if a.len() > 0 {
        assert(b.len() > 0);
        assert(c.len() > 0);
        if a[0] == b[0] && b[0] == c[0] {
            lemma_text_le_transitive(a.drop_first(), b.drop_first(), c.drop_first());
        }
    }
}

/// The keys of `s` are in order.
pub open spec fn text_sorted<T>(s: Seq<(Seq<char>, T)>) -> bool {
    forall|i: int, j: int| 0 <= i < j < s.len() ==> text_le(#[trigger] s[i].0, #[trigger] s[j].0)
}

proof fn lemma_insert_text_sorted<T>(s: Seq<(Seq<char>, T)>, x: (Seq<char>, T))
    requires
        text_sorted(s),
    ensures
        text_sorted(insert_by_text(s, x)),
    decreases s.len(),
{
    if s.len() == 0 || text_le(s.last().0, x.0) {
        let w = s.push(x);
        assert forall|i: int, j: int| 0 <= i < j < w.len() implies text_le(#[trigger] w[i].0, #[trigger] w[j].0) by {
            if j == s.len() {
                if i < s.len() - 1 {
                    assert(text_le(s[i].0, s[s.len() - 1].0));
                    lemma_text_le_transitive(s[i].0, s.last().0, x.0);
                }
            } else {
                assert(w[i] == s[i] && w[j] == s[j]);
            }
        }
    } else {
        let t = s.drop_last();
        assert(text_sorted(t)) by {
            assert forall|i: int, j: int| 0 <= i < j < t.len() implies text_le(#[trigger] t[i].0, #[trigger] t[j].0) by {
                assert(t[i] == s[i] && t[j] == s[j]);
            }
        }
        lemma_insert_text_sorted(t, x);
        lemma_insert_text_elements(t, x);
        let u = insert_by_text(t, x);
        let w = u.push(s.last());
        lemma_text_le_total(s.last().0, x.0);
        assert forall|i: int, j: int| 0 <= i < j < w.len() implies text_le(#[trigger] w[i].0, #[trigger] w[j].0) by {
            if j == u.len() {
                let e = u[i];
                assert(w[i] == e);
                if e != x {
                    let k = choose|k: int| 0 <= k < t.len() && t[k] == e;
                    assert(s[k] == e);
                    assert(text_le(s[k].0, s[s.len() - 1].0));
                }
            } else {
                assert(w[i] == u[i] && w[j] == u[j]);
            }
        }
    }
}

/// A stable sort by text leaves the keys in order.
pub proof fn lemma_sort_text_sorted<T>(s: Seq<(Seq<char>, T)>)
    ensures
        text_sorted(sort_by_text(s)),
    decreases s.len(),
{
    if s.len() > 0 {
        lemma_sort_text_sorted(s.drop_last());
        lemma_insert_text_sorted(sort_by_text(s.drop_last()), s.last());
    }
}

proof fn lemma_insert_text_somewhere<T>(s: Seq<(Seq<char>, T)>, x: (Seq<char>, T))
    ensures
        exists|j: int| 0 <= j <= s.len() && insert_by_text(s, x) == s.insert(j, x),
    decreases s.len(),
{
    if s.len() == 0 || text_le(s.last().0, x.0) {
        assert(s.insert(s.len() as int, x) =~= s.push(x));
    } else {
        let t = s.drop_last();
        lemma_insert_text_somewhere(t, x);
        let j = choose|j: int| 0 <= j <= t.len() && insert_by_text(t, x) == t.insert(j, x);
        assert(t.insert(j, x).push(s.last()) =~= s.insert(j, x));
    }
}

/// No two elements agree on `f`.
pub open spec fn distinct_by<T, K>(s: Seq<(Seq<char>, T)>, f: spec_fn(T) -> K) -> bool {
    forall|a: int, b: int| 0 <= a < b < s.len() ==> f(#[trigger] s[a].1) != f(#[trigger] s[b].1)
}

/// Sorting by text keeps elements that differ on `f` apart: it only moves them.
pub proof fn lemma_sort_text_distinct<T, K>(s: Seq<(Seq<char>, T)>, f: spec_fn(T) -> K)
    requires
        distinct_by(s, f),
    ensures
        distinct_by(sort_by_text(s), f),
    decreases s.len(),
{
    if s.len() > 0 {
        let t = s.drop_last();
        assert(distinct_by(t, f)) by {
            assert forall|a: int, b: int| 0 <= a < b < t.len() implies f(#[trigger] t[a].1) != f(#[trigger] t[b].1) by {
                assert(t[a] == s[a] && t[b] == s[b]);
            }
        }
        lemma_sort_text_distinct(t, f);
        lemma_sort_text_elements(t);
        let st = sort_by_text(t);
        lemma_insert_text_somewhere(st, s.last());
        let j = choose|j: int| 0 <= j <= st.len() && insert_by_text(st, s.last()) == st.insert(j, s.last());
        let w = st.insert(j, s.last());
        assert forall|a: int, b: int| 0 <= a < b < w.len() implies f(#[trigger] w[a].1) != f(#[trigger] w[b].1) by {
            let ia = if a < j { a } else { a - 1 };
            let ib = if b < j { b } else { b - 1 };
            if a == j {
                assert(w[b] == st[ib]);
                let k = choose|k: int| 0 <= k < t.len() && t[k] == st[ib];
                assert(s[k] == t[k]);
                assert(f(s[k].1) != f(s[s.len() - 1].1));
            } else if b == j {
                assert(w[a] == st[ia]);
                let k = choose|k: int| 0 <= k < t.len() && t[k] == st[ia];
                assert(s[k] == t[k]);
                assert(f(s[k].1) != f(s[s.len() - 1].1));
            } else {
                assert(w[a] == st[ia]);
                assert(w[b] == st[ib]);
            }
        }
    }
}

pub open spec fn text_keys_view<T>(v: Seq<(Vec<char>, T)>) -> Seq<(Seq<char>, T)> {
    v.map_values(|e: (Vec<char>, T)| (e.0@, e.1))
}

/// Sorts `v` stably by the text each element carries.
pub fn stable_sort_text<T>(v: Vec<(Vec<char>, T)>) -> (r: Vec<(Vec<char>, T)>)
    ensures
        text_keys_view(r@) == sort_by_text(text_keys_view(v@)),
{
    let ghost all = text_keys_view(v@);
    let n = v.len();
    let mut rest = v;
    let mut out: Vec<(Vec<char>, T)> = Vec::new();
    let mut taken: usize = 0;
    while rest.len() > 0
        invariant
            taken + rest@.len() == all.len(),
            all.len() == n,
            text_keys_view(rest@) == all.skip(taken as int),
            text_keys_view(out@) == sort_by_text(all.take(taken as int)),
        decreases rest@.len(),
    {
        let ghost before_rest = rest@;
        let x = rest.remove(0);
        proof {
            assert(text_keys_view(before_rest)[0] == (x.0@, x.1));
            assert((x.0@, x.1) == all[taken as int]);
            assert(text_keys_view(rest@) =~= text_keys_view(before_rest).drop_first());
            assert(all.skip(taken + 1) =~= all.skip(taken as int).drop_first());
            assert(all.take(taken + 1).drop_last() =~= all.take(taken as int));
            assert(all.take(taken + 1).last() == (x.0@, x.1));
        }
        let mut j: usize = out.len();
        while j > 0 && !text_le_exec(out[j - 1].0.as_slice(), x.0.as_slice())
            invariant
                j <= out@.len(),
                forall|k: int| j <= k < out@.len() ==> !text_le(#[trigger] out@[k].0@, x.0@),
            decreases j,
        {
            j -= 1;
        }
        let ghost before = out@;
        proof {
            let sv = text_keys_view(before);
            assert forall|k: int| j <= k < sv.len() implies !text_le(#[trigger] sv[k].0, x.0@) by {
                assert(sv[k].0 == before[k].0@);
            }
            if j > 0 {
                assert(sv[j - 1].0 == before[j - 1].0@);
            }
            lemma_insert_text_at(sv, (x.0@, x.1), j as int);
        }
        out.insert(j, x);
        proof {
            assert(text_keys_view(out@) =~= text_keys_view(before).insert(j as int, (x.0@, x.1)));
        }
        taken += 1;
    }
    assert(all.take(all.len() as int) =~= all);
    out
}

} // verus!
