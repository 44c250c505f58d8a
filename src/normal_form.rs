//! What the normalisation pass guarantees: order, one entry per identity,
//! the capacity bound, and that pinned entries are never evicted.
use vstd::prelude::*;
use vstd::seq_lib::lemma_multiset_commutative;
use crate::history::{
    cap_from, dedup_by_key, dedup_from, entry_key, insert_sorted, is_ordered, key_set, lemma_insert_sorted_at, lemma_key_set_push,
    normalized_history, precedes, sort_entries, ClipboardHistoryEntry,
};

verus! {

broadcast use vstd::seq_lib::group_to_multiset_ensures;

/// No two entries of `s` share an identity.
pub open spec fn distinct_keys(s: Seq<ClipboardHistoryEntry>) -> bool {
    forall|i: int, j: int|
        0 <= i < s.len() && 0 <= j < s.len() && i != j ==> entry_key(#[trigger] s[i]) != entry_key(#[trigger] s[j])
}

/// How many entries of `s` are unpinned.
pub open spec fn unpinned_count(s: Seq<ClipboardHistoryEntry>) -> nat
    decreases s.len(),
{
    if s.len() == 0 {
        0
    } else {
        (if s[0].pinned { 0nat } else { 1nat }) + unpinned_count(s.drop_first())
    }
}

proof fn lemma_unpinned_count_cons(a: ClipboardHistoryEntry, t: Seq<ClipboardHistoryEntry>)
    ensures
        unpinned_count(seq![a] + t) == (if a.pinned { 0nat } else { 1nat }) + unpinned_count(t),
{
    let r = seq![a] + t;
    assert(r.drop_first() =~= t);
    assert(r[0] == a);
}

proof fn lemma_unpinned_count_push(t: Seq<ClipboardHistoryEntry>, a: ClipboardHistoryEntry)
    ensures
        unpinned_count(t.push(a)) == unpinned_count(t) + (if a.pinned { 0nat } else { 1nat }),
    decreases t.len(),
{
    if t.len() == 0 {
        assert(t.push(a) =~= seq![a] + t);
        lemma_unpinned_count_cons(a, t);
    } else {
        lemma_unpinned_count_push(t.drop_first(), a);
        assert(t.push(a).drop_first() =~= t.drop_first().push(a));
    }
}

proof fn lemma_insert_sorted_multiset(s: Seq<ClipboardHistoryEntry>, e: ClipboardHistoryEntry)
    ensures
        insert_sorted(s, e).to_multiset() =~= s.to_multiset().insert(e),
    decreases s.len(),
{
    let single = seq![e];
    assert(single =~= Seq::<ClipboardHistoryEntry>::empty().push(e));
    if s.len() == 0 {
    } else if precedes(e, s[0]) {
        lemma_multiset_commutative(single, s);
    } else {
        let rest = s.drop_first();
        let head = seq![s[0]];
        assert(head =~= Seq::<ClipboardHistoryEntry>::empty().push(s[0]));
        lemma_insert_sorted_multiset(rest, e);
        lemma_multiset_commutative(head, insert_sorted(rest, e));
        lemma_multiset_commutative(head, rest);
        assert(s =~= head + rest);
    }
}

/// Sorting only reorders.
pub proof fn lemma_sort_is_permutation(s: Seq<ClipboardHistoryEntry>)
    ensures
        sort_entries(s).to_multiset() =~= s.to_multiset(),
    decreases s.len(),
{
    if s.len() > 0 {
        lemma_sort_is_permutation(s.drop_last());
        lemma_insert_sorted_multiset(sort_entries(s.drop_last()), s.last());
        assert(s =~= s.drop_last().push(s.last()));
    }
}

proof fn lemma_precedes_transitive(a: ClipboardHistoryEntry, b: ClipboardHistoryEntry, c: ClipboardHistoryEntry)
    requires
        precedes(a, b),
        precedes(b, c),
    ensures
        precedes(a, c),
{
}

proof fn lemma_insert_sorted_ordered(s: Seq<ClipboardHistoryEntry>, e: ClipboardHistoryEntry)
    requires
        is_ordered(s),
    ensures
        is_ordered(insert_sorted(s, e)),
    decreases s.len(),
{
    if s.len() == 0 {
    } else if precedes(e, s[0]) {
        let r = seq![e] + s;
        assert forall|i: int, j: int| 0 <= i < j < r.len() implies !precedes(#[trigger] r[j], #[trigger] r[i]) by {
            if i == 0 {
                if precedes(r[j], e) {
                    lemma_precedes_transitive(s[j - 1], e, s[0]);
                    if j - 1 > 0 {
                        assert(!precedes(s[j - 1], s[0]));
                    }
                }
            } else {
                assert(r[i] == s[i - 1] && r[j] == s[j - 1]);
            }
        }
    } else {
        let rest = s.drop_first();
        let t = insert_sorted(rest, e);
        assert forall|i: int, j: int| 0 <= i < j < rest.len() implies !precedes(#[trigger] rest[j], #[trigger] rest[i]) by {
            assert(rest[i] == s[i + 1] && rest[j] == s[j + 1]);
        }
        lemma_insert_sorted_ordered(rest, e);
        lemma_insert_sorted_multiset(rest, e);
        let r = seq![s[0]] + t;
        assert forall|i: int, j: int| 0 <= i < j < r.len() implies !precedes(#[trigger] r[j], #[trigger] r[i]) by {
            if i == 0 {
                let x = t[j - 1];
                assert(r[j] == x);
                assert(t.contains(x));
                assert(t.to_multiset().count(x) > 0);
                if x != e {
                    assert(rest.to_multiset().insert(e).count(x) == rest.to_multiset().count(x));
                    assert(rest.to_multiset().count(x) > 0);
                    assert(rest.contains(x));
                    let m = choose|m: int| 0 <= m < rest.len() && rest[m] == x;
                    assert(s[m + 1] == x);
                    assert(!precedes(s[m + 1], s[0]));
                }
            } else {
                assert(r[i] == t[i - 1] && r[j] == t[j - 1]);
            }
        }
    }
}

/// The sorted list is ordered: pinned first, then newest first.
pub proof fn lemma_sort_is_ordered(s: Seq<ClipboardHistoryEntry>)
    ensures
        is_ordered(sort_entries(s)),
    decreases s.len(),
{
    if s.len() > 0 {
        lemma_sort_is_ordered(s.drop_last());
        lemma_insert_sorted_ordered(sort_entries(s.drop_last()), s.last());
    }
}

proof fn lemma_key_set_of_permutation(a: Seq<ClipboardHistoryEntry>, b: Seq<ClipboardHistoryEntry>)
    requires
        a.to_multiset() == b.to_multiset(),
    ensures
        key_set(a) == key_set(b),
{
    assert forall|k: Seq<char>| key_set(a).contains(k) implies key_set(b).contains(k) by {
        let i = choose|i: int| 0 <= i < a.len() && entry_key(#[trigger] a[i]) == k;
        assert(a.contains(a[i]));
        assert(b.to_multiset().count(a[i]) > 0);
        let j = choose|j: int| 0 <= j < b.len() && b[j] == a[i];
        assert(entry_key(b[j]) == k);
    }
    assert forall|k: Seq<char>| key_set(b).contains(k) implies key_set(a).contains(k) by {
        let i = choose|i: int| 0 <= i < b.len() && entry_key(#[trigger] b[i]) == k;
        assert(b.contains(b[i]));
        assert(a.to_multiset().count(b[i]) > 0);
        let j = choose|j: int| 0 <= j < a.len() && a[j] == b[i];
        assert(entry_key(a[j]) == k);
    }
    assert(key_set(a) =~= key_set(b));
}

proof fn lemma_insert_sorted_distinct(s: Seq<ClipboardHistoryEntry>, e: ClipboardHistoryEntry)
    requires
        distinct_keys(s),
        !key_set(s).contains(entry_key(e)),
    ensures
        distinct_keys(insert_sorted(s, e)),
    decreases s.len(),
{
    if s.len() == 0 {
    } else if precedes(e, s[0]) {
        let r = seq![e] + s;
        assert forall|i: int, j: int|
            0 <= i < r.len() && 0 <= j < r.len() && i != j implies entry_key(#[trigger] r[i]) != entry_key(#[trigger] r[j]) by {
            if i == 0 {
                assert(entry_key(s[j - 1]) != entry_key(e));
            } else if j == 0 {
                assert(entry_key(s[i - 1]) != entry_key(e));
            } else {
                assert(r[i] == s[i - 1] && r[j] == s[j - 1]);
            }
        }
    } else {
        let rest = s.drop_first();
        assert forall|i: int, j: int|
            0 <= i < rest.len() && 0 <= j < rest.len() && i != j implies entry_key(#[trigger] rest[i]) != entry_key(#[trigger] rest[j]) by {
            assert(rest[i] == s[i + 1] && rest[j] == s[j + 1]);
        }
        assert(!key_set(rest).contains(entry_key(e))) by {
            if key_set(rest).contains(entry_key(e)) {
                let m = choose|m: int| 0 <= m < rest.len() && entry_key(#[trigger] rest[m]) == entry_key(e);
                assert(entry_key(s[m + 1]) == entry_key(e));
            }
        }
        lemma_insert_sorted_distinct(rest, e);
        let t = insert_sorted(rest, e);
        lemma_insert_sorted_multiset(rest, e);
        lemma_key_set_of_permutation(t, rest.push(e));
        lemma_key_set_push(rest, e);
        let r = seq![s[0]] + t;
        assert forall|i: int, j: int|
            0 <= i < r.len() && 0 <= j < r.len() && i != j implies entry_key(#[trigger] r[i]) != entry_key(#[trigger] r[j]) by {
            if i == 0 || j == 0 {
                let x = if i == 0 { t[j - 1] } else { t[i - 1] };
                assert(key_set(t).contains(entry_key(x)));
                if entry_key(x) == entry_key(e) {
                    assert(entry_key(s[0]) != entry_key(e));
                } else {
                    assert(key_set(rest).contains(entry_key(x)));
                    let m = choose|m: int| 0 <= m < rest.len() && entry_key(#[trigger] rest[m]) == entry_key(x);
                    assert(entry_key(s[m + 1]) != entry_key(s[0]));
                }
            } else {
                assert(r[i] == t[i - 1] && r[j] == t[j - 1]);
            }
        }
    }
}

proof fn lemma_sort_distinct(s: Seq<ClipboardHistoryEntry>)
    requires
        distinct_keys(s),
    ensures
        distinct_keys(sort_entries(s)),
    decreases s.len(),
{
    if s.len() > 0 {
        let d = s.drop_last();
        assert forall|i: int, j: int|
            0 <= i < d.len() && 0 <= j < d.len() && i != j implies entry_key(#[trigger] d[i]) != entry_key(#[trigger] d[j]) by {
            assert(d[i] == s[i] && d[j] == s[j]);
        }
        lemma_sort_distinct(d);
        lemma_sort_is_permutation(d);
        lemma_key_set_of_permutation(sort_entries(d), d);
        assert(!key_set(d).contains(entry_key(s.last()))) by {
            if key_set(d).contains(entry_key(s.last())) {
                let m = choose|m: int| 0 <= m < d.len() && entry_key(#[trigger] d[m]) == entry_key(s.last());
                assert(s[m] == d[m]);
            }
        }
        lemma_insert_sorted_distinct(sort_entries(d), s.last());
    }
}

proof fn lemma_insert_sorted_unpinned(s: Seq<ClipboardHistoryEntry>, e: ClipboardHistoryEntry)
    ensures
        unpinned_count(insert_sorted(s, e)) == unpinned_count(s) + (if e.pinned { 0nat } else { 1nat }),
    decreases s.len(),
{
    if s.len() == 0 {
        lemma_unpinned_count_cons(e, s);
    } else if precedes(e, s[0]) {
        lemma_unpinned_count_cons(e, s);
    } else {
        lemma_insert_sorted_unpinned(s.drop_first(), e);
        lemma_unpinned_count_cons(s[0], insert_sorted(s.drop_first(), e));
    }
}

proof fn lemma_sort_unpinned(s: Seq<ClipboardHistoryEntry>)
    ensures
        unpinned_count(sort_entries(s)) == unpinned_count(s),
    decreases s.len(),
{
    if s.len() > 0 {
        lemma_sort_unpinned(s.drop_last());
        lemma_insert_sorted_unpinned(sort_entries(s.drop_last()), s.last());
        lemma_unpinned_count_push(s.drop_last(), s.last());
        assert(s.drop_last().push(s.last()) =~= s);
    }
}

proof fn lemma_cap_bound(s: Seq<ClipboardHistoryEntry>, k: nat)
    ensures
        unpinned_count(cap_from(s, k)) <= k,
    decreases s.len(),
{
    if s.len() > 0 {
        let rest = s.drop_first();
        if s[0].pinned {
            lemma_cap_bound(rest, k);
            lemma_unpinned_count_cons(s[0], cap_from(rest, k));
        } else if k > 0 {
            lemma_cap_bound(rest, (k - 1) as nat);
            lemma_unpinned_count_cons(s[0], cap_from(rest, (k - 1) as nat));
        } else {
            lemma_cap_bound(rest, k);
        }
    }
}

proof fn lemma_cap_distinct(s: Seq<ClipboardHistoryEntry>, k: nat)
    requires
        distinct_keys(s),
    ensures
        distinct_keys(cap_from(s, k)),
        key_set(cap_from(s, k)).subset_of(key_set(s)),
    decreases s.len(),
{
    if s.len() > 0 {
        let rest = s.drop_first();
        assert forall|i: int, j: int|
            0 <= i < rest.len() && 0 <= j < rest.len() && i != j implies entry_key(#[trigger] rest[i]) != entry_key(#[trigger] rest[j]) by {
            assert(rest[i] == s[i + 1] && rest[j] == s[j + 1]);
        }
        let k2: nat = if s[0].pinned || k == 0 { k } else { (k - 1) as nat };
        lemma_cap_distinct(rest, k2);
        let c = cap_from(rest, k2);
        assert forall|x: Seq<char>| key_set(rest).contains(x) implies key_set(s).contains(x) by {
            let m = choose|m: int| 0 <= m < rest.len() && entry_key(#[trigger] rest[m]) == x;
            assert(s[m + 1] == rest[m]);
        }
        if s[0].pinned || k > 0 {
            let r = seq![s[0]] + c;
            assert(cap_from(s, k) == r);
            assert forall|i: int, j: int|
                0 <= i < r.len() && 0 <= j < r.len() && i != j implies entry_key(#[trigger] r[i]) != entry_key(#[trigger] r[j]) by {
                if i == 0 || j == 0 {
                    let x = if i == 0 { c[j - 1] } else { c[i - 1] };
                    assert(key_set(c).contains(entry_key(x)));
                    assert(key_set(rest).contains(entry_key(x)));
                    let m = choose|m: int| 0 <= m < rest.len() && entry_key(#[trigger] rest[m]) == entry_key(x);
                    assert(entry_key(s[m + 1]) != entry_key(s[0]));
                } else {
                    assert(r[i] == c[i - 1] && r[j] == c[j - 1]);
                }
            }
            assert forall|x: Seq<char>| key_set(r).contains(x) implies key_set(s).contains(x) by {
                let m = choose|m: int| 0 <= m < r.len() && entry_key(#[trigger] r[m]) == x;
                if m == 0 {
                    assert(entry_key(s[0]) == x);
                } else {
                    assert(entry_key(c[m - 1]) == x);
                    assert(key_set(c).contains(x));
                }
            }
        }
    }
}

proof fn lemma_dedup_distinct(s: Seq<ClipboardHistoryEntry>, seen: Set<Seq<char>>)
    ensures
        distinct_keys(dedup_from(s, seen)),
        key_set(dedup_from(s, seen)).disjoint(seen),
    decreases s.len(),
{
    if s.len() > 0 {
        let rest = s.drop_first();
        if seen.contains(entry_key(s[0])) {
            lemma_dedup_distinct(rest, seen);
        } else {
            let seen2 = seen.insert(entry_key(s[0]));
            lemma_dedup_distinct(rest, seen2);
            let d = dedup_from(rest, seen2);
            let r = seq![s[0]] + d;
            assert forall|i: int, j: int|
                0 <= i < r.len() && 0 <= j < r.len() && i != j implies entry_key(#[trigger] r[i]) != entry_key(#[trigger] r[j]) by {
                if i == 0 || j == 0 {
                    let x = if i == 0 { d[j - 1] } else { d[i - 1] };
                    assert(key_set(d).contains(entry_key(x)));
                    assert(!seen2.contains(entry_key(x)));
                } else {
                    assert(r[i] == d[i - 1] && r[j] == d[j - 1]);
                }
            }
            assert forall|x: Seq<char>| key_set(r).contains(x) implies !seen.contains(x) by {
                let m = choose|m: int| 0 <= m < r.len() && entry_key(#[trigger] r[m]) == x;
                if m > 0 {
                    assert(entry_key(d[m - 1]) == x);
                    assert(key_set(d).contains(x));
                }
            }
        }
    }
}

proof fn lemma_cap_keeps_pinned(s: Seq<ClipboardHistoryEntry>, k: nat, x: ClipboardHistoryEntry)
    requires
        s.contains(x),
        x.pinned,
    ensures
        cap_from(s, k).contains(x),
    decreases s.len(),
{
    let rest = s.drop_first();
    if s[0] == x {
        assert((seq![s[0]] + cap_from(rest, k))[0] == x);
    } else {
        let m = choose|m: int| 0 <= m < s.len() && s[m] == x;
        assert(rest[m - 1] == x);
        let k2: nat = if s[0].pinned || k == 0 { k } else { (k - 1) as nat };
        lemma_cap_keeps_pinned(rest, k2, x);
        let c = cap_from(rest, k2);
        let j = choose|j: int| 0 <= j < c.len() && c[j] == x;
        if s[0].pinned || k > 0 {
            assert((seq![s[0]] + c)[j + 1] == x);
        }
    }
}

/// The normalised history is ordered: pinned entries first, each part
/// newest first.
pub proof fn lemma_normalized_is_ordered(s: Seq<ClipboardHistoryEntry>, limit: nat)
    ensures
        is_ordered(normalized_history(s, limit)),
{
    lemma_sort_is_ordered(cap_from(dedup_by_key(s), limit));
}

/// The normalised history holds at most one entry per identity.
pub proof fn lemma_normalized_has_distinct_keys(s: Seq<ClipboardHistoryEntry>, limit: nat)
    ensures
        distinct_keys(normalized_history(s, limit)),
{
    lemma_dedup_distinct(s, Set::empty());
    lemma_cap_distinct(dedup_by_key(s), limit);
    lemma_sort_distinct(cap_from(dedup_by_key(s), limit));
}

/// The normalised history holds at most `limit` unpinned entries.
pub proof fn lemma_normalized_within_capacity(s: Seq<ClipboardHistoryEntry>, limit: nat)
    ensures
        unpinned_count(normalized_history(s, limit)) <= limit,
{
    lemma_cap_bound(dedup_by_key(s), limit);
    lemma_sort_unpinned(cap_from(dedup_by_key(s), limit));
}

/// The capacity never evicts a pinned entry: every pinned entry that
/// survives deduplication is in the normalised history.
pub proof fn lemma_normalized_keeps_pinned(s: Seq<ClipboardHistoryEntry>, limit: nat, x: ClipboardHistoryEntry)
    requires
        dedup_by_key(s).contains(x),
        x.pinned,
    ensures
        normalized_history(s, limit).contains(x),
{
    let c = cap_from(dedup_by_key(s), limit);
    lemma_cap_keeps_pinned(dedup_by_key(s), limit, x);
    lemma_sort_is_permutation(c);
    assert(c.to_multiset().count(x) > 0);
    assert(sort_entries(c).to_multiset().count(x) > 0);
}

/// The three guarantees of the normalised history together.
pub proof fn lemma_normal_form(s: Seq<ClipboardHistoryEntry>, limit: nat)
    ensures
        is_ordered(normalized_history(s, limit)),
        distinct_keys(normalized_history(s, limit)),
        unpinned_count(normalized_history(s, limit)) <= limit,
{
    lemma_normalized_is_ordered(s, limit);
    lemma_normalized_has_distinct_keys(s, limit);
    lemma_normalized_within_capacity(s, limit);
}

/// A capture put in front of a history is kept, and is the only entry of
/// its identity afterwards: older copies collapse onto it.
pub proof fn lemma_front_entry_is_sole_copy(e: ClipboardHistoryEntry, rest: Seq<ClipboardHistoryEntry>, limit: nat)
    requires
        limit >= 1,
    ensures
        normalized_history(seq![e] + rest, limit).contains(e),
        forall|i: int|
            0 <= i < normalized_history(seq![e] + rest, limit).len()
                && entry_key(#[trigger] normalized_history(seq![e] + rest, limit)[i]) == entry_key(e)
                ==> normalized_history(seq![e] + rest, limit)[i] == e,
{
    let s = seq![e] + rest;
    assert(s[0] == e);
    assert(s.drop_first() =~= rest);
    let d = dedup_by_key(s);
    assert(d[0] == e);
    let c = cap_from(d, limit);
    assert(c[0] == e);
    assert(c.contains(e));
    lemma_sort_is_permutation(c);
    assert(c.to_multiset().count(e) > 0);
    let n = sort_entries(c);
    assert(n.to_multiset().count(e) > 0);
    assert(n.contains(e));
    lemma_normalized_has_distinct_keys(s, limit);
    let p = choose|p: int| 0 <= p < n.len() && n[p] == e;
    assert forall|i: int| 0 <= i < n.len() && entry_key(#[trigger] n[i]) == entry_key(e) implies n[i] == e by {
        if i != p {
            assert(entry_key(n[i]) != entry_key(n[p]));
        }
    }
}

proof fn lemma_dedup_of_distinct(s: Seq<ClipboardHistoryEntry>, seen: Set<Seq<char>>)
    requires
        distinct_keys(s),
        key_set(s).disjoint(seen),
    ensures
        dedup_from(s, seen) == s,
    decreases s.len(),
{
    if s.len() > 0 {
        let rest = s.drop_first();
        let seen2 = seen.insert(entry_key(s[0]));
        assert(key_set(s).contains(entry_key(s[0])));
        assert forall|i: int, j: int|
            0 <= i < rest.len() && 0 <= j < rest.len() && i != j implies entry_key(#[trigger] rest[i]) != entry_key(#[trigger] rest[j]) by {
            assert(rest[i] == s[i + 1] && rest[j] == s[j + 1]);
        }
        assert forall|k: Seq<char>| key_set(rest).contains(k) implies !seen2.contains(k) by {
            let m = choose|m: int| 0 <= m < rest.len() && entry_key(#[trigger] rest[m]) == k;
            assert(rest[m] == s[m + 1]);
            assert(key_set(s).contains(k));
            assert(entry_key(s[m + 1]) != entry_key(s[0]));
        }
        lemma_dedup_of_distinct(rest, seen2);
        assert(seq![s[0]] + rest =~= s);
    }
}

proof fn lemma_cap_of_small(s: Seq<ClipboardHistoryEntry>, k: nat)
    requires
        unpinned_count(s) <= k,
    ensures
        cap_from(s, k) == s,
    decreases s.len(),
{
    if s.len() > 0 {
        let rest = s.drop_first();
        if s[0].pinned {
            lemma_cap_of_small(rest, k);
        } else {
            lemma_cap_of_small(rest, (k - 1) as nat);
        }
        assert(seq![s[0]] + rest =~= s);
    }
}

proof fn lemma_sort_of_ordered(s: Seq<ClipboardHistoryEntry>)
    requires
        is_ordered(s),
    ensures
        sort_entries(s) == s,
    decreases s.len(),
{
    if s.len() > 0 {
        let d = s.drop_last();
        assert forall|i: int, j: int| 0 <= i < j < d.len() implies !precedes(#[trigger] d[j], #[trigger] d[i]) by {
            assert(d[i] == s[i] && d[j] == s[j]);
        }
        lemma_sort_of_ordered(d);
        assert forall|i: int| 0 <= i < d.len() implies !precedes(s.last(), #[trigger] d[i]) by {
            assert(d[i] == s[i]);
            assert(s.last() == s[s.len() - 1]);
        }
        lemma_insert_sorted_at(d, s.last(), d.len() as int);
        assert(d.subrange(0, d.len() as int).push(s.last()) + d.subrange(d.len() as int, d.len() as int) =~= s);
    }
}

/// The normalisation pass changes nothing on a history it produced: running
/// it again without a new capture is no second mutation.
pub proof fn lemma_normalize_twice(s: Seq<ClipboardHistoryEntry>, limit: nat)
    ensures
        normalized_history(normalized_history(s, limit), limit) == normalized_history(s, limit),
{
    let n = normalized_history(s, limit);
    lemma_normal_form(s, limit);
    assert(key_set(n).disjoint(Set::<Seq<char>>::empty()));
    lemma_dedup_of_distinct(n, Set::empty());
    lemma_cap_of_small(n, limit);
    lemma_sort_of_ordered(n);
}

} // verus!
