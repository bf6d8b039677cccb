//! Name-keyed entry sequences.
//!
//! The registry stores its records in vectors kept in strictly ascending
//! name order, so that names are unique and every enumeration is already the
//! canonical sorted listing. This module gives the ghost-level model of such
//! a store: insertion (last write wins), removal, lookup, and the laws these
//! operations obey.

use vstd::prelude::*;
use crate::order::{
    seq_char_lt, lemma_lt_irreflexive, lemma_lt_transitive, lemma_lt_connected,
    lemma_lt_asymmetric,
};

verus! {

/// A record filed under a name.
pub trait Keyed {
    /// The name the record is filed under.
    spec fn key(self) -> Seq<char>;
}

/// The entries are in strictly ascending name order; in particular names are
/// unique.
pub open spec fn sorted_by_key<T: Keyed>(s: Seq<T>) -> bool {
    forall|i: int, j: int|
        0 <= i < j < s.len() ==> #[trigger] seq_char_lt(s[i].key(), s[j].key())
}

/// Whether some entry is filed under the name `k`.
pub open spec fn has_key<T: Keyed>(s: Seq<T>, k: Seq<char>) -> bool {
    exists|i: int| 0 <= i < s.len() && (#[trigger] s[i].key()) == k
}

/// The position of the entry filed under `k` (meaningful when `has_key`).
pub open spec fn index_of_key<T: Keyed>(s: Seq<T>, k: Seq<char>) -> int {
    choose|i: int| 0 <= i < s.len() && (#[trigger] s[i].key()) == k
}

/// The entry filed under `k` (meaningful when `has_key`).
pub open spec fn entry_named<T: Keyed>(s: Seq<T>, k: Seq<char>) -> T {
    s[index_of_key(s, k)]
}

/// The names of the entries, in store order.
pub open spec fn keys_of<T: Keyed>(s: Seq<T>) -> Seq<Seq<char>> {
    Seq::new(s.len(), |i: int| s[i].key())
}

/// The first position whose name is not below `k`: where an entry named `k`
/// belongs.
pub open spec fn first_at_or_above<T: Keyed>(s: Seq<T>, k: Seq<char>) -> int
    decreases s.len(),
{
    if s.len() == 0 {
        0
    } else if !seq_char_lt(s[0].key(), k) {
        0
    } else {
        1 + first_at_or_above(s.drop_first(), k)
    }
}

/// Filing a record: an entry with the same name is overwritten, otherwise the
/// record enters at its sorted position.
pub open spec fn insert_entry<T: Keyed>(s: Seq<T>, x: T) -> Seq<T> {
    let p = first_at_or_above(s, x.key());
    if p < s.len() && s[p].key() == x.key() {
        s.update(p, x)
    } else {
        s.insert(p, x)
    }
}

/// Dropping the record filed under `k`; a no-op when no entry has that name.
pub open spec fn remove_entry<T: Keyed>(s: Seq<T>, k: Seq<char>) -> Seq<T> {
    if has_key(s, k) {
        s.remove(index_of_key(s, k))
    } else {
        s
    }
}

/// Filing each record of `xs` in turn, starting from `s`.
pub open spec fn insert_all<T: Keyed>(s: Seq<T>, xs: Seq<T>) -> Seq<T>
    decreases xs.len(),
{
    if xs.len() == 0 {
        s
    } else {
        insert_entry(insert_all(s, xs.drop_last()), xs.last())
    }
}

/// Dropping the names of `ks` in turn, starting from `s`.
pub open spec fn remove_all<T: Keyed>(s: Seq<T>, ks: Seq<Seq<char>>) -> Seq<T>
    decreases ks.len(),
{
    if ks.len() == 0 {
        s
    } else {
        remove_entry(remove_all(s, ks.drop_last()), ks.last())
    }
}

/// `first_at_or_above` is a boundary: everything before it is below `k`, and
/// the entry at it (if any) is not.
pub proof fn lemma_boundary<T: Keyed>(s: Seq<T>, k: Seq<char>)
    ensures
        0 <= first_at_or_above(s, k) <= s.len(),
        forall|j: int|
            0 <= j < first_at_or_above(s, k) ==> seq_char_lt(#[trigger] s[j].key(), k),
        first_at_or_above(s, k) < s.len() ==> !seq_char_lt(
            s[first_at_or_above(s, k)].key(),
            k,
        ),
    decreases s.len(),
{
    if s.len() > 0 && seq_char_lt(s[0].key(), k) {
        lemma_boundary(s.drop_first(), k);
        assert forall|j: int|
            0 <= j < first_at_or_above(s, k) implies seq_char_lt(#[trigger] s[j].key(), k) by {
            if j > 0 {
                assert(s.drop_first()[j - 1] == s[j]);
            }
        }
        if first_at_or_above(s, k) < s.len() {
            assert(s.drop_first()[first_at_or_above(s, k) - 1] == s[first_at_or_above(s, k)]);
        }
    }
}

/// In a sorted store a name has at most one position, and when present it is
/// exactly the insertion point.
pub proof fn lemma_key_position<T: Keyed>(s: Seq<T>, k: Seq<char>)
    requires
        sorted_by_key(s),
        has_key(s, k),
    ensures
        0 <= index_of_key(s, k) < s.len(),
        s[index_of_key(s, k)].key() == k,
        forall|i: int| 0 <= i < s.len() && (#[trigger] s[i].key()) == k ==> i == index_of_key(s, k),
        index_of_key(s, k) == first_at_or_above(s, k),
{
    let ix = index_of_key(s, k);
    assert(0 <= ix < s.len() && s[ix].key() == k);
    assert forall|i: int|
        0 <= i < s.len() && (#[trigger] s[i].key()) == k implies i == ix by {
        if i < ix {
            lemma_lt_irreflexive(k);
            assert(seq_char_lt(s[i].key(), s[ix].key()));
        } else if i > ix {
            lemma_lt_irreflexive(k);
            assert(seq_char_lt(s[ix].key(), s[i].key()));
        }
    }
    let p = first_at_or_above(s, k);
    lemma_boundary(s, k);
    if ix < p {
        lemma_lt_irreflexive(k);
        assert(seq_char_lt(s[ix].key(), k));
    } else if ix > p {
        assert(seq_char_lt(s[p].key(), s[ix].key()));
    }
}

/// What filing a record does: the store stays sorted, the record is present
/// under its name, and every other entry is untouched.
pub proof fn lemma_insert_entry<T: Keyed>(s: Seq<T>, x: T)
    requires
        sorted_by_key(s),
    ensures
        sorted_by_key(insert_entry(s, x)),
        insert_entry(s, x).len() == if has_key(s, x.key()) {
            s.len() as int
        } else {
            s.len() + 1 as int
        },
        forall|e: T|
            insert_entry(s, x).contains(e) <==> (e == x || (s.contains(e) && e.key()
                != x.key())),
        forall|k: Seq<char>| has_key(insert_entry(s, x), k) <==> (has_key(s, k) || k == x.key()),
        entry_named(insert_entry(s, x), x.key()) == x,
        forall|k: Seq<char>|
            k != x.key() && has_key(s, k) ==> entry_named(insert_entry(s, x), k) == entry_named(
                s,
                k,
            ),
{
    let k = x.key();
    let p = first_at_or_above(s, k);
    let t = insert_entry(s, x);
    lemma_boundary(s, k);
    if p < s.len() && s[p].key() == k {
        // Overwrite: `k` is present and sits exactly at `p`.
        lemma_key_position(s, k);
        assert(t == s.update(p, x));
        assert forall|i: int, j: int|
            0 <= i < j < t.len() implies #[trigger] seq_char_lt(t[i].key(), t[j].key()) by {
            assert(t[i].key() == s[i].key());
            assert(t[j].key() == s[j].key());
        }
        assert forall|e: T|
            t.contains(e) implies (e == x || (s.contains(e) && e.key() != k)) by {
            let i = choose|i: int| 0 <= i < t.len() && t[i] == e;
            if i == p {
            } else {
                assert(s[i] == e);
                lemma_lt_irreflexive(k);
                if s[i].key() == k {
                    assert(i == index_of_key(s, k));
                }
            }
        }
        assert forall|e: T|
            (e == x || (s.contains(e) && e.key() != k)) implies t.contains(e) by {
            if e == x {
                assert(t[p] == e);
            } else {
                let i = choose|i: int| 0 <= i < s.len() && s[i] == e;
                assert(i != p);
                assert(t[i] == e);
            }
        }
        assert forall|k2: Seq<char>|
            has_key(t, k2) implies (has_key(s, k2) || k2 == k) by {
            let i = choose|i: int| 0 <= i < t.len() && (#[trigger] t[i].key()) == k2;
            if i != p {
                assert(s[i].key() == k2);
            }
        }
        assert forall|k2: Seq<char>|
            (has_key(s, k2) || k2 == k) implies has_key(t, k2) by {
            if k2 == k {
                assert(t[p].key() == k2);
            } else {
                let i = choose|i: int| 0 <= i < s.len() && (#[trigger] s[i].key()) == k2;
                assert(i != p);
                assert(t[i].key() == k2);
            }
        }
        lemma_key_position(t, k);
        assert(t[p].key() == k);
        assert(entry_named(t, k) == x);
        assert forall|k2: Seq<char>|
            k2 != k && has_key(s, k2) implies entry_named(t, k2) == entry_named(s, k2) by {
            lemma_key_position(s, k2);
            lemma_key_position(t, k2);
            let i = index_of_key(s, k2);
            assert(i != p);
            assert(t[i].key() == k2);
            assert(index_of_key(t, k2) == i);
        }
    } else {
        // Fresh name: it enters at the boundary `p`.
        assert(t == s.insert(p, x));
        s.insert_ensures(p, x);
        assert(!has_key(s, k)) by {
            if has_key(s, k) {
                lemma_key_position(s, k);
            }
        }
        if p < s.len() {
            lemma_lt_connected(s[p].key(), k);
            assert(seq_char_lt(k, s[p].key()));
        }
        assert forall|i: int, j: int|
            0 <= i < j < t.len() implies #[trigger] seq_char_lt(t[i].key(), t[j].key()) by {
            let si = if i < p { i } else { i - 1 };
            let sj = if j < p { j } else { j - 1 };
            if i == p {
                // t[i] is x; j > p so t[j] == s[j-1] with p <= j-1.
                if sj == p {
                    assert(seq_char_lt(k, s[p].key()));
                } else {
                    assert(seq_char_lt(s[p].key(), s[sj].key()));
                    lemma_lt_transitive(k, s[p].key(), s[sj].key());
                }
            } else if j == p {
                // t[j] is x; i < p so s[i].key() is below k.
                assert(seq_char_lt(s[i].key(), k));
            } else {
                assert(t[i] == s[si]);
                assert(t[j] == s[sj]);
                if si < sj {
                } else {
                    assert(si == sj);
                    assert(false);
                }
            }
        }
        assert forall|e: T|
            t.contains(e) implies (e == x || (s.contains(e) && e.key() != k)) by {
            let i = choose|i: int| 0 <= i < t.len() && t[i] == e;
            if i < p {
                assert(s[i] == e);
                assert(seq_char_lt(e.key(), k));
                lemma_lt_irreflexive(k);
            } else if i > p {
                assert(s[i - 1] == e);
                if e.key() == k {
                    assert(has_key(s, k));
                }
            }
        }
        assert forall|e: T|
            (e == x || (s.contains(e) && e.key() != k)) implies t.contains(e) by {
            if e == x {
                assert(t[p] == e);
            } else {
                let i = choose|i: int| 0 <= i < s.len() && s[i] == e;
                if i < p {
                    assert(t[i] == e);
                } else {
                    assert(t[i + 1] == e);
                }
            }
        }
        assert forall|k2: Seq<char>|
            has_key(t, k2) implies (has_key(s, k2) || k2 == k) by {
            let i = choose|i: int| 0 <= i < t.len() && (#[trigger] t[i].key()) == k2;
            if i < p {
                assert(s[i].key() == k2);
            } else if i > p {
                assert(s[i - 1].key() == k2);
            }
        }
        assert forall|k2: Seq<char>|
            (has_key(s, k2) || k2 == k) implies has_key(t, k2) by {
            if k2 == k {
                assert(t[p].key() == k2);
            } else {
                let i = choose|i: int| 0 <= i < s.len() && (#[trigger] s[i].key()) == k2;
                if i < p {
                    assert(t[i].key() == k2);
                } else {
                    assert(t[i + 1].key() == k2);
                }
            }
        }
        assert(t[p].key() == k);
        assert(has_key(t, k));
        lemma_key_position(t, k);
        assert(entry_named(t, k) == x);
        assert forall|k2: Seq<char>|
            k2 != k && has_key(s, k2) implies entry_named(t, k2) == entry_named(s, k2) by {
            lemma_key_position(s, k2);
            lemma_key_position(t, k2);
            let i = index_of_key(s, k2);
            if i < p {
                assert(t[i].key() == k2);
                assert(index_of_key(t, k2) == i);
                assert(t[i] == s[i]);
            } else {
                assert(t[i + 1].key() == k2);
                assert(index_of_key(t, k2) == i + 1);
                assert(t[i + 1] == s[i]);
            }
        }
    }
}

/// What dropping a name does: the store stays sorted, the name is gone, and
/// every other entry is untouched.
pub proof fn lemma_remove_entry<T: Keyed>(s: Seq<T>, k: Seq<char>)
    requires
        sorted_by_key(s),
    ensures
        sorted_by_key(remove_entry(s, k)),
        remove_entry(s, k).len() == if has_key(s, k) {
            s.len() - 1
        } else {
            s.len() as int
        },
        forall|e: T| remove_entry(s, k).contains(e) <==> (s.contains(e) && e.key() != k),
        !has_key(remove_entry(s, k), k),
        forall|k2: Seq<char>| k2 != k ==> (has_key(remove_entry(s, k), k2) <==> has_key(s, k2)),
        forall|k2: Seq<char>|
            k2 != k && has_key(s, k2) ==> entry_named(remove_entry(s, k), k2) == entry_named(
                s,
                k2,
            ),
{
    if has_key(s, k) {
        lemma_key_position(s, k);
        let ix = index_of_key(s, k);
        let t = s.remove(ix);
        s.remove_ensures(ix);
        assert forall|i: int, j: int|
            0 <= i < j < t.len() implies #[trigger] seq_char_lt(t[i].key(), t[j].key()) by {
            let si = if i < ix { i } else { i + 1 };
            let sj = if j < ix { j } else { j + 1 };
            assert(t[i] == s[si]);
            assert(t[j] == s[sj]);
        }
        assert forall|e: T| t.contains(e) implies (s.contains(e) && e.key() != k) by {
            let i = choose|i: int| 0 <= i < t.len() && t[i] == e;
            let si = if i < ix { i } else { i + 1 };
            assert(s[si] == e);
            if e.key() == k {
                assert(si == ix);
            }
        }
        assert forall|e: T| (s.contains(e) && e.key() != k) implies t.contains(e) by {
            let i = choose|i: int| 0 <= i < s.len() && s[i] == e;
            assert(i != ix);
            if i < ix {
                assert(t[i] == e);
            } else {
                assert(t[i - 1] == e);
            }
        }
        assert forall|k2: Seq<char>| k2 != k && has_key(s, k2) implies has_key(t, k2) by {
            let i = choose|i: int| 0 <= i < s.len() && (#[trigger] s[i].key()) == k2;
            assert(i != ix);
            if i < ix {
                assert(t[i].key() == k2);
            } else {
                assert(t[i - 1].key() == k2);
            }
        }
        assert forall|k2: Seq<char>| has_key(t, k2) implies has_key(s, k2) by {
            let i = choose|i: int| 0 <= i < t.len() && (#[trigger] t[i].key()) == k2;
            let si = if i < ix { i } else { i + 1 };
            assert(s[si].key() == k2);
        }
        assert(!has_key(t, k)) by {
            if has_key(t, k) {
                let i = choose|i: int| 0 <= i < t.len() && (#[trigger] t[i].key()) == k;
                let si = if i < ix { i } else { i + 1 };
                assert(s[si].key() == k);
                assert(si == ix);
            }
        }
        assert forall|k2: Seq<char>|
            k2 != k && has_key(s, k2) implies entry_named(t, k2) == entry_named(s, k2) by {
            lemma_key_position(s, k2);
            lemma_key_position(t, k2);
            let i = index_of_key(s, k2);
            assert(i != ix);
            if i < ix {
                assert(t[i].key() == k2);
                assert(index_of_key(t, k2) == i);
                assert(t[i] == s[i]);
            } else {
                assert(t[i - 1].key() == k2);
                assert(index_of_key(t, k2) == i - 1);
                assert(t[i - 1] == s[i]);
            }
        }
    }
}

/// A sorted store is determined by its entries: two sorted stores holding the
/// same records are identical, whatever order the records were filed in.
pub proof fn lemma_sorted_entries_unique<T: Keyed>(s1: Seq<T>, s2: Seq<T>)
    requires
        sorted_by_key(s1),
        sorted_by_key(s2),
        forall|e: T| s1.contains(e) <==> s2.contains(e),
    ensures
        s1 == s2,
    decreases s1.len(),
{
    if s1.len() == 0 {
        if s2.len() > 0 {
            assert(s2.contains(s2[0]));
            assert(s1.contains(s2[0]));
        }
        assert(s1 =~= s2);
    } else {
        assert(s1.contains(s1[0]));
        assert(s2.contains(s1[0]));
        let i = choose|i: int| 0 <= i < s2.len() && s2[i] == s1[0];
        assert(s2.contains(s2[0]));
        assert(s1.contains(s2[0]));
        let j = choose|j: int| 0 <= j < s1.len() && s1[j] == s2[0];
        // The two heads carry the two least names, so they coincide.
        if i > 0 && j > 0 {
            assert(seq_char_lt(s2[0].key(), s2[i].key()));
            assert(seq_char_lt(s1[0].key(), s1[j].key()));
            lemma_lt_asymmetric(s2[0].key(), s1[0].key());
        }
        assert(s1[0] == s2[0]);
        let t1 = s1.drop_first();
        let t2 = s2.drop_first();
        assert forall|e: T| t1.contains(e) implies t2.contains(e) by {
            lemma_tail_membership(s1, s2, e);
        }
        assert forall|e: T| t2.contains(e) implies t1.contains(e) by {
            lemma_tail_membership(s2, s1, e);
        }
        assert forall|a: int, b: int|
            0 <= a < b < t1.len() implies #[trigger] seq_char_lt(t1[a].key(), t1[b].key()) by {
            assert(t1[a] == s1[a + 1]);
            assert(t1[b] == s1[b + 1]);
        }
        assert forall|a: int, b: int|
            0 <= a < b < t2.len() implies #[trigger] seq_char_lt(t2[a].key(), t2[b].key()) by {
            assert(t2[a] == s2[a + 1]);
            assert(t2[b] == s2[b + 1]);
        }
        lemma_sorted_entries_unique(t1, t2);
        assert forall|m: int| 0 <= m < s1.len() implies s1[m] == s2[m] by {
            if m > 0 {
                assert(s1[m] == t1[m - 1]);
                assert(s2[m] == t2[m - 1]);
            }
        }
        assert(s1 =~= s2);
    }
}

/// Helper: an entry of the tail of `s1` also sits in the tail of `s2`, given
/// equal membership, equal heads, and sortedness of `s1`.
proof fn lemma_tail_membership<T: Keyed>(s1: Seq<T>, s2: Seq<T>, e: T)
    requires
        sorted_by_key(s1),
        s1.len() > 0,
        s2.len() > 0,
        s1[0] == s2[0],
        forall|x: T| s1.contains(x) <==> s2.contains(x),
        s1.drop_first().contains(e),
    ensures
        s2.drop_first().contains(e),
{
    let i = choose|i: int| 0 <= i < s1.drop_first().len() && s1.drop_first()[i] == e;
    assert(s1[i + 1] == e);
    assert(s1.contains(e));
    assert(s2.contains(e));
    let m = choose|m: int| 0 <= m < s2.len() && s2[m] == e;
    if m == 0 {
        // Then e equals both heads, yet also sits strictly inside s1.
        assert(seq_char_lt(s1[0].key(), s1[i + 1].key()));
        lemma_lt_irreflexive(e.key());
    } else {
        assert(s2.drop_first()[m - 1] == e);
    }
}

/// Filing the records of a sorted listing into an empty store rebuilds that
/// listing exactly.
pub proof fn lemma_insert_all_rebuilds<T: Keyed>(xs: Seq<T>)
    requires
        sorted_by_key(xs),
    ensures
        insert_all(Seq::<T>::empty(), xs) == xs,
    decreases xs.len(),
{
    if xs.len() == 0 {
        assert(insert_all(Seq::<T>::empty(), xs) =~= xs);
    } else {
        let init = xs.drop_last();
        let x = xs.last();
        assert forall|i: int, j: int|
            0 <= i < j < init.len() implies #[trigger] seq_char_lt(init[i].key(), init[j].key()) by {
            assert(init[i] == xs[i]);
            assert(init[j] == xs[j]);
        }
        lemma_insert_all_rebuilds(init);
        // Every name of `init` is below x.key(), so x is appended at the end.
        let p = first_at_or_above(init, x.key());
        lemma_boundary(init, x.key());
        if p < init.len() {
            assert(init[p] == xs[p]);
            assert(seq_char_lt(xs[p].key(), x.key()));
            assert(false);
        }
        assert(p == init.len());
        assert(insert_entry(init, x) == init.insert(p, x));
        init.insert_ensures(p, x);
        assert(insert_entry(init, x) =~= xs);
        assert(insert_all(Seq::<T>::empty(), xs) == insert_entry(
            insert_all(Seq::<T>::empty(), init),
            x,
        ));
    }
}

/// Filing the same record twice leaves exactly what filing it once leaves.
pub proof fn lemma_insert_entry_idempotent<T: Keyed>(s: Seq<T>, x: T)
    requires
        sorted_by_key(s),
    ensures
        insert_entry(insert_entry(s, x), x) == insert_entry(s, x),
{
    let k = x.key();
    let t = insert_entry(s, x);
    lemma_insert_entry(s, x);
    lemma_key_position(t, k);
    let p = first_at_or_above(t, k);
    assert(p == index_of_key(t, k));
    assert(t[p] == entry_named(t, k));
    assert(t[p] == x);
    assert(t[p].key() == k);
    assert(insert_entry(t, x) == t.update(p, x));
    assert(t.update(p, x) =~= t);
}

} // verus!
