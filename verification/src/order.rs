//! Lexicographic ordering on character sequences.
//!
//! Registry entries are enumerated in ascending order of their names, so the
//! library needs a total order on strings. The order compares code points
//! position by position; a proper prefix sorts before every extension of it.

use vstd::prelude::*;

verus! {

/// Strict lexicographic order on sequences of characters, by code point.
pub open spec fn seq_char_lt(a: Seq<char>, b: Seq<char>) -> bool
    decreases a.len(),
{
    if a.len() == 0 {
        b.len() > 0
    } else if b.len() == 0 {
        false
    } else if a[0] < b[0] {
        true
    } else if a[0] == b[0] {
        seq_char_lt(a.drop_first(), b.drop_first())
    } else {
        false
    }
}

/// The order is irreflexive.
pub proof fn lemma_lt_irreflexive(a: Seq<char>)
    ensures
        !seq_char_lt(a, a),
    decreases a.len(),
{
    if a.len() > 0 {
        lemma_lt_irreflexive(a.drop_first());
    }
}

/// The order is transitive.
pub proof fn lemma_lt_transitive(a: Seq<char>, b: Seq<char>, c: Seq<char>)
    requires
        seq_char_lt(a, b),
        seq_char_lt(b, c),
    ensures
        seq_char_lt(a, c),
    decreases a.len(),
{
    if a.len() > 0 && b.len() > 0 && c.len() > 0 && a[0] == b[0] && b[0] == c[0] {
        lemma_lt_transitive(a.drop_first(), b.drop_first(), c.drop_first());
    }
}

/// Any two sequences are ordered one way or the other, or are equal.
pub proof fn lemma_lt_connected(a: Seq<char>, b: Seq<char>)
    ensures
        seq_char_lt(a, b) || seq_char_lt(b, a) || a == b,
    decreases a.len(),
{
    if a.len() == 0 && b.len() == 0 {
        assert(a =~= b);
    } else if a.len() > 0 && b.len() > 0 {
        if a[0] == b[0] {
            lemma_lt_connected(a.drop_first(), b.drop_first());
            if a.drop_first() == b.drop_first() {
                assert(a.drop_first().len() == a.len() - 1);
                assert(b.drop_first().len() == b.len() - 1);
                assert forall|i: int| 0 <= i < a.len() implies a[i] == b[i] by {
                    if i > 0 {
                        assert(a[i] == a.drop_first()[i - 1]);
                        assert(b[i] == b.drop_first()[i - 1]);
                    }
                }
                assert(a =~= b);
            }
        } else if a[0] < b[0] {
            assert(seq_char_lt(a, b));
        } else {
            assert(b[0] < a[0]);
            assert(seq_char_lt(b, a));
        }
    }
}

/// At most one of `a < b` and `b < a` holds.
pub proof fn lemma_lt_asymmetric(a: Seq<char>, b: Seq<char>)
    requires
        seq_char_lt(a, b),
    ensures
        !seq_char_lt(b, a),
        a != b,
{
    lemma_lt_irreflexive(a);
    if seq_char_lt(b, a) {
        lemma_lt_transitive(a, b, a);
    }
}

/// Compares the tails of two strings, starting at character position `i`.
fn str_lt_from(a: &str, b: &str, i: usize) -> (r: bool)
    requires
        i <= a@.len(),
        i <= b@.len(),
    ensures
        r == seq_char_lt(a@.skip(i as int), b@.skip(i as int)),
    decreases a@.len() - i,
{
    if i == b.unicode_len() {
        false
    } else if i == a.unicode_len() {
        true
    } else {
        let ca = a.get_char(i);
        let cb = b.get_char(i);
        if ca < cb {
            true
        } else if ca == cb {
            proof {
                assert(a@.skip(i as int).drop_first() =~= a@.skip(i + 1));
                assert(b@.skip(i as int).drop_first() =~= b@.skip(i + 1));
            }
            str_lt_from(a, b, i + 1)
        } else {
            false
        }
    }
}

/// Decides the lexicographic order on two strings.
pub fn str_lt(a: &str, b: &str) -> (r: bool)
    ensures
        r == seq_char_lt(a@, b@),
{
    proof {
        assert(a@.skip(0) =~= a@);
        assert(b@.skip(0) =~= b@);
    }
    str_lt_from(a, b, 0)
}

} // verus!
