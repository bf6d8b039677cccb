//! Path expansion and small string utilities.

use vstd::prelude::*;

verus! {

/// ASCII case folding of one character: `A`..`Z` fold to `a`..`z`; every
/// other character is itself.
pub open spec fn lower_ascii_spec(c: char) -> char {
    if c == 'A' {
        'a'
    } else if c == 'B' {
        'b'
    } else if c == 'C' {
        'c'
    } else if c == 'D' {
        'd'
    } else if c == 'E' {
        'e'
    } else if c == 'F' {
        'f'
    } else if c == 'G' {
        'g'
    } else if c == 'H' {
        'h'
    } else if c == 'I' {
        'i'
    } else if c == 'J' {
        'j'
    } else if c == 'K' {
        'k'
    } else if c == 'L' {
        'l'
    } else if c == 'M' {
        'm'
    } else if c == 'N' {
        'n'
    } else if c == 'O' {
        'o'
    } else if c == 'P' {
        'p'
    } else if c == 'Q' {
        'q'
    } else if c == 'R' {
        'r'
    } else if c == 'S' {
        's'
    } else if c == 'T' {
        't'
    } else if c == 'U' {
        'u'
    } else if c == 'V' {
        'v'
    } else if c == 'W' {
        'w'
    } else if c == 'X' {
        'x'
    } else if c == 'Y' {
        'y'
    } else if c == 'Z' {
        'z'
    } else {
        c
    }
}

/// Executable ASCII case folding of one character.
#[verifier::when_used_as_spec(lower_ascii_spec)]
pub fn lower_ascii(c: char) -> (r: char)
    ensures
        r == lower_ascii_spec(c),
{
    if c == 'A' {
        'a'
    } else if c == 'B' {
        'b'
    } else if c == 'C' {
        'c'
    } else if c == 'D' {
        'd'
    } else if c == 'E' {
        'e'
    } else if c == 'F' {
        'f'
    } else if c == 'G' {
        'g'
    } else if c == 'H' {
        'h'
    } else if c == 'I' {
        'i'
    } else if c == 'J' {
        'j'
    } else if c == 'K' {
        'k'
    } else if c == 'L' {
        'l'
    } else if c == 'M' {
        'm'
    } else if c == 'N' {
        'n'
    } else if c == 'O' {
        'o'
    } else if c == 'P' {
        'p'
    } else if c == 'Q' {
        'q'
    } else if c == 'R' {
        'r'
    } else if c == 'S' {
        's'
    } else if c == 'T' {
        't'
    } else if c == 'U' {
        'u'
    } else if c == 'V' {
        'v'
    } else if c == 'W' {
        'w'
    } else if c == 'X' {
        'x'
    } else if c == 'Y' {
        'y'
    } else if c == 'Z' {
        'z'
    } else {
        c
    }
}

/// `s` equals the lower-case keyword `kw` up to ASCII case.
pub open spec fn eq_ignore_ascii_case_spec(s: Seq<char>, kw: Seq<char>) -> bool {
    s.len() == kw.len() && forall|i: int|
        0 <= i < s.len() ==> lower_ascii_spec(#[trigger] s[i]) == kw[i]
}

/// Decides whether `s` equals the lower-case keyword `kw` up to ASCII case.
pub fn eq_ignore_ascii_case(s: &str, kw: &str) -> (r: bool)
    ensures
        r == eq_ignore_ascii_case_spec(s@, kw@),
{
    let n = s.unicode_len();
    if n != kw.unicode_len() {
        return false;
    }
    let mut i: usize = 0;
    while i < n
        invariant
            i <= n,
            n == s@.len(),
            n == kw@.len(),
            forall|j: int| 0 <= j < i ==> lower_ascii_spec(#[trigger] s@[j]) == kw@[j],
        decreases n - i,
    {
        if lower_ascii(s.get_char(i)) != kw.get_char(i) {
            return false;
        }
        i += 1;
    }
    true
}

/// A pushed element extends a vector's deep view by its own deep view.
pub proof fn lemma_deep_view_push<T: DeepView>(v1: Vec<T>, v2: Vec<T>, x: T)
    requires
        v2@ == v1@.push(x),
    ensures
        v2.deep_view() == v1.deep_view().push(x.deep_view()),
{
    assert forall|j: int|
        0 <= j < v2.deep_view().len() implies v2.deep_view()[j] == v1.deep_view().push(
        x.deep_view(),
    )[j] by {
        if j < v1@.len() {
            assert(v2@[j] == v1@[j]);
        } else {
            assert(v2@[j] == x);
        }
    }
    assert(v2.deep_view() =~= v1.deep_view().push(x.deep_view()));
}

/// Leading-`~` expansion: when the path's first character is `~`, exactly
/// that character is replaced by the home directory; any other path is
/// returned unchanged.
pub open spec fn expand_user_spec(path: Seq<char>, home: Seq<char>) -> Seq<char> {
    if path.len() > 0 && path[0] == '~' {
        home + path.drop_first()
    } else {
        path
    }
}

/// Expands a leading `~` in `path` to the given home directory.
pub fn expand_user(path: &str, home: &str) -> (r: String)
    ensures
        r@ == expand_user_spec(path@, home@),
{
    let n = path.unicode_len();
    if n > 0 && path.get_char(0) == '~' {
        let mut r = String::new();
        r.append(home);
        let rest = path.substring_char(1, n);
        r.append(rest);
        proof {
            assert(rest@ =~= path@.drop_first());
        }
        r
    } else {
        let mut r = String::new();
        r.append(path);
        r
    }
}

} // verus!
