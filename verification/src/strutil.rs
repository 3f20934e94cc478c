//! Verified helpers on strings: equality, base names, extension stripping.

use vstd::prelude::*;

verus! {

/// Character-for-character string equality.
pub fn str_eq(a: &str, b: &str) -> (r: bool)
    ensures
        r == (a@ == b@),
{
    let na = a.unicode_len();
    let nb = b.unicode_len();
    if na != nb {
        proof {
            assert(a@ != b@) by {
                assert(a@.len() != b@.len());
            }
        }
        return false;
    }
    let mut i: usize = 0;
    while i < na
        invariant
            na == a@.len(),
            na == b@.len(),
            i <= na,
            forall|k: int| 0 <= k < i ==> a@[k] == b@[k],
        decreases na - i,
    {
        if a.get_char(i) != b.get_char(i) {
            return false;
        }
        i += 1;
    }
    proof {
        assert(a@ =~= b@);
    }
    true
}

/// The position of the last occurrence of `c` in `s`, or `-1` if absent.
pub open spec fn spec_rfind(s: Seq<char>, c: char) -> int
    decreases s.len(),
{
    if s.len() == 0 {
        -1
    } else if s.last() == c {
        s.len() - 1
    } else {
        spec_rfind(s.drop_last(), c)
    }
}

/// What `spec_rfind` returns: the greatest index holding `c`, or `-1`.
pub proof fn lemma_rfind(s: Seq<char>, c: char)
    ensures
        -1 <= spec_rfind(s, c) < s.len(),
        spec_rfind(s, c) == -1 ==> forall|k: int| 0 <= k < s.len() ==> s[k] != c,
        spec_rfind(s, c) >= 0 ==> {
            &&& spec_rfind(s, c) < s.len()
            &&& s[spec_rfind(s, c)] == c
            &&& forall|k: int| spec_rfind(s, c) < k < s.len() ==> s[k] != c
        },
    decreases s.len(),
{
    if s.len() > 0 && s.last() != c {
        lemma_rfind(s.drop_last(), c);
        assert forall|k: int| 0 <= k < s.len() - 1 implies s.drop_last()[k] == s[k] by {}
    }
}

/// The name after the last path separator.
pub open spec fn spec_base_name(s: Seq<char>) -> Seq<char> {
    s.subrange(spec_rfind(s, '/') + 1, s.len() as int)
}

/// The base name with its extension removed; a name whose only dot leads
/// keeps it.
pub open spec fn spec_stem(b: Seq<char>) -> Seq<char> {
    let j = spec_rfind(b, '.');
    if j <= 0 {
        b
    } else {
        b.subrange(0, j)
    }
}

/// `spec_rfind` answers `j` exactly when `j` holds `c` and nothing later does.
proof fn lemma_rfind_is(s: Seq<char>, c: char, j: int)
    requires
        0 <= j < s.len(),
        s[j] == c,
        forall|k: int| j < k < s.len() ==> s[k] != c,
    ensures
        spec_rfind(s, c) == j,
    decreases s.len(),
{
    if j == s.len() - 1 {
    } else {
        assert(s.last() != c);
        assert forall|k: int| j < k < s.drop_last().len() implies s.drop_last()[k] != c by {
            assert(s.drop_last()[k] == s[k]);
        }
        lemma_rfind_is(s.drop_last(), c, j);
    }
}

/// The greatest index of `c` in `s`, if any.
fn rfind_char(s: &str, c: char) -> (r: Option<usize>)
    ensures
        r matches Some(i) ==> i == spec_rfind(s@, c) && i < s@.len(),
        r is None ==> spec_rfind(s@, c) == -1,
{
    let n = s.unicode_len();
    let mut i: usize = n;
    while i > 0
        invariant
            n == s@.len(),
            i <= n,
            forall|k: int| i <= k < n ==> s@[k] != c,
        decreases i,
    {
        if s.get_char(i - 1) == c {
            proof {
                lemma_rfind_is(s@, c, i - 1);
            }
            return Some(i - 1);
        }
        i -= 1;
    }
    proof {
        lemma_rfind(s@, c);
        if spec_rfind(s@, c) >= 0 {
            assert(s@[spec_rfind(s@, c)] == c);
        }
    }
    None
}

/// The name after the last `/` of `s`.
pub fn base_name(s: &str) -> (r: String)
    ensures
        r@ == spec_base_name(s@),
{
    let n = s.unicode_len();
    match rfind_char(s, '/') {
        Some(i) => {
            let part = s.substring_char(i + 1, n);
            String::from_str(part)
        },
        None => {
            proof {
                assert(spec_base_name(s@) =~= s@);
            }
            String::from_str(s)
        },
    }
}

/// `b` with its extension removed.
pub fn stem_of(b: &str) -> (r: String)
    ensures
        r@ == spec_stem(b@),
{
    match rfind_char(b, '.') {
        Some(i) => {
            if i == 0 {
                String::from_str(b)
            } else {
                let part = b.substring_char(0, i);
                String::from_str(part)
            }
        },
        None => String::from_str(b),
    }
}

} // verus!
