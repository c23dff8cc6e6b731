//! Case folding over std strings.

use vstd::prelude::*;

verus! {

/// What `str::to_lowercase` returns for a character sequence; the result
/// is a function of the characters alone.
pub uninterp spec fn lower_of(s: Seq<char>) -> Seq<char>;

/// Relies on `str::to_lowercase`: the Unicode lowercase mapping of `s`.
#[verifier::external_body]
pub(crate) fn to_lowercase(s: &str) -> (r: String)
    ensures
        r@ == lower_of(s@),
{
    s.to_lowercase()
}

/// `needle` occurs somewhere in `hay`.
pub open spec fn spec_contains(hay: Seq<char>, needle: Seq<char>) -> bool {
    exists|o: int| crate::json::spec_match_lit(hay, o, needle)
}

/// Substring search by scanning every offset.
pub fn str_contains(hay: &str, needle: &str) -> (r: bool)
    ensures
        r == spec_contains(hay@, needle@),
{
    let n = hay.unicode_len();
    let m = needle.unicode_len();
    if m > n {
        proof {
            assert(forall|o: int| !crate::json::spec_match_lit(hay@, o, needle@));
        }
        return false;
    }
    if m == 0 {
        proof {
            assert(hay@.subrange(0, 0) =~= needle@);
            assert(crate::json::spec_match_lit(hay@, 0, needle@));
        }
        return true;
    }
    let bound = n - m;
    let mut o: usize = 0;
    while o <= bound
        invariant
            0 <= o <= bound + 1,
            1 <= m <= n == hay@.len(),
            bound == n - m,
            m == needle@.len(),
            forall|q: int| 0 <= q < o ==> !crate::json::spec_match_lit(hay@, q, needle@),
        decreases bound + 1 - o,
    {
        if crate::json::match_lit(hay, o, needle) {
            return true;
        }
        o = o + 1;
    }
    proof {
        assert(forall|q: int| q > bound ==> !crate::json::spec_match_lit(hay@, q, needle@));
    }
    false
}

} // verus!
