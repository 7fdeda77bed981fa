use vstd::prelude::*;

verus! {

/// `p` occurs in `s` starting at offset `i`.
pub open spec fn occurs_at(s: Seq<u8>, p: Seq<u8>, i: int) -> bool {
    0 <= i && i + p.len() <= s.len() && s.subrange(i, i + p.len()) == p
}

/// `p` occurs somewhere in `s`.
pub open spec fn occurs_in(s: Seq<u8>, p: Seq<u8>) -> bool {
    exists|i: int| occurs_at(s, p, i)
}

/// `i` is the offset of the leftmost occurrence of `p` in `s`.
pub open spec fn is_first_occurrence(s: Seq<u8>, p: Seq<u8>, i: int) -> bool {
    occurs_at(s, p, i) && forall|j: int| 0 <= j < i ==> !occurs_at(s, p, j)
}

/// Whether `p` occurs in `s` at offset `i`, compared byte by byte.
fn matches_at(s: &[u8], p: &[u8], i: usize) -> (r: bool)
    requires
        i + p@.len() <= s@.len(),
    ensures
        r == occurs_at(s@, p@, i as int),
{
    let n: usize = s.len();
    let mut k: usize = 0;
    while k < p.len()
        invariant
            k <= p@.len(),
            i + p@.len() <= s@.len(),
            n == s@.len(),
            forall|m: int| 0 <= m < k ==> s@[i + m] == p@[m],
        decreases p@.len() - k,
    {
        if s[i + k] != p[k] {
            proof {
                assert(s@.subrange(i as int, i + p@.len())[k as int] != p@[k as int]);
            }
            return false;
        }
        k = k + 1;
    }
    proof {
        assert(s@.subrange(i as int, i + p@.len()) =~= p@);
    }
    true
}

/// Offset of the leftmost occurrence of `p` in `s`, by a plain left-to-right scan.
pub fn find(s: &[u8], p: &[u8]) -> (r: Option<usize>)
    ensures
        match r {
            Some(i) => is_first_occurrence(s@, p@, i as int),
            None => !occurs_in(s@, p@),
        },
{
    if p.len() > s.len() {
        return None;
    }
    let last: usize = s.len() - p.len();
    let mut i: usize = 0;
    while i <= last
        invariant
            i <= last,
            forall|j: int| last < j ==> !occurs_at(s@, p@, j),
            last + p@.len() == s@.len(),
            forall|j: int| 0 <= j < i ==> !occurs_at(s@, p@, j),
        decreases last + 1 - i,
    {
        if matches_at(s, p, i) {
            return Some(i);
        }
        if i == last {
            return None;
        }
        i = i + 1;
    }
    None
}

} // verus!
