use vstd::prelude::*;

verus! {

/// The byte that separates the field name from the digits in a response body.
pub const DELIMITER: u8 = 58;

/// `k` is the offset of the first `DELIMITER` in `text`.
pub open spec fn first_delimiter(text: Seq<u8>, k: int) -> bool {
    0 <= k < text.len() && text[k] == DELIMITER && forall|j: int| 0 <= j < k ==> text[j] != DELIMITER
}

/// The digits that a response body such as `{"content":"314"}` carries: what stands
/// after the first delimiter and the opening quote that follows it, up to the last two
/// bytes (the closing quote and brace); nothing when the body has no such shape.
pub open spec fn payload_spec(text: Seq<u8>) -> Option<Seq<u8>> {
    if exists|k: int| first_delimiter(text, k) {
        let k = choose|k: int| first_delimiter(text, k);
        if k + 4 <= text.len() {
            Some(text.subrange(k + 2, text.len() - 2))
        } else {
            None
        }
    } else {
        None
    }
}

/// Take the digits out of a response body; `None` where the body is malformed.
pub fn extract_digits(text: &[u8]) -> (r: Option<Vec<u8>>)
    ensures
        match (r, payload_spec(text@)) {
            (Some(d), Some(p)) => d@ == p,
            (None, None) => true,
            _ => false,
        },
{
    let n: usize = text.len();
    let mut k: usize = 0;
    while k < n
        invariant
            n == text@.len(),
            k <= n,
            forall|j: int| 0 <= j < k ==> text@[j] != DELIMITER,
        decreases n - k,
    {
        if text[k] == DELIMITER {
            proof {
                assert(first_delimiter(text@, k as int));
                assert forall|m: int| first_delimiter(text@, m) implies m == k by {
                    if m < k {
                    } else if m > k {
                    }
                }
            }
            if n - k >= 4 {
                let body = vstd::slice::slice_subrange(text, k + 2, n - 2);
                return Some(vstd::slice::slice_to_vec(body));
            } else {
                return None;
            }
        }
        k = k + 1;
    }
    None
}

} // verus!
