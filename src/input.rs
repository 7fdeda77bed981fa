use vstd::prelude::*;

verus! {

/// What the input screen keeps between frames: nothing.
#[derive(Clone, Copy, Debug, PartialEq, Eq, Structural)]
pub struct InputInfo {}

impl InputInfo {
    pub fn new() -> (r: InputInfo)
        ensures
            r == (InputInfo {}),
    {
        InputInfo {}
    }
}

/// The outcome of a search, as the result screen shows it.
#[derive(Clone, Copy, Debug, PartialEq, Eq, Structural)]
pub struct FoundInfo {
    /// Where the pattern was found, if it was.
    pub index: Option<usize>,
    /// How many digits had been processed.
    pub processed: usize,
}

impl FoundInfo {
    pub fn new(processed: usize, index: Option<usize>) -> (r: FoundInfo)
        ensures
            r.index == index,
            r.processed == processed,
    {
        FoundInfo { index, processed }
    }
}

/// `b` is an ASCII decimal digit.
pub open spec fn is_digit(b: u8) -> bool {
    48 <= b <= 57
}

/// The number that the decimal digits `s` write.
pub open spec fn decimal_value(s: Seq<u8>) -> int
    decreases s.len(),
{
    if s.len() == 0 {
        0
    } else {
        decimal_value(s.drop_last()) * 10 + (s.last() - 48)
    }
}

/// `s` is a non-empty run of ASCII decimal digits.
pub open spec fn is_decimal(s: Seq<u8>) -> bool {
    s.len() > 0 && forall|i: int| 0 <= i < s.len() ==> is_digit(#[trigger] s[i])
}

/// Whether `s` is a non-empty run of ASCII decimal digits, as a search pattern must be.
pub fn is_decimal_text(s: &[u8]) -> (r: bool)
    ensures
        r == is_decimal(s@),
{
    if s.len() == 0 {
        return false;
    }
    let mut i: usize = 0;
    while i < s.len()
        invariant
            i <= s@.len(),
            forall|j: int| 0 <= j < i ==> is_digit(#[trigger] s@[j]),
        decreases s@.len() - i,
    {
        if s[i] < 48 || s[i] > 57 {
            return false;
        }
        i = i + 1;
    }
    true
}

proof fn lemma_value_nonneg(s: Seq<u8>)
    requires
        forall|i: int| 0 <= i < s.len() ==> is_digit(#[trigger] s[i]),
    ensures
        0 <= decimal_value(s),
    decreases s.len(),
{
    if s.len() > 0 {
        let t = s.drop_last();
        assert forall|i: int| 0 <= i < t.len() implies is_digit(#[trigger] t[i]) by {
            assert(t[i] == s[i]);
        }
        lemma_value_nonneg(t);
    }
}

proof fn lemma_value_grows(s: Seq<u8>, k: int)
    requires
        0 <= k <= s.len(),
        forall|i: int| 0 <= i < s.len() ==> is_digit(#[trigger] s[i]),
    ensures
        decimal_value(s.take(k)) <= decimal_value(s),
        0 <= decimal_value(s.take(k)),
    decreases s.len() - k,
{
    let t = s.take(k);
    assert forall|i: int| 0 <= i < t.len() implies is_digit(#[trigger] t[i]) by {
        assert(t[i] == s[i]);
    }
    lemma_value_nonneg(t);
    if k < s.len() {
        lemma_value_grows(s, k + 1);
        assert(s.take(k + 1).drop_last() =~= s.take(k));
    } else {
        assert(s.take(k) =~= s);
    }
}

/// The number that `s` writes in decimal, where `s` is a non-empty run of ASCII digits
/// whose value fits a `usize`; else `None`.
pub fn parse_count(s: &[u8]) -> (r: Option<usize>)
    ensures
        match r {
            Some(v) => is_decimal(s@) && v == decimal_value(s@),
            None => !is_decimal(s@) || decimal_value(s@) > usize::MAX,
        },
{
    if !is_decimal_text(s) {
        return None;
    }
    let mut v: usize = 0;
    let mut i: usize = 0;
    while i < s.len()
        invariant
            is_decimal(s@),
            i <= s@.len(),
            v == decimal_value(s@.take(i as int)),
        decreases s@.len() - i,
    {
        proof {
            assert(s@.take(i + 1).drop_last() =~= s@.take(i as int));
            lemma_value_grows(s@, i + 1);
        }
        let d: usize = (s[i] - 48) as usize;
        match v.checked_mul(10) {
            Some(t) => match t.checked_add(d) {
                Some(n) => {
                    v = n;
                },
                None => {
                    return None;
                },
            },
            None => {
                return None;
            },
        }
        i = i + 1;
    }
    proof {
        assert(s@.take(s@.len() as int) =~= s@);
    }
    Some(v)
}

} // verus!
