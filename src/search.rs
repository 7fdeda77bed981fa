use vstd::prelude::*;

use crate::matching::{find, is_first_occurrence, occurs_at, occurs_in};
use crate::plan::{
    contiguous, lemma_plan_exact_cover, lemma_ranges_ordered, preload_plan, split, FetchRange,
    MAX_DIGITS_PER_REQUEST,
};

verus! {

/// Which long-running operation, if any, a `Search` is in.
#[derive(Clone, Copy, Debug, PartialEq, Eq, Structural)]
pub enum SearchState {
    Idle,
    Preloading,
    Searching,
}

/// Why a preload or a search could not start.
#[derive(Clone, Copy, Debug, PartialEq, Eq, Structural)]
pub enum SessionError {
    /// Another session is active: the engine must go back to idle first.
    Busy,
    /// A preload was asked to run on zero workers.
    NoWorkers,
}

/// The bytes of `parts`, one part after another.
pub open spec fn concat(parts: Seq<Seq<u8>>) -> Seq<u8>
    decreases parts.len(),
{
    if parts.len() == 0 {
        Seq::empty()
    } else {
        concat(parts.drop_last()) + parts.last()
    }
}

/// `c` is what the source holds at the offsets that `f` asks for.
pub open spec fn chunk_from(src: Seq<u8>, f: FetchRange, c: Seq<u8>) -> bool {
    f.start + f.count <= src.len() && c == src.subrange(f.start as int, f.start + f.count)
}

/// What a `Search` holds, as mathematical values.
pub struct SearchView {
    /// The digit store: every digit fetched so far, in source order.
    pub digits: Seq<u8>,
    pub state: SearchState,
    /// How many digits one request asks for.
    pub per_request: int,
    /// Preload: the store's length when the preload began (or when its parts were appended).
    pub origin: int,
    /// Preload: the length to reach.
    pub target: int,
    /// Preload: the single worker appends each chunk to the store as it comes.
    pub direct: bool,
    /// Preload: the offsets `[start, end)` that each worker fetches.
    pub ranges: Seq<(int, int)>,
    /// Preload: what each worker has fetched so far, not yet in the store.
    pub parts: Seq<Seq<u8>>,
    /// Preload: digits loaded so far, as reported to the caller.
    pub loaded: int,
    /// Search: what is looked for.
    pub pattern: Seq<u8>,
    /// Search: the chunk fetched last, empty before the first one.
    pub previous: Seq<u8>,
    /// Search: digits processed so far, as reported to the caller.
    pub processed: int,
    /// Search: the offset of the match, once found.
    pub found: Option<int>,
}

impl SearchView {
    /// The next offset that worker `w` fetches.
    pub open spec fn cursor(self, w: int) -> int {
        if self.direct {
            self.digits.len() as int
        } else {
            self.ranges[w].0 + self.parts[w].len()
        }
    }

    /// The request that worker `w` makes next, if it has anything left to fetch.
    pub open spec fn preload_request(self, w: int) -> Option<FetchRange> {
        if self.state == SearchState::Preloading && 0 <= w < self.ranges.len() && self.cursor(w)
            < self.ranges[w].1 {
            let left = self.ranges[w].1 - self.cursor(w);
            Some(
                FetchRange {
                    start: self.cursor(w) as usize,
                    count: (if left < self.per_request {
                        left
                    } else {
                        self.per_request
                    }) as usize,
                },
            )
        } else {
            None
        }
    }

    /// Every worker has fetched its whole range.
    pub open spec fn all_fetched(self) -> bool {
        forall|w: int| 0 <= w < self.ranges.len() ==> self.cursor(w) == #[trigger] self.ranges[w].1
    }

    /// The preload has ended: its digits are in the store.
    pub open spec fn preload_finished(self) -> bool {
        self.state == SearchState::Preloading && self.ranges.len() == 0
    }

    /// The state after worker `w` delivered chunk `c`.
    pub open spec fn with_preload_chunk(self, w: int, c: Seq<u8>) -> SearchView {
        if self.direct {
            SearchView { digits: self.digits + c, loaded: self.loaded + c.len(), ..self }
        } else {
            SearchView {
                parts: self.parts.update(w, self.parts[w] + c),
                loaded: self.loaded + c.len(),
                ..self
            }
        }
    }

    /// The request that the search makes next, if it has not found its pattern.
    pub open spec fn search_request(self) -> Option<FetchRange> {
        if self.state == SearchState::Searching && self.found.is_none() {
            Some(FetchRange { start: self.digits.len() as usize, count: self.per_request as usize })
        } else {
            None
        }
    }

    /// Invariant of a preload session.
    pub open spec fn preload_wf(self) -> bool {
        &&& self.ranges.len() == self.parts.len()
        &&& 0 <= self.origin
        &&& self.ranges.len() == 0 ==> self.digits.len() >= self.target
        &&& self.ranges.len() > 0 ==> contiguous(self.ranges, self.origin, self.target)
        &&& self.direct ==> {
            &&& self.ranges.len() == 1
            &&& self.parts[0].len() == 0
            &&& self.origin <= self.digits.len() <= self.target
            &&& self.loaded == self.digits.len()
        }
        &&& !self.direct ==> {
            &&& self.digits.len() == self.origin
            &&& self.loaded == self.origin + concat(self.parts).len()
            &&& forall|w: int|
                0 <= w < self.ranges.len() ==> #[trigger] self.parts[w].len() <= self.ranges[w].1
                    - self.ranges[w].0
        }
    }

    /// Invariant of a search session.
    pub open spec fn search_wf(self) -> bool {
        &&& self.previous.len() <= self.digits.len()
        &&& self.digits.subrange(self.digits.len() - self.previous.len(), self.digits.len() as int)
            == self.previous
        &&& self.processed == self.digits.len()
        &&& match self.found {
            Some(i) => occurs_at(self.digits, self.pattern, i),
            None => true,
        }
    }

    /// Invariant of the engine.
    pub open spec fn wf(self) -> bool {
        &&& 1 <= self.per_request <= MAX_DIGITS_PER_REQUEST
        &&& self.state == SearchState::Preloading ==> self.preload_wf()
        &&& self.state == SearchState::Searching ==> self.search_wf()
    }

    /// The store, and every part fetched but not yet stored, hold what the source `src`
    /// holds at their offsets.
    pub open spec fn agrees(self, src: Seq<u8>) -> bool {
        &&& self.digits.len() <= src.len()
        &&& self.digits == src.subrange(0, self.digits.len() as int)
        &&& (self.state == SearchState::Preloading && !self.direct) ==> forall|w: int|
            0 <= w < self.parts.len() ==> part_agrees(src, self.ranges[w].0, #[trigger] self.parts[w])
    }
}

/// Part `p`, fetched from offset `start` on, holds what the source `src` holds there.
pub open spec fn part_agrees(src: Seq<u8>, start: int, p: Seq<u8>) -> bool {
    forall|i: int| 0 <= i < p.len() ==> start + i < src.len() && #[trigger] p[i] == src[start + i]
}

proof fn lemma_concat_all_empty(parts: Seq<Seq<u8>>)
    requires
        forall|w: int| 0 <= w < parts.len() ==> #[trigger] parts[w].len() == 0,
    ensures
        concat(parts) == Seq::<u8>::empty(),
    decreases parts.len(),
{
    if parts.len() > 0 {
        lemma_concat_all_empty(parts.drop_last());
        assert(concat(parts) =~= Seq::<u8>::empty());
    }
}

proof fn lemma_concat_update_len(parts: Seq<Seq<u8>>, w: int, x: Seq<u8>)
    requires
        0 <= w < parts.len(),
    ensures
        concat(parts.update(w, x)).len() == concat(parts).len() - parts[w].len() + x.len(),
    decreases parts.len(),
{
    let u = parts.update(w, x);
    if w == parts.len() - 1 {
        assert(u.drop_last() =~= parts.drop_last());
    } else {
        lemma_concat_update_len(parts.drop_last(), w, x);
        assert(u.drop_last() =~= parts.drop_last().update(w, x));
    }
}

proof fn lemma_concat_take(parts: Seq<Seq<u8>>, k: int)
    requires
        0 <= k < parts.len(),
    ensures
        concat(parts.take(k + 1)) == concat(parts.take(k)) + parts[k],
{
    assert(parts.take(k + 1).drop_last() =~= parts.take(k));
}

/// The parts fit in their ranges, so that together they are no longer than `[from, to)`.
proof fn lemma_concat_bound(r: Seq<(int, int)>, parts: Seq<Seq<u8>>, from: int, to: int, k: int)
    requires
        contiguous(r, from, to),
        r.len() == parts.len(),
        forall|w: int| 0 <= w < r.len() ==> #[trigger] parts[w].len() <= r[w].1 - r[w].0,
        1 <= k <= parts.len(),
    ensures
        concat(parts.take(k)).len() <= r[k - 1].1 - from,
    decreases k,
{
    lemma_concat_take(parts, k - 1);
    if k > 1 {
        lemma_concat_bound(r, parts, from, to, k - 1);
    } else {
        assert(parts.take(0) =~= Seq::<Seq<u8>>::empty());
    }
}

/// Parts that fill their ranges, and agree with a source, make up the source over
/// `[from, r[k - 1].1)`.
proof fn lemma_concat_filled(
    r: Seq<(int, int)>,
    parts: Seq<Seq<u8>>,
    from: int,
    to: int,
    src: Seq<u8>,
    k: int,
)
    requires
        contiguous(r, from, to),
        r.len() == parts.len(),
        forall|w: int| 0 <= w < r.len() ==> #[trigger] parts[w].len() == r[w].1 - r[w].0,
        forall|w: int| 0 <= w < r.len() ==> part_agrees(src, r[w].0, #[trigger] parts[w]),
        1 <= k <= parts.len(),
        0 <= from <= src.len(),
    ensures
        concat(parts.take(k)) == src.subrange(from, r[k - 1].1),
        r[k - 1].1 <= src.len(),
    decreases k,
{
    lemma_concat_take(parts, k - 1);
    lemma_ranges_ordered(r, from, to, 0, k - 1);
    lemma_ranges_ordered(r, from, to, k - 1, r.len() - 1);
    let p = parts[k - 1];
    assert(part_agrees(src, r[k - 1].0, p));
    if k > 1 {
        lemma_concat_filled(r, parts, from, to, src, k - 1);
    }
    if p.len() > 0 {
        assert(p[p.len() - 1] == src[r[k - 1].0 + (p.len() - 1)]);
    }
    assert(p =~= src.subrange(r[k - 1].0, r[k - 1].1));
    if k > 1 {
        assert(src.subrange(from, r[k - 2].1) + src.subrange(r[k - 1].0, r[k - 1].1)
            =~= src.subrange(from, r[k - 1].1));
    } else {
        assert(parts.take(0) =~= Seq::<Seq<u8>>::empty());
        assert(concat(parts.take(k)) =~= src.subrange(from, r[k - 1].1));
    }
}

/// Parts that fill their ranges are exactly as long as `[from, to)`.
proof fn lemma_concat_filled_len(r: Seq<(int, int)>, parts: Seq<Seq<u8>>, from: int, to: int, k: int)
    requires
        contiguous(r, from, to),
        r.len() == parts.len(),
        forall|w: int| 0 <= w < r.len() ==> #[trigger] parts[w].len() == r[w].1 - r[w].0,
        1 <= k <= parts.len(),
    ensures
        concat(parts.take(k)).len() == r[k - 1].1 - from,
    decreases k,
{
    lemma_concat_take(parts, k - 1);
    if k > 1 {
        lemma_concat_filled_len(r, parts, from, to, k - 1);
    } else {
        assert(parts.take(0) =~= Seq::<Seq<u8>>::empty());
    }
}

/// An incremental fetch-and-search engine over a growing store of digits.
pub struct Search {
    digits: Vec<u8>,
    state: SearchState,
    digits_per_request: usize,
    origin: usize,
    target: usize,
    direct: bool,
    ranges: Vec<(usize, usize)>,
    parts: Vec<Vec<u8>>,
    loaded: usize,
    pattern: Vec<u8>,
    previous: Vec<u8>,
    processed: usize,
    found: Option<usize>,
}

impl View for Search {
    type V = SearchView;

    closed spec fn view(&self) -> SearchView {
        SearchView {
            digits: self.digits@,
            state: self.state,
            per_request: self.digits_per_request as int,
            origin: self.origin as int,
            target: self.target as int,
            direct: self.direct,
            ranges: self.ranges@.map_values(|r: (usize, usize)| (r.0 as int, r.1 as int)),
            parts: self.parts@.map_values(|p: Vec<u8>| p@),
            loaded: self.loaded as int,
            pattern: self.pattern@,
            previous: self.previous@,
            processed: self.processed as int,
            found: match self.found {
                Some(i) => Some(i as int),
                None => None,
            },
        }
    }
}

impl Search {
    /// Invariant of the engine.
    pub open spec fn wf(&self) -> bool {
        self@.wf()
    }

    /// An idle engine with an empty store, asking for `digits_per_request` digits at a time.
    pub fn with_request_size(digits_per_request: usize) -> (r: Search)
        requires
            1 <= digits_per_request <= MAX_DIGITS_PER_REQUEST,
        ensures
            r.wf(),
            r@.state == SearchState::Idle,
            r@.digits.len() == 0,
            r@.per_request == digits_per_request,
    {
        Search {
            digits: Vec::new(),
            state: SearchState::Idle,
            digits_per_request,
            origin: 0,
            target: 0,
            direct: false,
            ranges: Vec::new(),
            parts: Vec::new(),
            loaded: 0,
            pattern: Vec::new(),
            previous: Vec::new(),
            processed: 0,
            found: None,
        }
    }

    /// An idle engine with an empty store, asking for as many digits as a request may.
    pub fn new() -> (r: Search)
        ensures
            r.wf(),
            r@.state == SearchState::Idle,
            r@.digits.len() == 0,
            r@.per_request == MAX_DIGITS_PER_REQUEST,
    {
        Search::with_request_size(MAX_DIGITS_PER_REQUEST)
    }

    /// Which session is active.
    pub fn get_state(&self) -> (r: SearchState)
        ensures
            r == self@.state,
    {
        self.state
    }

    /// The digits in the store.
    pub fn get_digits(&self) -> (r: &[u8])
        ensures
            r@ == self@.digits,
    {
        self.digits.as_slice()
    }

    /// How many digits the store holds.
    pub fn digits_loaded(&self) -> (r: usize)
        ensures
            r == self@.digits.len(),
    {
        self.digits.len()
    }

    /// Start a preload that grows the store to at least `count` digits, with up to
    /// `num_of_threads` workers. On success, returns how many workers have ranges to
    /// fetch: none when the store is long enough already, one when a share per worker
    /// would be smaller than one request (its chunks go to the store as they come), else
    /// `num_of_threads`, each fetching its own range into a part of its own.
    pub fn preload(&mut self, count: usize, num_of_threads: usize) -> (r: Result<
        usize,
        SessionError,
    >)
        requires
            old(self).wf(),
        ensures
            final(self).wf(),
            old(self)@.state != SearchState::Idle ==> r == Err::<usize, SessionError>(
                SessionError::Busy,
            ) && final(self)@ == old(self)@,
            old(self)@.state == SearchState::Idle && num_of_threads == 0 ==> r == Err::<
                usize,
                SessionError,
            >(SessionError::NoWorkers) && final(self)@ == old(self)@,
            old(self)@.state == SearchState::Idle && num_of_threads >= 1 ==> {
                let len = old(self)@.digits.len() as int;
                let plan = preload_plan(len, count as int, num_of_threads as int, old(self)@.per_request);
                &&& r == Ok::<usize, SessionError>(plan.len() as usize)
                &&& final(self)@.state == SearchState::Preloading
                &&& final(self)@.digits == old(self)@.digits
                &&& final(self)@.per_request == old(self)@.per_request
                &&& final(self)@.ranges == plan
                &&& final(self)@.target == count
                &&& final(self)@.origin == len
                &&& final(self)@.loaded == len
                &&& final(self)@.direct == (len < count && (count - len) / (num_of_threads as int)
                    < old(self)@.per_request)
                &&& final(self)@.parts.len() == plan.len()
                &&& forall|w: int| 0 <= w < plan.len() ==> #[trigger] final(self)@.parts[w].len() == 0
            },
            forall|src: Seq<u8>| #[trigger] old(self)@.agrees(src) ==> final(self)@.agrees(src),
    {
        if self.state != SearchState::Idle {
            return Err(SessionError::Busy);
        }
        if num_of_threads == 0 {
            return Err(SessionError::NoWorkers);
        }
        let len: usize = self.digits.len();
        let mut ranges: Vec<(usize, usize)> = Vec::new();
        let mut direct: bool = false;
        if len < count {
            let per_thread: usize = (count - len) / num_of_threads;
            if per_thread < self.digits_per_request {
                ranges.push((len, count));
                direct = true;
            } else {
                ranges = split(len, count, num_of_threads);
            }
        }
        let n: usize = ranges.len();
        let mut parts: Vec<Vec<u8>> = Vec::new();
        let mut i: usize = 0;
        while i < n
            invariant
                i <= n,
                parts@.len() == i,
                forall|w: int| 0 <= w < i ==> (#[trigger] parts@[w])@.len() == 0,
            decreases n - i,
        {
            parts.push(Vec::new());
            i = i + 1;
        }
        let ghost plan = preload_plan(len as int, count as int, num_of_threads as int, self.digits_per_request as int);
        proof {
            if len < count {
                lemma_plan_exact_cover(len as int, count as int, num_of_threads as int, self.digits_per_request as int);
            }
        }
        self.state = SearchState::Preloading;
        self.origin = len;
        self.target = count;
        self.direct = direct;
        self.ranges = ranges;
        self.parts = parts;
        self.loaded = len;
        proof {
            assert(self@.ranges =~= plan);
            lemma_concat_all_empty(self@.parts);
        }
        Ok(n)
    }

    /// The request that `worker` makes next during a preload; `None` once its range is
    /// fetched, or when no preload with such a worker is active.
    pub fn next_request(&self, worker: usize) -> (r: Option<FetchRange>)
        requires
            self.wf(),
        ensures
            r == self@.preload_request(worker as int),
    {
        if self.state != SearchState::Preloading || worker >= self.ranges.len() {
            return None;
        }
        let (start, end) = self.ranges[worker];
        proof {
            assert(self@.ranges[worker as int] == (start as int, end as int));
        }
        let cursor: usize = if self.direct {
            self.digits.len()
        } else {
            proof {
                assert(self@.parts[worker as int] == self.parts@[worker as int]@);
            }
            start + self.parts[worker].len()
        };
        if cursor >= end {
            return None;
        }
        let left: usize = end - cursor;
        let count: usize = if left < self.digits_per_request {
            left
        } else {
            self.digits_per_request
        };
        Some(FetchRange { start: cursor, count })
    }

    /// Hand over the chunk that `worker` fetched for its current request. The chunk is
    /// refused, and nothing changes, where no such request is pending or the chunk's
    /// length is not the one asked for.
    pub fn deliver_preload(&mut self, worker: usize, chunk: Vec<u8>) -> (r: bool)
        requires
            old(self).wf(),
        ensures
            final(self).wf(),
            r == match old(self)@.preload_request(worker as int) {
                Some(f) => chunk@.len() == f.count,
                None => false,
            },
            r ==> final(self)@ == old(self)@.with_preload_chunk(worker as int, chunk@),
            !r ==> final(self)@ == old(self)@,
            forall|src: Seq<u8>|
                r && #[trigger] old(self)@.agrees(src) && chunk_from(
                    src,
                    old(self)@.preload_request(worker as int).unwrap(),
                    chunk@,
                ) ==> final(self)@.agrees(src),
    {
        let req = self.next_request(worker);
        let f = match req {
            Some(f) => f,
            None => {
                return false;
            },
        };
        if chunk.len() != f.count {
            return false;
        }
        let ghost old_view = self@;
        let ghost w = worker as int;
        let ghost new_parts = old_view.parts.update(w, old_view.parts[w] + chunk@);
        proof {
            let r = old_view.ranges;
            if old_view.direct {
                assert(old_view.cursor(0) == old_view.digits.len());
            } else {
                lemma_concat_update_len(old_view.parts, w, old_view.parts[w] + chunk@);
                assert forall|v: int| 0 <= v < r.len() implies #[trigger] new_parts[v].len() <= r[v].1
                    - r[v].0 by {
                    if v == w {
                    } else {
                        assert(old_view.parts[v].len() <= r[v].1 - r[v].0);
                    }
                }
                lemma_concat_bound(r, new_parts, old_view.origin, old_view.target, r.len() as int);
                assert(new_parts.take(r.len() as int) =~= new_parts);
                lemma_ranges_ordered(r, old_view.origin, old_view.target, w, r.len() - 1);
            }
        }
        let mut c = chunk;
        if self.direct {
            self.digits.append(&mut c);
        } else {
            self.parts[worker].append(&mut c);
        }
        self.loaded = self.loaded + f.count;
        proof {
            if !old_view.direct {
                assert(self@.parts =~= new_parts);
            }
            assert(self@ == old_view.with_preload_chunk(w, chunk@));
            assert forall|src: Seq<u8>| #[trigger] old_view.agrees(src) && chunk_from(src, f, chunk@)
                implies self@.agrees(src) by {
                if old_view.direct {
                    assert(self@.digits =~= src.subrange(0, self@.digits.len() as int));
                } else {
                    assert forall|v: int| 0 <= v < self@.parts.len() implies part_agrees(
                        src,
                        self@.ranges[v].0,
                        #[trigger] self@.parts[v],
                    ) by {
                        if v != w {
                            assert(part_agrees(src, old_view.ranges[v].0, old_view.parts[v]));
                        } else {
                            let p = old_view.parts[w];
                            assert(part_agrees(src, old_view.ranges[w].0, p));
                            assert forall|i: int| 0 <= i < new_parts[w].len() implies
                                old_view.ranges[w].0 + i < src.len() && #[trigger] new_parts[w][i]
                                == src[old_view.ranges[w].0 + i] by {
                                if i < p.len() {
                                    assert(p[i] == src[old_view.ranges[w].0 + i]);
                                } else {
                                    assert(chunk@[i - p.len()] == src[f.start + (i - p.len())]);
                                }
                            }
                        }
                    }
                }
            }
        }
        true
    }

    /// Once every worker has fetched its range, append the parts to the store in the
    /// order of their ranges, which ends the preload. Refused, with nothing changed, where
    /// no preload is active or a worker has something left to fetch.
    pub fn finish_preload(&mut self) -> (r: bool)
        requires
            old(self).wf(),
        ensures
            final(self).wf(),
            r == (old(self)@.state == SearchState::Preloading && old(self)@.all_fetched()),
            !r ==> final(self)@ == old(self)@,
            r ==> {
                &&& final(self)@.digits == old(self)@.digits + concat(old(self)@.parts)
                &&& final(self)@.preload_finished()
                &&& final(self)@.digits.len() >= old(self)@.target
                &&& final(self)@.target == old(self)@.target
                &&& final(self)@.per_request == old(self)@.per_request
            },
            forall|src: Seq<u8>|
                r && #[trigger] old(self)@.agrees(src) ==> final(self)@.agrees(src)
                    && final(self)@.digits.subrange(0, old(self)@.target as int) == src.subrange(
                    0,
                    old(self)@.target as int,
                ),
    {
        if self.state != SearchState::Preloading {
            return false;
        }
        let n: usize = self.ranges.len();
        let mut w: usize = 0;
        while w < n
            invariant
                self.wf(),
                self@.state == SearchState::Preloading,
                n == self@.ranges.len(),
                w <= n,
                forall|v: int| 0 <= v < w ==> self@.cursor(v) == #[trigger] self@.ranges[v].1,
            decreases n - w,
        {
            let (start, end) = self.ranges[w];
            proof {
                assert(self@.ranges[w as int] == (start as int, end as int));
            }
            let cursor: usize = if self.direct {
                self.digits.len()
            } else {
                proof {
                    assert(self@.parts[w as int] == self.parts@[w as int]@);
                }
                start + self.parts[w].len()
            };
            if cursor != end {
                return false;
            }
            w = w + 1;
        }
        let ghost old_view = self@;
        proof {
            if n > 0 {
                if old_view.direct {
                    assert(old_view.parts =~= seq![old_view.parts[0]]);
                    assert(old_view.parts.drop_last() =~= Seq::<Seq<u8>>::empty());
                    assert(old_view.cursor(0) == old_view.ranges[0].1);
                } else {
                    assert forall|v: int| 0 <= v < n implies #[trigger] old_view.parts[v].len()
                        == old_view.ranges[v].1 - old_view.ranges[v].0 by {
                        assert(old_view.cursor(v) == old_view.ranges[v].1);
                    }
                    lemma_concat_filled_len(old_view.ranges, old_view.parts, old_view.origin, old_view.target, n as int);
                    assert(old_view.parts.take(n as int) =~= old_view.parts);
                }
            } else {
                lemma_concat_all_empty(old_view.parts);
            }
        }
        let mut parts: Vec<Vec<u8>> = Vec::new();
        std::mem::swap(&mut parts, &mut self.parts);
        let mut k: usize = 0;
        while k < n
            invariant
                k <= n,
                parts@.len() == n,
                n == old_view.parts.len(),
                self.digits@ == old_view.digits + concat(old_view.parts.take(k as int)),
                self@.state == old_view.state,
                self@.target == old_view.target,
                self@.per_request == old_view.per_request,
                forall|v: int| k <= v < n ==> (#[trigger] parts@[v])@ == old_view.parts[v],
            decreases n - k,
        {
            proof {
                lemma_concat_take(old_view.parts, k as int);
            }
            self.digits.append(&mut parts[k]);
            proof {
                assert(self.digits@ =~= old_view.digits + concat(old_view.parts.take(k + 1)));
            }
            k = k + 1;
        }
        proof {
            assert(old_view.parts.take(n as int) =~= old_view.parts);
        }
        self.ranges = Vec::new();
        self.parts = Vec::new();
        self.origin = self.digits.len();
        self.loaded = self.digits.len();
        self.direct = false;
        proof {
            assert(self@.ranges =~= Seq::<(int, int)>::empty());
            assert(self@.parts =~= Seq::<Seq<u8>>::empty());
            assert(concat(self@.parts) =~= Seq::<u8>::empty());
            assert forall|src: Seq<u8>| #[trigger] old_view.agrees(src) implies self@.agrees(src)
                && self@.digits.subrange(0, old_view.target as int) == src.subrange(
                0,
                old_view.target as int,
            ) by {
                if n > 0 && !old_view.direct {
                    lemma_ranges_ordered(old_view.ranges, old_view.origin, old_view.target, 0, n - 1);
                    assert forall|v: int| 0 <= v < n implies #[trigger] old_view.parts[v].len()
                        == old_view.ranges[v].1 - old_view.ranges[v].0 by {
                        assert(old_view.cursor(v) == old_view.ranges[v].1);
                    }
                    assert(old_view.digits.len() <= src.len());
                    lemma_concat_filled(old_view.ranges, old_view.parts, old_view.origin, old_view.target, src, n as int);
                    assert(self@.digits =~= src.subrange(0, self@.digits.len() as int));
                }
                assert(self@.digits.subrange(0, old_view.target as int) =~= src.subrange(
                    0,
                    old_view.target as int,
                ));
            }
        }
        true
    }

    /// The current preload has ended, and its digits are in the store.
    pub fn is_preload_finished(&self) -> (r: bool)
        ensures
            r == self@.preload_finished(),
    {
        self.state == SearchState::Preloading && self.ranges.len() == 0
    }

    /// Digits loaded so far by the current preload.
    pub fn preload_progress(&self) -> (r: usize)
        ensures
            r == self@.loaded,
    {
        self.loaded
    }

    /// Start a search for `pattern`. Where the store holds it already, the match is
    /// known at once (the leftmost one) and no request follows; else the search fetches
    /// chunk after chunk from the end of the store on.
    pub fn search(&mut self, pattern: &[u8]) -> (r: Result<(), SessionError>)
        requires
            old(self).wf(),
        ensures
            final(self).wf(),
            old(self)@.state != SearchState::Idle ==> r == Err::<(), SessionError>(
                SessionError::Busy,
            ) && final(self)@ == old(self)@,
            old(self)@.state == SearchState::Idle ==> {
                &&& r == Ok::<(), SessionError>(())
                &&& final(self)@.state == SearchState::Searching
                &&& final(self)@.digits == old(self)@.digits
                &&& final(self)@.per_request == old(self)@.per_request
                &&& final(self)@.pattern == pattern@
                &&& final(self)@.previous.len() == 0
                &&& final(self)@.processed == old(self)@.digits.len()
                &&& match final(self)@.found {
                    Some(i) => is_first_occurrence(old(self)@.digits, pattern@, i),
                    None => !occurs_in(old(self)@.digits, pattern@),
                }
            },
            forall|src: Seq<u8>| #[trigger] old(self)@.agrees(src) ==> final(self)@.agrees(src),
    {
        if self.state != SearchState::Idle {
            return Err(SessionError::Busy);
        }
        let hit = find(self.digits.as_slice(), pattern);
        self.found = hit;
        self.pattern = vstd::slice::slice_to_vec(pattern);
        self.previous = Vec::new();
        self.processed = self.digits.len();
        self.state = SearchState::Searching;
        proof {
            assert(self@.digits.subrange(self@.digits.len() as int, self@.digits.len() as int)
                =~= self@.previous);
        }
        Ok(())
    }

    /// The request that the active search makes next; `None` once it has found its
    /// pattern, or when no search is active.
    pub fn next_search_request(&self) -> (r: Option<FetchRange>)
        ensures
            r == self@.search_request(),
    {
        if self.state == SearchState::Searching && self.found.is_none() {
            Some(FetchRange { start: self.digits.len(), count: self.digits_per_request })
        } else {
            None
        }
    }

    /// Hand over the chunk fetched for the search's pending request. The chunk goes to the
    /// store, and the pattern is looked for in the window made of the previous chunk and
    /// this one, so that a match across their boundary is found too. The chunk is refused,
    /// and nothing changes, where no request is pending or its length is not the one
    /// asked for.
    pub fn deliver_search(&mut self, chunk: Vec<u8>) -> (r: bool)
        requires
            old(self).wf(),
        ensures
            final(self).wf(),
            r == (old(self)@.search_request().is_some() && chunk@.len() == old(self)@.per_request),
            !r ==> final(self)@ == old(self)@,
            r ==> {
                let window = old(self)@.previous + chunk@;
                let base = old(self)@.digits.len() - old(self)@.previous.len();
                &&& final(self)@.digits == old(self)@.digits + chunk@
                &&& final(self)@.state == SearchState::Searching
                &&& final(self)@.per_request == old(self)@.per_request
                &&& final(self)@.pattern == old(self)@.pattern
                &&& final(self)@.previous == chunk@
                &&& final(self)@.processed == final(self)@.digits.len()
                &&& match final(self)@.found {
                    Some(i) => is_first_occurrence(window, old(self)@.pattern, i - base)
                        && occurs_at(final(self)@.digits, old(self)@.pattern, i),
                    None => !occurs_in(window, old(self)@.pattern),
                }
            },
            forall|src: Seq<u8>|
                r && #[trigger] old(self)@.agrees(src) && chunk_from(
                    src,
                    old(self)@.search_request().unwrap(),
                    chunk@,
                ) ==> final(self)@.agrees(src),
    {
        if self.state != SearchState::Searching || self.found.is_some() || chunk.len()
            != self.digits_per_request {
            return false;
        }
        let ghost old_view = self@;
        let len: usize = self.digits.len();
        let base: usize = len - self.previous.len();
        let mut window: Vec<u8> = vstd::slice::slice_to_vec(self.previous.as_slice());
        let mut tail: Vec<u8> = vstd::slice::slice_to_vec(chunk.as_slice());
        window.append(&mut tail);
        let hit = find(window.as_slice(), self.pattern.as_slice());
        let kept: Vec<u8> = vstd::slice::slice_to_vec(chunk.as_slice());
        let mut c = chunk;
        self.digits.append(&mut c);
        self.processed = self.digits.len();
        self.previous = kept;
        proof {
            assert(window@ =~= self.digits@.subrange(base as int, self.digits@.len() as int));
            assert(self.digits@.subrange(self.digits@.len() - self.previous@.len(), self.digits@.len() as int)
                =~= self.previous@);
        }
        match hit {
            Some(i) => {
                self.found = Some(base + i);
                proof {
                    let p = old_view.pattern;
                    assert(self.digits@.subrange(base + i, base + i + p.len()) =~= window@.subrange(
                        i as int,
                        i + p.len(),
                    ));
                }
            },
            None => {},
        }
        proof {
            assert forall|src: Seq<u8>| #[trigger] old_view.agrees(src) && chunk_from(
                src,
                old_view.search_request().unwrap(),
                chunk@,
            ) implies self@.agrees(src) by {
                assert(self@.digits =~= src.subrange(0, self@.digits.len() as int));
            }
        }
        true
    }

    /// Where the pattern was found, once the active search has found it.
    pub fn search_result(&self) -> (r: Option<usize>)
        ensures
            match r {
                Some(i) => self@.state == SearchState::Searching && self@.found == Some(i as int),
                None => self@.state != SearchState::Searching || self@.found.is_none(),
            },
    {
        if self.state == SearchState::Searching {
            self.found
        } else {
            None
        }
    }

    /// Digits processed so far by the current search.
    pub fn search_progress(&self) -> (r: usize)
        ensures
            r == self@.processed,
    {
        self.processed
    }

    /// End the current session, whatever it is, and go back to idle. The store keeps
    /// what it holds; parts of a preload that never finished are dropped.
    pub fn into_idle(&mut self)
        requires
            old(self).wf(),
        ensures
            final(self).wf(),
            final(self)@.state == SearchState::Idle,
            final(self)@.digits == old(self)@.digits,
            final(self)@.per_request == old(self)@.per_request,
            forall|src: Seq<u8>| #[trigger] old(self)@.agrees(src) ==> final(self)@.agrees(src),
    {
        self.state = SearchState::Idle;
        self.ranges = Vec::new();
        self.parts = Vec::new();
        self.previous = Vec::new();
        self.pattern = Vec::new();
        self.found = None;
    }

    /// Take `digits` as the store's content where it is longer than what the store holds
    /// and no session is active; else change nothing. Returns whether it was taken.
    pub fn adopt_digits(&mut self, digits: Vec<u8>) -> (r: bool)
        requires
            old(self).wf(),
        ensures
            final(self).wf(),
            r == (old(self)@.state == SearchState::Idle && digits@.len() > old(self)@.digits.len()),
            r ==> final(self)@ == (SearchView { digits: digits@, ..old(self)@ }),
            !r ==> final(self)@ == old(self)@,
    {
        if self.state != SearchState::Idle || digits.len() <= self.digits.len() {
            return false;
        }
        self.digits = digits;
        true
    }

    /// How many digits to read from a file of `file_size` bytes, reading no more than
    /// `limit`: none where that would not make the store longer.
    pub fn bytes_to_load(&self, limit: usize, file_size: usize) -> (r: usize)
        ensures
            ({
                let n = if limit < file_size {
                    limit
                } else {
                    file_size
                };
                r == if n > self@.digits.len() {
                    n
                } else {
                    0
                }
            }),
    {
        let n: usize = if limit < file_size {
            limit
        } else {
            file_size
        };
        if n > self.digits.len() {
            n
        } else {
            0
        }
    }

    /// The digits past the first `saved` ones: what a file holding `saved` digits lacks.
    pub fn unsaved_digits(&self, saved: usize) -> (r: &[u8])
        ensures
            r@ == if saved < self@.digits.len() {
                self@.digits.subrange(saved as int, self@.digits.len() as int)
            } else {
                Seq::<u8>::empty()
            },
    {
        let len: usize = self.digits.len();
        if saved < len {
            vstd::slice::slice_subrange(self.digits.as_slice(), saved, len)
        } else {
            proof {
                assert(self.digits@.subrange(len as int, len as int) =~= Seq::<u8>::empty());
            }
            vstd::slice::slice_subrange(self.digits.as_slice(), len, len)
        }
    }
}

/// A preload that has finished leaves the store at least as long as its target, so that
/// a second preload to the same target, whatever its number of workers, has no range to
/// fetch and finishes at once.
pub proof fn lemma_preload_idempotent(v: SearchView, num_of_threads: int)
    requires
        v.wf(),
        v.preload_finished(),
    ensures
        v.digits.len() >= v.target,
        preload_plan(v.digits.len() as int, v.target, num_of_threads, v.per_request).len() == 0,
{
}

/// Where the store agrees with a source and holds at least `n` digits, its first `n`
/// digits are the source's first `n`.
pub proof fn lemma_agreeing_prefix(v: SearchView, src: Seq<u8>, n: int)
    requires
        v.agrees(src),
        0 <= n <= v.digits.len(),
    ensures
        v.digits.subrange(0, n) == src.subrange(0, n),
{
    assert(v.digits.subrange(0, n) =~= src.subrange(0, n));
}

} // verus!
