use pi_search::{
    extract_digits, find, is_decimal_text, parse_count, split, FetchRange, FoundInfo, InputInfo,
    Search, SearchState, SessionError, MAX_DIGITS_PER_REQUEST,
};

fn source(n: usize) -> Vec<u8> {
    (0..n).map(|i| ((i * 7 + i / 3) % 10) as u8 + b'0').collect()
}

/// Runs a preload to completion, serving every request from `src`; returns how many
/// requests were made.
fn run_preload(s: &mut Search, src: &[u8], count: usize, threads: usize) -> usize {
    let workers = s.preload(count, threads).unwrap();
    let mut requests = 0;
    loop {
        let mut any = false;
        for w in 0..workers {
            if let Some(f) = s.next_request(w) {
                assert!(f.count >= 1);
                let chunk = src[f.start..f.start + f.count].to_vec();
                assert!(s.deliver_preload(w, chunk));
                requests += 1;
                any = true;
            }
        }
        if !any {
            break;
        }
    }
    assert!(s.finish_preload());
    assert!(s.is_preload_finished());
    s.into_idle();
    requests
}

#[test]
fn preload_single_worker_matches_source() {
    let src = source(200);
    let mut s = Search::with_request_size(10);
    assert_eq!(s.preload(95, 10), Ok(1));
    assert_eq!(s.get_state(), SearchState::Preloading);
    assert_eq!(s.next_request(0), Some(FetchRange { start: 0, count: 10 }));
    assert!(s.deliver_preload(0, src[0..10].to_vec()));
    // the single worker's chunks reach the store at once
    assert_eq!(s.digits_loaded(), 10);
    assert_eq!(s.preload_progress(), 10);
    let mut last = 10;
    while let Some(f) = s.next_request(0) {
        assert_eq!(f.start, last);
        assert!(s.deliver_preload(0, src[f.start..f.start + f.count].to_vec()));
        last = f.start + f.count;
        assert_eq!(s.preload_progress(), last);
    }
    assert_eq!(last, 95);
    assert!(s.finish_preload());
    s.into_idle();
    assert_eq!(s.get_state(), SearchState::Idle);
    assert_eq!(s.digits_loaded(), 95);
    assert_eq!(s.get_digits(), &src[..95]);
}

#[test]
fn preload_multi_worker_matches_source() {
    let src = source(200);
    let mut s = Search::with_request_size(5);
    assert_eq!(s.preload(103, 4), Ok(4));
    assert_eq!(s.next_request(0), Some(FetchRange { start: 0, count: 5 }));
    assert_eq!(s.next_request(1), Some(FetchRange { start: 25, count: 5 }));
    assert_eq!(s.next_request(3), Some(FetchRange { start: 75, count: 5 }));
    assert_eq!(s.next_request(4), None);
    assert!(s.deliver_preload(2, src[50..55].to_vec()));
    // parts wait for the end of the preload
    assert_eq!(s.digits_loaded(), 0);
    assert_eq!(s.preload_progress(), 5);
    assert!(!s.finish_preload());
    let requests = run_preload_rest(&mut s, &src, 4);
    assert_eq!(requests, 5 + 5 + 4 + 6);
    assert_eq!(s.preload_progress(), 103);
    assert!(s.finish_preload());
    s.into_idle();
    assert_eq!(s.get_digits(), &src[..103]);
}

fn run_preload_rest(s: &mut Search, src: &[u8], workers: usize) -> usize {
    let mut requests = 0;
    for w in 0..workers {
        while let Some(f) = s.next_request(w) {
            assert!(s.deliver_preload(w, src[f.start..f.start + f.count].to_vec()));
            requests += 1;
        }
    }
    requests
}

#[test]
fn preload_paths_give_identical_buffers() {
    let src = source(5000);
    let mut buffers = Vec::new();
    for threads in [1usize, 2, 3, 7, 10, 50, 400] {
        let mut s = Search::with_request_size(7);
        let mut seed = source(13);
        assert!(s.adopt_digits(std::mem::take(&mut seed)));
        run_preload(&mut s, &src, 2345, threads);
        assert_eq!(s.digits_loaded(), 2345);
        buffers.push(s.get_digits().to_vec());
    }
    for b in &buffers {
        assert_eq!(b.as_slice(), &src[..2345]);
    }
}

#[test]
fn preload_twice_does_no_new_fetch() {
    let src = source(3000);
    let mut s = Search::new();
    let first = run_preload(&mut s, &src, 2500, 2);
    assert_eq!(first, 4);
    assert_eq!(s.preload(2500, 2), Ok(0));
    assert!(s.is_preload_finished());
    assert_eq!(s.next_request(0), None);
    assert!(s.finish_preload());
    s.into_idle();
    assert_eq!(s.digits_loaded(), 2500);
    assert_eq!(run_preload(&mut s, &src, 1000, 3), 0);
    assert_eq!(s.digits_loaded(), 2500);
}

#[test]
fn preload_refuses_wrong_chunks() {
    let src = source(100);
    let mut s = Search::with_request_size(10);
    assert_eq!(s.preload(30, 4), Ok(1));
    assert!(!s.deliver_preload(0, src[0..9].to_vec()));
    assert!(!s.deliver_preload(1, src[0..10].to_vec()));
    assert_eq!(s.digits_loaded(), 0);
    assert!(s.deliver_preload(0, src[0..10].to_vec()));
    assert_eq!(s.digits_loaded(), 10);
}

#[test]
fn preload_needs_a_worker() {
    let mut s = Search::new();
    assert_eq!(s.preload(10, 0), Err(SessionError::NoWorkers));
    assert_eq!(s.get_state(), SearchState::Idle);
}

#[test]
fn search_across_chunk_boundary() {
    let mut s = Search::with_request_size(5);
    assert_eq!(s.search(b"41234"), Ok(()));
    assert_eq!(s.search_progress(), 0);
    assert_eq!(s.next_search_request(), Some(FetchRange { start: 0, count: 5 }));
    assert!(s.deliver_search(b"12341".to_vec()));
    assert_eq!(s.search_result(), None);
    assert_eq!(s.search_progress(), 5);
    assert_eq!(s.next_search_request(), Some(FetchRange { start: 5, count: 5 }));
    assert!(s.deliver_search(b"23456".to_vec()));
    assert_eq!(s.search_result(), Some(3));
    assert_eq!(s.search_progress(), 10);
    assert_eq!(s.next_search_request(), None);
    assert_eq!(&s.get_digits()[3..8], b"41234");
    s.into_idle();
    assert_eq!(s.search_result(), None);
}

#[test]
fn search_across_boundary_of_four_digit_chunks() {
    let mut s = Search::with_request_size(4);
    assert_eq!(s.search(b"4123"), Ok(()));
    assert!(s.deliver_search(b"1234".to_vec()));
    assert_eq!(s.search_result(), None);
    assert!(s.deliver_search(b"1234".to_vec()));
    assert_eq!(s.search_result(), Some(3));
}

#[test]
fn search_refuses_wrong_chunks() {
    let mut s = Search::with_request_size(4);
    assert!(!s.deliver_search(b"1234".to_vec()));
    assert_eq!(s.search(b"99"), Ok(()));
    assert!(!s.deliver_search(b"123".to_vec()));
    assert_eq!(s.digits_loaded(), 0);
    assert!(s.deliver_search(b"1299".to_vec()));
    assert_eq!(s.search_result(), Some(2));
    assert!(!s.deliver_search(b"5555".to_vec()));
    assert_eq!(s.digits_loaded(), 4);
}

#[test]
fn search_in_preloaded_store_fetches_nothing() {
    let src = b"3141592653589793238462643383279502884197".to_vec();
    let mut s = Search::new();
    assert!(s.adopt_digits(src.clone()));
    assert_eq!(s.search(b"2643"), Ok(()));
    assert_eq!(s.next_search_request(), None);
    assert_eq!(s.search_result(), Some(21));
    assert_eq!(s.search_progress(), src.len());
    s.into_idle();
    assert_eq!(s.get_state(), SearchState::Idle);
    assert_eq!(s.digits_loaded(), src.len());
}

#[test]
fn sessions_do_not_overlap() {
    let mut s = Search::new();
    assert_eq!(s.search(b"1"), Ok(()));
    assert_eq!(s.preload(10, 1), Err(SessionError::Busy));
    assert_eq!(s.search(b"2"), Err(SessionError::Busy));
    assert_eq!(s.get_state(), SearchState::Searching);
    s.into_idle();
    assert_eq!(s.preload(10, 1), Ok(1));
    assert_eq!(s.search(b"2"), Err(SessionError::Busy));
    assert_eq!(s.preload(20, 1), Err(SessionError::Busy));
    assert_eq!(s.get_state(), SearchState::Preloading);
    assert!(!s.adopt_digits(b"0123456789012".to_vec()));
    s.into_idle();
    assert_eq!(s.get_state(), SearchState::Idle);
}

#[test]
fn split_covers_range_exactly() {
    assert_eq!(split(10, 21, 3), vec![(10, 13), (13, 16), (16, 21)]);
    assert_eq!(split(0, 2, 4), vec![(0, 0), (0, 0), (0, 0), (0, 2)]);
    let r = split(7, 1007, 6);
    assert_eq!(r[0].0, 7);
    assert_eq!(r[5].1, 1007);
    for w in 0..5 {
        assert_eq!(r[w].1, r[w + 1].0);
    }
}

#[test]
fn find_leftmost() {
    assert_eq!(find(b"1231234", b"234"), Some(4));
    assert_eq!(find(b"1231234", b"123"), Some(0));
    assert_eq!(find(b"1231234", b"5"), None);
    assert_eq!(find(b"12", b"123"), None);
    assert_eq!(find(b"12", b""), Some(0));
}

#[test]
fn extract_digits_from_body() {
    assert_eq!(extract_digits(br#"{"content":"31415"}"#), Some(b"31415".to_vec()));
    assert_eq!(extract_digits(br#"{"content":""}"#), Some(Vec::new()));
    assert_eq!(extract_digits(b"no delimiter"), None);
    assert_eq!(extract_digits(b"ab:c"), None);
    assert_eq!(extract_digits(b""), None);
}

#[test]
fn parse_counts() {
    assert_eq!(parse_count(b"123"), Some(123));
    assert_eq!(parse_count(b"0007"), Some(7));
    assert_eq!(parse_count(b""), None);
    assert_eq!(parse_count(b"12a"), None);
    assert_eq!(parse_count(b"18446744073709551615"), Some(18446744073709551615));
    assert_eq!(parse_count(b"18446744073709551616"), None);
    assert!(is_decimal_text(b"0123"));
    assert!(!is_decimal_text(b""));
    assert!(!is_decimal_text(b"1 2"));
}

#[test]
fn persistence_helpers() {
    let mut s = Search::new();
    assert_eq!(s.bytes_to_load(usize::MAX, 50), 50);
    assert_eq!(s.bytes_to_load(20, 50), 20);
    assert!(s.adopt_digits(b"31415".to_vec()));
    assert!(!s.adopt_digits(b"2718".to_vec()));
    assert_eq!(s.get_digits(), b"31415");
    assert_eq!(s.bytes_to_load(3, 50), 0);
    assert_eq!(s.bytes_to_load(usize::MAX, 5), 0);
    assert_eq!(s.unsaved_digits(2), b"415");
    assert_eq!(s.unsaved_digits(0), b"31415");
    assert_eq!(s.unsaved_digits(5), b"");
    assert_eq!(s.unsaved_digits(9), b"");
}

#[test]
fn screen_infos() {
    assert_eq!(InputInfo::new(), InputInfo {});
    let f = FoundInfo::new(40, Some(21));
    assert_eq!(f.processed, 40);
    assert_eq!(f.index, Some(21));
    assert_eq!(MAX_DIGITS_PER_REQUEST, 1000);
}
