use md5h::digest::{digest_in_chunks, digest_of_concat, to_hex, StreamHasher};
use md5h::files::canonical_order;
use md5h::logging::{init, Level};
use md5h::schedule::Scheduler;

fn strings(items: &[&str]) -> Vec<String> {
    items.iter().map(|s| s.to_string()).collect()
}

fn md5_raw(data: &[u8]) -> Vec<u8> {
    md5::compute(data).0.to_vec()
}

/// Drives a scheduler to the end, completing admitted positions in the
/// order given by `newest_first` among those running.
fn drive(
    results: &[Result<Vec<u8>, String>],
    limit: usize,
    newest_first: bool,
) -> (Result<Vec<u8>, md5h::schedule::ReadFailure>, usize) {
    let files: Vec<String> = (0..results.len()).map(|i| format!("f{}", i)).collect();
    let mut s = Scheduler::new(results.len(), limit);
    let mut in_flight: Vec<usize> = Vec::new();
    let mut most_running = 0;
    while !s.is_finished() {
        while let Some(i) = s.start_next() {
            in_flight.push(i);
        }
        most_running = most_running.max(s.running());
        let i = if newest_first {
            in_flight.pop().unwrap()
        } else {
            in_flight.remove(0)
        };
        assert!(s.complete(i, results[i].clone()));
    }
    (s.outcome(&files), most_running)
}

#[test]
fn digest_of_hello() {
    let d = digest_in_chunks(b"hello", 4);
    assert_eq!(to_hex(&d), "5d41402abc4b2a76b9719d911017c592");
}

#[test]
fn hex_is_lowercase_two_digits_per_byte() {
    let mut d = vec![0u8; 16];
    d[0] = 0x0a;
    d[15] = 0xff;
    assert_eq!(to_hex(&d), "0a0000000000000000000000000000ff");
}

#[test]
fn empty_concatenation_digest() {
    let d = digest_of_concat(&Vec::new());
    assert_eq!(to_hex(&d), "d41d8cd98f00b204e9800998ecf8427e");
}

#[test]
fn chunk_size_does_not_change_digest() {
    let data: Vec<u8> = (0..5000u32).map(|i| (i * 7 % 251) as u8).collect();
    let one = digest_in_chunks(&data, 1);
    let big = digest_in_chunks(&data, 1 << 20);
    let odd = digest_in_chunks(&data, 63);
    assert_eq!(one, big);
    assert_eq!(one, odd);
    assert_eq!(one, md5_raw(&data));
}

#[test]
fn stream_hasher_matches_one_shot() {
    let mut h = StreamHasher::new();
    h.update(b"hel");
    h.update(b"");
    h.update(b"lo");
    assert_eq!(h.finish(), md5_raw(b"hello"));
}

#[test]
fn aggregate_is_digest_of_concatenation() {
    let parts = vec![md5_raw(b"hello"), md5_raw(b"world")];
    let mut joined = parts[0].clone();
    joined.extend_from_slice(&parts[1]);
    assert_eq!(digest_of_concat(&parts), md5_raw(&joined));
}

#[test]
fn canonical_order_sorts_lexicographically() {
    let r = canonical_order(strings(&["b.txt", "a.txt", "dir/c", "Z", "a.txt.bak", "a"]));
    assert_eq!(r, strings(&["Z", "a", "a.txt", "a.txt.bak", "b.txt", "dir/c"]));
}

#[test]
fn canonical_order_ignores_visit_order() {
    let a = canonical_order(strings(&["x/2", "x/10", "y", "x/1"]));
    let b = canonical_order(strings(&["y", "x/1", "x/2", "x/10"]));
    assert_eq!(a, b);
    assert_eq!(a, strings(&["x/1", "x/10", "x/2", "y"]));
}

#[test]
fn canonical_order_of_nothing() {
    assert!(canonical_order(Vec::new()).is_empty());
}

#[test]
fn scheduler_bounds_running_workers() {
    let mut s = Scheduler::new(5, 2);
    assert_eq!(s.limit(), 2);
    assert_eq!(s.start_next(), Some(0));
    assert_eq!(s.start_next(), Some(1));
    assert_eq!(s.start_next(), None);
    assert_eq!(s.running(), 2);
    assert!(s.complete(1, Ok(md5_raw(b"b"))));
    assert_eq!(s.running(), 1);
    assert_eq!(s.start_next(), Some(2));
    assert_eq!(s.start_next(), None);
    assert!(!s.is_finished());
}

#[test]
fn scheduler_refuses_unexpected_reports() {
    let mut s = Scheduler::new(3, 1);
    assert!(!s.complete(0, Ok(vec![0; 16])));
    assert_eq!(s.start_next(), Some(0));
    assert!(!s.complete(2, Ok(vec![0; 16])));
    assert!(s.complete(0, Ok(vec![0; 16])));
    assert!(!s.complete(0, Ok(vec![1; 16])));
    assert_eq!(s.running(), 0);
}

#[test]
fn limit_and_completion_order_do_not_change_result() {
    let results: Vec<Result<Vec<u8>, String>> =
        (0..20u8).map(|i| Ok(md5_raw(&[i; 3]))).collect();
    let (one, max_one) = drive(&results, 1, false);
    let (many, max_many) = drive(&results, 64, true);
    let (few, max_few) = drive(&results, 3, true);
    assert_eq!(max_one, 1);
    assert_eq!(max_many, 20);
    assert_eq!(max_few, 3);
    let one = one.ok().unwrap();
    assert_eq!(one, many.ok().unwrap());
    assert_eq!(one, few.ok().unwrap());
    let digests: Vec<Vec<u8>> = results.into_iter().map(|r| r.unwrap()).collect();
    assert_eq!(one, digest_of_concat(&digests));
}

#[test]
fn failed_file_fails_the_run() {
    let results: Vec<Result<Vec<u8>, String>> = vec![
        Ok(md5_raw(b"a")),
        Err("No such file or directory".to_string()),
        Ok(md5_raw(b"c")),
        Err("Permission denied".to_string()),
    ];
    let (r, _) = drive(&results, 2, true);
    let f = r.err().unwrap();
    assert_eq!(f.index, 1);
    assert_eq!(f.path, "f1");
    assert_eq!(f.reason, "No such file or directory");
}

#[test]
fn empty_tree_gives_empty_digest() {
    let s = Scheduler::new(0, 4);
    assert!(s.is_finished());
    let d = s.outcome(&Vec::new()).ok().unwrap();
    assert_eq!(to_hex(&d), "d41d8cd98f00b204e9800998ecf8427e");
}

#[test]
fn hello_world_scenario() {
    let files = canonical_order(strings(&["b.txt", "a.txt"]));
    assert_eq!(files, strings(&["a.txt", "b.txt"]));
    let contents: Vec<&[u8]> = vec![b"hello", b"world"];
    let mut s = Scheduler::new(files.len(), 2);
    let a = s.start_next().unwrap();
    let b = s.start_next().unwrap();
    assert!(s.complete(b, Ok(digest_in_chunks(contents[b], 1 << 20))));
    assert!(s.complete(a, Ok(digest_in_chunks(contents[a], 1 << 20))));
    let d = s.outcome(&files).ok().unwrap();
    let mut joined = md5_raw(b"hello");
    joined.extend_from_slice(&md5_raw(b"world"));
    assert_eq!(d, md5_raw(&joined));
    assert_eq!(to_hex(&d), format!("{:x}", md5::compute(&joined)));
}

#[test]
fn quiet_reports_errors_only() {
    assert_eq!(init(true), Level::Error);
    assert_eq!(init(false), Level::Info);
    assert!(!init(true).shows_info());
    assert!(init(false).shows_info());
}
