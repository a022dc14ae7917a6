use dupefinder::digest::content_digest;
use dupefinder::scanner::build_size_index;
use dupefinder::scanner::candidate_buckets;
use dupefinder::scanner::candidate_files;
use dupefinder::scanner::group_candidates;
use dupefinder::scanner::is_hidden_name;
use dupefinder::scanner::keep_nonempty;
use dupefinder::scanner::progress_for;
use dupefinder::scanner::DigestGroup;
use dupefinder::scanner::FileInfo;

const HELLO_SHA256: &str = "2cf24dba5fb0a30e26e83b2ac5b9e29e1b161e5c1fa7425e73043362938b9824";
const EMPTY_SHA256: &str = "e3b0c44298fc1c149afbf4c8996fb92427ae41e4649b934ca495991b7852b855";

fn fi(path: &str, size: u64) -> FileInfo {
    FileInfo { path: path.to_string(), size }
}

fn digest_of(text: &str) -> String {
    content_digest(&text.as_bytes().to_vec())
}

/// Run the whole compute pipeline on in-memory records, with `contents[i]`
/// standing for what reading `records[i]` returned (`None` = unreadable).
fn run_scan(records: Vec<FileInfo>, contents: &[(&str, Option<&str>)]) -> Vec<DigestGroup> {
    let kept = keep_nonempty(&records);
    let index = build_size_index(&kept);
    let cands = candidate_buckets(index);
    let worklist = candidate_files(&cands);
    let digests: Vec<Option<String>> = worklist
        .iter()
        .map(|f| {
            let body = contents
                .iter()
                .find(|(p, _)| *p == f.path)
                .expect("worklist path should be a known record")
                .1;
            body.map(digest_of)
        })
        .collect();
    group_candidates(&worklist, &digests)
}

#[test]
fn digest_of_known_bytes() {
    let d = digest_of("hello");
    assert_eq!(d, HELLO_SHA256);
    assert_eq!(d.len(), 64);
}

#[test]
fn digest_of_empty_bytes() {
    assert_eq!(digest_of(""), EMPTY_SHA256);
}

#[test]
fn hidden_names() {
    assert!(is_hidden_name(".cache"));
    assert!(is_hidden_name("."));
    assert!(!is_hidden_name("cache"));
    assert!(!is_hidden_name(""));
    assert!(!is_hidden_name("dir.with.dots"));
}

#[test]
fn keep_nonempty_drops_zero_sizes() {
    let kept = keep_nonempty(&vec![fi("a", 0), fi("b", 3), fi("c", 0), fi("d", 1)]);
    assert_eq!(kept, vec![fi("b", 3), fi("d", 1)]);
}

#[test]
fn size_index_partitions_by_size() {
    let index = build_size_index(&vec![fi("a", 5), fi("b", 7), fi("c", 5)]);
    assert_eq!(index.len(), 2);
    for bucket in &index {
        for f in &bucket.files {
            assert_eq!(f.size, bucket.size);
        }
    }
    let five = index.iter().find(|b| b.size == 5).unwrap();
    assert_eq!(five.files, vec![fi("a", 5), fi("c", 5)]);
    let seven = index.iter().find(|b| b.size == 7).unwrap();
    assert_eq!(seven.files, vec![fi("b", 7)]);
}

#[test]
fn scenario_same_size_split_by_content() {
    // a.txt and b.txt hold "hello", c.txt holds "world": one group of two,
    // c.txt in no group even though its size matches.
    let records = vec![fi("a.txt", 5), fi("b.txt", 5), fi("c.txt", 5)];
    let groups = run_scan(
        records,
        &[("a.txt", Some("hello")), ("b.txt", Some("hello")), ("c.txt", Some("world"))],
    );
    assert_eq!(groups.len(), 1);
    assert_eq!(groups[0].size, 5);
    assert_eq!(groups[0].digest, HELLO_SHA256);
    assert_eq!(groups[0].files, vec![fi("a.txt", 5), fi("b.txt", 5)]);
}

#[test]
fn scenario_unique_sizes_hash_nothing() {
    // One 10-byte and one 20-byte file: nothing enters the hashing phase.
    let records = vec![fi("ten", 10), fi("twenty", 20)];
    let kept = keep_nonempty(&records);
    let index = build_size_index(&kept);
    let cands = candidate_buckets(index);
    let worklist = candidate_files(&cands);
    assert_eq!(worklist.len(), 0, "no file may be hashed");
    let groups = group_candidates(&worklist, &Vec::new());
    assert!(groups.is_empty());
}

#[test]
fn scenario_hidden_directory_excluded() {
    // Traversal prunes hidden names before records are made; only the
    // visible keep.bin reaches the engine, so nothing is reported.
    assert!(is_hidden_name(".cache"));
    let records = vec![fi("keep.bin", 8)];
    let groups = run_scan(records, &[("keep.bin", Some("dupedata"))]);
    assert!(groups.is_empty());
}

#[test]
fn scenario_unreadable_file_excluded() {
    // Three files of one size; one cannot be read. The scan still completes
    // and reports the two readable identical files.
    let records = vec![fi("x", 4), fi("y", 4), fi("z", 4)];
    let groups =
        run_scan(records, &[("x", Some("data")), ("y", Some("data")), ("z", None)]);
    assert_eq!(groups.len(), 1);
    assert_eq!(groups[0].files, vec![fi("x", 4), fi("y", 4)]);
}

#[test]
fn empty_files_never_group() {
    let records = vec![fi("e1", 0), fi("e2", 0), fi("e3", 0)];
    let kept = keep_nonempty(&records);
    assert!(kept.is_empty());
    let index = build_size_index(&kept);
    let cands = candidate_buckets(index);
    let worklist = candidate_files(&cands);
    let groups = group_candidates(&worklist, &Vec::new());
    assert!(groups.is_empty());
}

#[test]
fn same_digest_different_sizes_stay_apart() {
    // Grouping keys on size and digest together: equal digests reported for
    // files of different sizes never merge.
    let worklist = vec![fi("p", 3), fi("q", 3), fi("r", 4), fi("s", 4)];
    let d = digest_of("abc");
    let digests = vec![Some(d.clone()), Some(d.clone()), Some(d.clone()), Some(d.clone())];
    let groups = group_candidates(&worklist, &digests);
    assert_eq!(groups.len(), 2);
    assert!(groups.iter().any(|g| g.size == 3 && g.files.len() == 2));
    assert!(groups.iter().any(|g| g.size == 4 && g.files.len() == 2));
}

#[test]
fn scan_twice_is_idempotent() {
    let records = vec![fi("a.txt", 5), fi("b.txt", 5), fi("c.txt", 5), fi("d", 9)];
    let contents = [
        ("a.txt", Some("hello")),
        ("b.txt", Some("hello")),
        ("c.txt", Some("world")),
        ("d", Some("ignored!!")),
    ];
    let first = run_scan(records.clone(), &contents);
    let second = run_scan(records, &contents);
    assert_eq!(first.len(), second.len());
    for g in &first {
        assert!(second
            .iter()
            .any(|h| h.size == g.size && h.digest == g.digest && h.files == g.files));
    }
}

#[test]
fn progress_counts_up_to_total() {
    let worklist = vec![fi("a", 1), fi("b", 1), fi("c", 1)];
    let mut last = 0;
    for k in 0..worklist.len() {
        let p = progress_for(&worklist, k);
        assert_eq!(p.total, 3);
        assert_eq!(p.current, k + 1);
        assert!(p.current > last, "processed must increase");
        last = p.current;
        assert_eq!(p.current_file, worklist[k].path);
    }
    assert_eq!(last, 3, "the last event reaches the total");
}
