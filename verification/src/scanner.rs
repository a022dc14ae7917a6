//! Traversal records, size bucketing, and duplicate confirmation.

use vstd::prelude::*;
use vstd::string::StrSliceExecFns;

verus! {

/// One regular file discovered during traversal: its path and its size in
/// bytes.
#[derive(Debug, PartialEq, Eq)]
pub struct FileInfo {
    pub path: String,
    pub size: u64,
}

impl Clone for FileInfo {
    fn clone(&self) -> (other: Self)
        ensures
            other == *self,
    {
        FileInfo { path: self.path.clone(), size: self.size }
    }
}

/// A point-in-time progress snapshot emitted once per file entering the
/// hashing phase: `current` files attempted so far out of `total`, with the
/// path of the file just handed to the hasher.
#[derive(Debug)]
pub struct ScanProgress {
    pub current: usize,
    pub total: usize,
    pub current_file: String,
}

impl Clone for ScanProgress {
    fn clone(&self) -> (other: Self)
        ensures
            other == *self,
    {
        ScanProgress {
            current: self.current,
            total: self.total,
            current_file: self.current_file.clone(),
        }
    }
}

/// A name is hidden when its first character is the conventional dot marker.
pub open spec fn spec_is_hidden_name(name: Seq<char>) -> bool {
    name.len() > 0 && name[0] == '.'
}

/// Decides whether a single path segment (a file or directory name) is
/// hidden. Traversal prunes the whole subtree under a hidden directory.
pub fn is_hidden_name(name: &str) -> (hidden: bool)
    ensures
        hidden == spec_is_hidden_name(name@),
{
    if name.unicode_len() == 0 {
        false
    } else {
        name.get_char(0) == '.'
    }
}

/// One size bucket of the index: every file in `files` has size `size`.
#[derive(Debug)]
pub struct SizeBucket {
    pub size: u64,
    pub files: Vec<FileInfo>,
}

/// The subsequence of `files` whose size is exactly `size`, in input order.
pub open spec fn files_with_size(files: Seq<FileInfo>, size: u64) -> Seq<FileInfo>
    decreases files.len(),
{
    if files.len() == 0 {
        Seq::empty()
    } else {
        let rest = files_with_size(files.drop_last(), size);
        if files.last().size == size {
            rest.push(files.last())
        } else {
            rest
        }
    }
}

/// Some bucket of the index is keyed by `size`.
pub open spec fn has_bucket_for(index: Seq<SizeBucket>, size: u64) -> bool {
    exists|i: int| 0 <= i < index.len() && (#[trigger] index[i]).size == size
}

/// What `build_size_index` promises: bucket keys are distinct, each bucket
/// holds exactly the input files of its size in input order, no bucket is
/// empty, and every input file has a bucket.
pub open spec fn valid_size_index(files: Seq<FileInfo>, index: Seq<SizeBucket>) -> bool {
    &&& forall|i: int, j: int|
        0 <= i < index.len() && 0 <= j < index.len() && i != j
            ==> (#[trigger] index[i]).size != (#[trigger] index[j]).size
    &&& forall|i: int|
        0 <= i < index.len()
            ==> (#[trigger] index[i]).files@ == files_with_size(files, index[i].size)
    &&& forall|i: int| 0 <= i < index.len() ==> (#[trigger] index[i]).files@.len() >= 1
    &&& forall|k: int|
        0 <= k < files.len() ==> has_bucket_for(index, (#[trigger] files[k]).size)
}

/// A file at a matching index is selected, so the selection is non-empty.
pub proof fn lemma_files_with_size_contains(files: Seq<FileInfo>, size: u64, k: int)
    requires
        0 <= k < files.len(),
        files[k].size == size,
    ensures
        files_with_size(files, size).contains(files[k]),
        files_with_size(files, size).len() >= 1,
    decreases files.len(),
{
    let s = files_with_size(files, size);
    if k == files.len() - 1 {
        assert(s[s.len() - 1] == files[k]);
        assert(s.contains(files[k]));
    } else {
        lemma_files_with_size_contains(files.drop_last(), size, k);
        assert(files.drop_last()[k] == files[k]);
        let rest = files_with_size(files.drop_last(), size);
        let w = choose|w: int| 0 <= w < rest.len() && rest[w] == files[k];
        assert(s[w] == files[k]);
        assert(s.contains(files[k]));
    }
}

/// Every selected file has the selecting size and occurs in the input.
pub proof fn lemma_files_with_size_members(files: Seq<FileInfo>, size: u64)
    ensures
        forall|i: int|
            0 <= i < files_with_size(files, size).len()
                ==> (#[trigger] files_with_size(files, size)[i]).size == size
                    && files.contains(files_with_size(files, size)[i]),
    decreases files.len(),
{
    if files.len() > 0 {
        lemma_files_with_size_members(files.drop_last(), size);
        assert forall|i: int| 0 <= i < files_with_size(files, size).len()
            implies (#[trigger] files_with_size(files, size)[i]).size == size
                && files.contains(files_with_size(files, size)[i]) by {
            let rest = files_with_size(files.drop_last(), size);
            if i < rest.len() {
                assert(files.drop_last().contains(rest[i]));
                let w = choose|w: int|
                    0 <= w < files.drop_last().len() && files.drop_last()[w] == rest[i];
                assert(files[w] == rest[i]);
            } else {
                assert(files_with_size(files, size)[i] == files.last());
            }
        }
    }
}

/// When only index `k` carries `size`, the selection is that one file.
pub proof fn lemma_files_with_size_unique(files: Seq<FileInfo>, size: u64, k: int)
    requires
        0 <= k < files.len(),
        files[k].size == size,
        forall|j: int| 0 <= j < files.len() && j != k ==> (#[trigger] files[j]).size != size,
    ensures
        files_with_size(files, size).len() == 1,
    decreases files.len(),
{
    if k == files.len() - 1 {
        lemma_files_with_size_none(files.drop_last(), size);
    } else {
        assert(files.last() == files[files.len() - 1]);
        lemma_files_with_size_unique(files.drop_last(), size, k);
    }
}

/// When no index carries `size`, the selection is empty.
pub proof fn lemma_files_with_size_none(files: Seq<FileInfo>, size: u64)
    requires
        forall|j: int| 0 <= j < files.len() ==> (#[trigger] files[j]).size != size,
    ensures
        files_with_size(files, size).len() == 0,
    decreases files.len(),
{
    if files.len() > 0 {
        assert(files.last() == files[files.len() - 1]);
        lemma_files_with_size_none(files.drop_last(), size);
    }
}

/// Two distinct matching indices make the selection at least a pair.
pub proof fn lemma_files_with_size_pair(files: Seq<FileInfo>, size: u64, a: int, b: int)
    requires
        0 <= a < b < files.len(),
        files[a].size == size,
        files[b].size == size,
    ensures
        files_with_size(files, size).len() >= 2,
    decreases files.len(),
{
    if b == files.len() - 1 {
        lemma_files_with_size_contains(files.drop_last(), size, a);
    } else {
        lemma_files_with_size_pair(files.drop_last(), size, a, b);
    }
}

/// Some input file has size `size`.
pub open spec fn size_occurs(files: Seq<FileInfo>, size: u64) -> bool {
    exists|k: int| 0 <= k < files.len() && (#[trigger] files[k]).size == size
}

/// The distinct sizes occurring in `files`, each exactly once.
fn distinct_sizes(files: &Vec<FileInfo>) -> (sizes: Vec<u64>)
    ensures
        forall|i: int, j: int|
            0 <= i < sizes@.len() && 0 <= j < sizes@.len() && i != j
                ==> sizes@[i] != sizes@[j],
        forall|k: int|
            0 <= k < files@.len() ==> sizes@.contains((#[trigger] files@[k]).size),
        forall|i: int| 0 <= i < sizes@.len() ==> size_occurs(files@, #[trigger] sizes@[i]),
{
    let mut sizes: Vec<u64> = Vec::new();
    let mut k: usize = 0;
    while k < files.len()
        invariant
            k <= files@.len(),
            forall|i: int, j: int|
                0 <= i < sizes@.len() && 0 <= j < sizes@.len() && i != j
                    ==> sizes@[i] != sizes@[j],
            forall|m: int|
                0 <= m < k ==> sizes@.contains((#[trigger] files@[m]).size),
            forall|i: int| 0 <= i < sizes@.len() ==> size_occurs(files@, #[trigger] sizes@[i]),
        decreases files@.len() - k,
    {
        let s = files[k].size;
        let mut i: usize = 0;
        let mut present = false;
        while i < sizes.len()
            invariant
                i <= sizes@.len(),
                present <==> exists|j: int| 0 <= j < i && sizes@[j] == s,
            decreases sizes@.len() - i,
        {
            if sizes[i] == s {
                present = true;
            }
            i += 1;
        }
        let ghost sizes0 = sizes@;
        if !present {
            sizes.push(s);
            proof {
                assert(files@[k as int].size == s);
                assert(size_occurs(files@, s));
            }
        }
        proof {
            if present {
                let j = choose|j: int| 0 <= j < sizes0.len() && sizes0[j] == s;
                assert(sizes@[j] == s);
            } else {
                assert(sizes@[sizes@.len() - 1] == s);
            }
            assert(sizes@.contains(s));
            assert forall|m: int| 0 <= m < k + 1
                implies sizes@.contains((#[trigger] files@[m]).size) by {
                if m < k {
                    let w = choose|w: int|
                        0 <= w < sizes0.len() && sizes0[w] == files@[m].size;
                    assert(sizes@[w] == files@[m].size);
                } else {
                    assert(files@[m].size == s);
                }
            }
        }
        k += 1;
    }
    sizes
}

/// The input files of one given size, in input order, as owned records.
fn gather_with_size(files: &Vec<FileInfo>, size: u64) -> (group: Vec<FileInfo>)
    ensures
        group@ == files_with_size(files@, size),
{
    let mut group: Vec<FileInfo> = Vec::new();
    let mut k: usize = 0;
    while k < files.len()
        invariant
            k <= files@.len(),
            group@ == files_with_size(files@.take(k as int), size),
        decreases files@.len() - k,
    {
        proof {
            assert(files@.take(k + 1 as int).drop_last() =~= files@.take(k as int));
            assert(files@.take(k + 1 as int).last() == files@[k as int]);
        }
        if files[k].size == size {
            group.push(files[k].clone());
        }
        k += 1;
    }
    proof {
        assert(files@.take(files@.len() as int) =~= files@);
    }
    group
}

/// Partition the discovered files into buckets keyed by exact byte size.
/// This is the grouping phase of the scan: it reads no file content.
pub fn build_size_index(files: &Vec<FileInfo>) -> (index: Vec<SizeBucket>)
    ensures
        valid_size_index(files@, index@),
{
    let sizes = distinct_sizes(files);
    let mut index: Vec<SizeBucket> = Vec::new();
    let mut i: usize = 0;
    while i < sizes.len()
        invariant
            i <= sizes@.len(),
            index@.len() == i,
            forall|a: int, b: int|
                0 <= a < sizes@.len() && 0 <= b < sizes@.len() && a != b
                    ==> sizes@[a] != sizes@[b],
            forall|a: int| 0 <= a < sizes@.len() ==> size_occurs(files@, #[trigger] sizes@[a]),
            forall|a: int| 0 <= a < i ==> (#[trigger] index@[a]).size == sizes@[a],
            forall|a: int|
                0 <= a < i
                    ==> (#[trigger] index@[a]).files@ == files_with_size(files@, index@[a].size),
            forall|a: int| 0 <= a < i ==> (#[trigger] index@[a]).files@.len() >= 1,
        decreases sizes@.len() - i,
    {
        let s = sizes[i];
        let group = gather_with_size(files, s);
        proof {
            let k = choose|k: int| 0 <= k < files@.len() && files@[k].size == s;
            lemma_files_with_size_contains(files@, s, k);
        }
        index.push(SizeBucket { size: s, files: group });
        i += 1;
    }
    proof {
        assert forall|k: int| 0 <= k < files@.len()
            implies has_bucket_for(index@, (files@[k]).size) by {
            assert(sizes@.contains(files@[k].size));
            let a = choose|a: int| 0 <= a < sizes@.len() && sizes@[a] == files@[k].size;
            assert(index@[a].size == files@[k].size);
        }
    }
    index
}

/// The records of `files` with a non-zero size, in input order. Zero-byte
/// files are excluded from the scan: they would trivially match each other
/// and add no useful signal.
pub open spec fn nonempty_of(files: Seq<FileInfo>) -> Seq<FileInfo>
    decreases files.len(),
{
    if files.len() == 0 {
        Seq::empty()
    } else {
        let rest = nonempty_of(files.drop_last());
        if files.last().size > 0 {
            rest.push(files.last())
        } else {
            rest
        }
    }
}

/// Every record kept by `nonempty_of` has a non-zero size and occurs in the
/// input.
pub proof fn lemma_nonempty_members(files: Seq<FileInfo>)
    ensures
        forall|i: int|
            0 <= i < nonempty_of(files).len()
                ==> (#[trigger] nonempty_of(files)[i]).size > 0
                    && files.contains(nonempty_of(files)[i]),
    decreases files.len(),
{
    if files.len() > 0 {
        lemma_nonempty_members(files.drop_last());
        assert forall|i: int| 0 <= i < nonempty_of(files).len()
            implies (#[trigger] nonempty_of(files)[i]).size > 0
                && files.contains(nonempty_of(files)[i]) by {
            let rest = nonempty_of(files.drop_last());
            if i < rest.len() {
                assert(files.drop_last().contains(rest[i]));
                let w = choose|w: int|
                    0 <= w < files.drop_last().len() && files.drop_last()[w] == rest[i];
                assert(files[w] == rest[i]);
                assert(files.contains(rest[i]));
            } else {
                assert(nonempty_of(files)[i] == files.last());
                assert(files[files.len() - 1] == files.last());
                assert(files.contains(files.last()));
            }
        }
    }
}

/// Drop the zero-byte records, keeping everything else in order.
pub fn keep_nonempty(files: &Vec<FileInfo>) -> (kept: Vec<FileInfo>)
    ensures
        kept@ == nonempty_of(files@),
{
    let mut kept: Vec<FileInfo> = Vec::new();
    let mut k: usize = 0;
    while k < files.len()
        invariant
            k <= files@.len(),
            kept@ == nonempty_of(files@.take(k as int)),
        decreases files@.len() - k,
    {
        proof {
            assert(files@.take(k + 1 as int).drop_last() =~= files@.take(k as int));
            assert(files@.take(k + 1 as int).last() == files@[k as int]);
        }
        if files[k].size > 0 {
            kept.push(files[k].clone());
        }
        k += 1;
    }
    proof {
        assert(files@.take(files@.len() as int) =~= files@);
    }
    kept
}

/// The buckets of the index that hold at least two files, in index order.
/// Only these can contain duplicates, so only their files are ever hashed.
pub open spec fn buckets_with_two(index: Seq<SizeBucket>) -> Seq<SizeBucket>
    decreases index.len(),
{
    if index.len() == 0 {
        Seq::empty()
    } else {
        let rest = buckets_with_two(index.drop_last());
        if index.last().files@.len() >= 2 {
            rest.push(index.last())
        } else {
            rest
        }
    }
}

/// Every bucket kept by `buckets_with_two` occurs in the index and holds at
/// least two files.
pub proof fn lemma_buckets_with_two_members(index: Seq<SizeBucket>)
    ensures
        forall|i: int|
            0 <= i < buckets_with_two(index).len()
                ==> index.contains(#[trigger] buckets_with_two(index)[i])
                    && buckets_with_two(index)[i].files@.len() >= 2,
    decreases index.len(),
{
    if index.len() > 0 {
        lemma_buckets_with_two_members(index.drop_last());
        assert forall|i: int| 0 <= i < buckets_with_two(index).len()
            implies index.contains(#[trigger] buckets_with_two(index)[i])
                && buckets_with_two(index)[i].files@.len() >= 2 by {
            let rest = buckets_with_two(index.drop_last());
            if i < rest.len() {
                assert(index.drop_last().contains(rest[i]));
                let w = choose|w: int|
                    0 <= w < index.drop_last().len() && index.drop_last()[w] == rest[i];
                assert(index[w] == rest[i]);
            } else {
                assert(buckets_with_two(index)[i] == index.last());
                assert(index[index.len() - 1] == index.last());
            }
        }
    }
}

/// Copy a list of records, element for element.
fn clone_files(files: &Vec<FileInfo>) -> (copy: Vec<FileInfo>)
    ensures
        copy@ == files@,
{
    let mut copy: Vec<FileInfo> = Vec::new();
    let mut k: usize = 0;
    while k < files.len()
        invariant
            k <= files@.len(),
            copy@ == files@.take(k as int),
        decreases files@.len() - k,
    {
        copy.push(files[k].clone());
        proof {
            assert(copy@ =~= files@.take(k + 1 as int));
        }
        k += 1;
    }
    proof {
        assert(files@.take(files@.len() as int) =~= files@);
    }
    copy
}

/// Keep only the buckets that can possibly contain duplicates: those with
/// two or more files of the same size. Single-member buckets are dropped
/// before any hashing happens.
pub fn candidate_buckets(index: Vec<SizeBucket>) -> (cands: Vec<SizeBucket>)
    ensures
        cands@ == buckets_with_two(index@),
{
    let ghost orig = index@;
    let mut rest = index;
    let mut cands: Vec<SizeBucket> = Vec::new();
    let ghost mut done: Seq<SizeBucket> = Seq::empty();
    while rest.len() > 0
        invariant
            orig == done + rest@,
            cands@ == buckets_with_two(done),
        decreases rest@.len(),
    {
        let ghost before = rest@;
        let b = rest.remove(0);
        proof {
            assert(b == before[0]);
            assert(rest@ =~= before.subrange(1, before.len() as int));
            assert(done.push(b).drop_last() =~= done);
            assert(done.push(b).last() == b);
            assert(done + before =~= done.push(b) + rest@);
        }
        if b.files.len() >= 2 {
            cands.push(b);
        }
        proof {
            done = done.push(b);
        }
    }
    proof {
        assert(orig =~= done);
    }
    cands
}

/// All files entering the hashing phase, bucket by bucket: the scan's
/// worklist. Its length is the `total` reported by every progress event.
pub open spec fn all_candidate_files(cands: Seq<SizeBucket>) -> Seq<FileInfo>
    decreases cands.len(),
{
    if cands.len() == 0 {
        Seq::empty()
    } else {
        all_candidate_files(cands.drop_last()) + cands.last().files@
    }
}

/// The record occurs in some bucket of the list.
pub open spec fn in_some_bucket(cands: Seq<SizeBucket>, f: FileInfo) -> bool {
    exists|b: int| 0 <= b < cands.len() && (#[trigger] cands[b]).files@.contains(f)
}

/// Every file of the worklist belongs to some candidate bucket.
pub proof fn lemma_candidate_files_members(cands: Seq<SizeBucket>)
    ensures
        forall|i: int|
            0 <= i < all_candidate_files(cands).len()
                ==> in_some_bucket(cands, #[trigger] all_candidate_files(cands)[i]),
    decreases cands.len(),
{
    if cands.len() > 0 {
        lemma_candidate_files_members(cands.drop_last());
        assert forall|i: int| 0 <= i < all_candidate_files(cands).len()
            implies in_some_bucket(cands, #[trigger] all_candidate_files(cands)[i]) by {
            let rest = all_candidate_files(cands.drop_last());
            let f = all_candidate_files(cands)[i];
            if i < rest.len() {
                assert(rest[i] == f);
                let b = choose|b: int|
                    0 <= b < cands.drop_last().len()
                        && (#[trigger] cands.drop_last()[b]).files@.contains(rest[i]);
                assert(cands[b].files@.contains(f));
            } else {
                let b = cands.len() - 1;
                assert(cands[b].files@[i - rest.len()] == f);
                assert(cands[b].files@.contains(f));
            }
        }
    }
}

/// Flatten the candidate buckets into the hashing worklist, in bucket order.
pub fn candidate_files(cands: &Vec<SizeBucket>) -> (worklist: Vec<FileInfo>)
    ensures
        worklist@ == all_candidate_files(cands@),
{
    let mut worklist: Vec<FileInfo> = Vec::new();
    let mut i: usize = 0;
    while i < cands.len()
        invariant
            i <= cands@.len(),
            worklist@ == all_candidate_files(cands@.take(i as int)),
        decreases cands@.len() - i,
    {
        proof {
            assert(cands@.take(i + 1 as int).drop_last() =~= cands@.take(i as int));
            assert(cands@.take(i + 1 as int).last() == cands@[i as int]);
        }
        let mut more = clone_files(&cands[i].files);
        worklist.append(&mut more);
        i += 1;
    }
    proof {
        assert(cands@.take(cands@.len() as int) =~= cands@);
    }
    worklist
}

/// One confirmed duplicate group: at least two files sharing `size` and the
/// content digest `digest`.
#[derive(Debug, PartialEq, Eq)]
pub struct DigestGroup {
    pub size: u64,
    pub digest: String,
    pub files: Vec<FileInfo>,
}

/// The file at one worklist position belongs to the group keyed by
/// `(size, digest)`: its size matches and its content hashed to `digest`.
/// A file whose digest is `None` (it could not be read) matches no key.
pub open spec fn key_matches(f: FileInfo, d: Option<String>, size: u64, digest: Seq<char>) -> bool {
    f.size == size && match d {
        Some(h) => h@ == digest,
        None => false,
    }
}

/// The worklist files whose position matches `(size, digest)`, in worklist
/// order. `digests[i]` is the digest computed for `files[i]`, or `None` when
/// the file could not be read.
pub open spec fn files_matching_key(
    files: Seq<FileInfo>,
    digests: Seq<Option<String>>,
    size: u64,
    digest: Seq<char>,
) -> Seq<FileInfo>
    decreases files.len(),
{
    if files.len() == 0 {
        Seq::empty()
    } else {
        let rest = files_matching_key(files.drop_last(), digests.drop_last(), size, digest);
        if key_matches(files.last(), digests.last(), size, digest) {
            rest.push(files.last())
        } else {
            rest
        }
    }
}

/// Some group of the list is keyed by `(size, digest)`.
pub open spec fn has_group_for(groups: Seq<DigestGroup>, size: u64, digest: Seq<char>) -> bool {
    exists|g: int|
        0 <= g < groups.len() && (#[trigger] groups[g]).size == size && groups[g].digest@ == digest
}

/// What `group_candidates` promises. Every reported group holds exactly the
/// worklist files matching its key, in worklist order, and has at least two
/// of them; no two groups share a key, so no two files in different groups
/// share both size and digest; and every key matched by two or more worklist
/// positions is reported. Together these pin the result down to a set.
pub open spec fn valid_grouping(
    files: Seq<FileInfo>,
    digests: Seq<Option<String>>,
    groups: Seq<DigestGroup>,
) -> bool {
    &&& forall|g: int|
        0 <= g < groups.len()
            ==> (#[trigger] groups[g]).files@ == files_matching_key(
                files,
                digests,
                groups[g].size,
                groups[g].digest@,
            )
    &&& forall|g: int| 0 <= g < groups.len() ==> (#[trigger] groups[g]).files@.len() >= 2
    &&& forall|g1: int, g2: int|
        0 <= g1 < groups.len() && 0 <= g2 < groups.len() && g1 != g2
            ==> ((#[trigger] groups[g1]).size != (#[trigger] groups[g2]).size
                || groups[g1].digest@ != groups[g2].digest@)
    &&& forall|size: u64, digest: Seq<char>|
        (#[trigger] files_matching_key(files, digests, size, digest)).len() >= 2
            ==> has_group_for(groups, size, digest)
}

/// Extending the worklist by one position extends each key's match list by
/// that position's file exactly when the position matches the key.
proof fn lemma_matching_key_step(files: Seq<FileInfo>, digests: Seq<Option<String>>, k: int)
    requires
        0 <= k < files.len(),
        digests.len() == files.len(),
    ensures
        forall|size: u64, digest: Seq<char>|
            (#[trigger] files_matching_key(files.take(k + 1), digests.take(k + 1), size, digest))
                == (if key_matches(files[k], digests[k], size, digest) {
                    files_matching_key(files.take(k), digests.take(k), size, digest).push(files[k])
                } else {
                    files_matching_key(files.take(k), digests.take(k), size, digest)
                }),
{
    assert(files.take(k + 1).drop_last() =~= files.take(k));
    assert(digests.take(k + 1).drop_last() =~= digests.take(k));
    assert(files.take(k + 1).last() == files[k]);
    assert(digests.take(k + 1).last() == digests[k]);
}

/// The position of the group keyed by `(size, digest)`, if there is one.
fn find_group(work: &Vec<DigestGroup>, size: u64, digest: &String) -> (found: Option<usize>)
    ensures
        match found {
            Some(g) => g < work@.len() && work@[g as int].size == size && work@[
                g as int
            ].digest@ == digest@,
            None => forall|g: int|
                0 <= g < work@.len()
                    ==> ((#[trigger] work@[g]).size != size || work@[g].digest@ != digest@),
        },
{
    let mut g: usize = 0;
    while g < work.len()
        invariant
            g <= work@.len(),
            forall|h: int|
                0 <= h < g ==> ((#[trigger] work@[h]).size != size || work@[h].digest@ != digest@),
        decreases work@.len() - g,
    {
        if work[g].size == size && work[g].digest == *digest {
            return Some(g);
        }
        g += 1;
    }
    None
}

/// Partition the hashing worklist by `(size, digest)`: one group per key in
/// order of first occurrence, each holding all the files of its key.
/// Unreadable files (digest `None`) fall into no group.
fn collect_groups(files: &Vec<FileInfo>, digests: &Vec<Option<String>>) -> (work: Vec<DigestGroup>)
    requires
        digests@.len() == files@.len(),
    ensures
        forall|g: int|
            0 <= g < work@.len()
                ==> (#[trigger] work@[g]).files@ == files_matching_key(
                    files@,
                    digests@,
                    work@[g].size,
                    work@[g].digest@,
                ),
        forall|g1: int, g2: int|
            0 <= g1 < work@.len() && 0 <= g2 < work@.len() && g1 != g2
                ==> ((#[trigger] work@[g1]).size != (#[trigger] work@[g2]).size
                    || work@[g1].digest@ != work@[g2].digest@),
        forall|size: u64, digest: Seq<char>|
            (#[trigger] files_matching_key(files@, digests@, size, digest)).len() >= 1
                ==> has_group_for(work@, size, digest),
{
    let mut work: Vec<DigestGroup> = Vec::new();
    let mut k: usize = 0;
    while k < files.len()
        invariant
            k <= files@.len(),
            digests@.len() == files@.len(),
            forall|g: int|
                0 <= g < work@.len()
                    ==> (#[trigger] work@[g]).files@ == files_matching_key(
                        files@.take(k as int),
                        digests@.take(k as int),
                        work@[g].size,
                        work@[g].digest@,
                    ),
            forall|g1: int, g2: int|
                0 <= g1 < work@.len() && 0 <= g2 < work@.len() && g1 != g2
                    ==> ((#[trigger] work@[g1]).size != (#[trigger] work@[g2]).size
                        || work@[g1].digest@ != work@[g2].digest@),
            forall|size: u64, digest: Seq<char>|
                (#[trigger] files_matching_key(
                    files@.take(k as int),
                    digests@.take(k as int),
                    size,
                    digest,
                )).len() >= 1 ==> has_group_for(work@, size, digest),
        decreases files@.len() - k,
    {
        proof {
            lemma_matching_key_step(files@, digests@, k as int);
        }
        match &digests[k] {
            None => {},
            Some(d) => {
                let size = files[k].size;
                let ghost work0 = work@;
                let ghost fk = files@[k as int];
                let ghost dk = digests@[k as int];
                let ghost dgk = d@;
                proof {
                    assert(dk == Some(*d));
                    assert(key_matches(fk, dk, fk.size, dgk));
                }
                match find_group(&work, size, d) {
                    Some(gi) => {
                        let mut grp = work.swap_remove(gi);
                        grp.files.push(files[k].clone());
                        work.push(grp);
                        proof {
                            let n0 = work0.len() as int;
                            assert(work@.len() == n0);
                            assert(work@[n0 - 1].size == fk.size);
                            assert(work@[n0 - 1].digest@ == dgk);
                            assert(work@[n0 - 1].files@ == work0[gi as int].files@.push(fk));
                            assert forall|j: int| 0 <= j < n0 - 1 && j != gi
                                implies work@[j] == work0[j] by {}
                            assert(gi < n0 - 1 ==> work@[gi as int] == work0[n0 - 1]);
                            assert forall|g: int| 0 <= g < work@.len()
                                implies (#[trigger] work@[g]).files@ == files_matching_key(
                                    files@.take(k + 1),
                                    digests@.take(k + 1),
                                    work@[g].size,
                                    work@[g].digest@,
                                ) by {
                                if g == n0 - 1 {
                                    assert(files_matching_key(
                                        files@.take(k as int),
                                        digests@.take(k as int),
                                        fk.size,
                                        dgk,
                                    ) == work0[gi as int].files@);
                                } else {
                                    let j = if g == gi { n0 - 1 } else { g };
                                    assert(work@[g] == work0[j]);
                                    assert(work0[j].size != work0[gi as int].size
                                        || work0[j].digest@ != work0[gi as int].digest@);
                                    assert(!key_matches(fk, dk, work0[j].size, work0[j].digest@));
                                }
                            }
                            assert forall|g1: int, g2: int|
                                0 <= g1 < work@.len() && 0 <= g2 < work@.len() && g1 != g2
                                implies ((#[trigger] work@[g1]).size != (#[trigger] work@[
                                g2]).size || work@[g1].digest@ != work@[g2].digest@) by {
                                let j1 = if g1 == n0 - 1 {
                                    gi as int
                                } else if g1 == gi {
                                    n0 - 1
                                } else {
                                    g1
                                };
                                let j2 = if g2 == n0 - 1 {
                                    gi as int
                                } else if g2 == gi {
                                    n0 - 1
                                } else {
                                    g2
                                };
                                assert(work@[g1].size == work0[j1].size && work@[g1].digest@
                                    == work0[j1].digest@);
                                assert(work@[g2].size == work0[j2].size && work@[g2].digest@
                                    == work0[j2].digest@);
                                assert(j1 != j2);
                            }
                            assert forall|size2: u64, dg2: Seq<char>|
                                (#[trigger] files_matching_key(
                                    files@.take(k + 1),
                                    digests@.take(k + 1),
                                    size2,
                                    dg2,
                                )).len() >= 1 implies has_group_for(work@, size2, dg2) by {
                                if key_matches(fk, dk, size2, dg2) {
                                    assert(work@[n0 - 1].size == size2 && work@[n0 - 1].digest@
                                        == dg2);
                                } else {
                                    assert(files_matching_key(
                                        files@.take(k as int),
                                        digests@.take(k as int),
                                        size2,
                                        dg2,
                                    ).len() >= 1);
                                    let w = choose|w: int|
                                        0 <= w < work0.len() && (#[trigger] work0[w]).size
                                            == size2 && work0[w].digest@ == dg2;
                                    if w == gi {
                                        assert(work@[n0 - 1].size == size2 && work@[n0
                                            - 1].digest@ == dg2);
                                    } else if w == n0 - 1 {
                                        assert(work@[gi as int].size == size2 && work@[
                                        gi as int].digest@ == dg2);
                                    } else {
                                        assert(work@[w].size == size2 && work@[w].digest@
                                            == dg2);
                                    }
                                }
                            }
                        }
                    },
                    None => {
                        let mut first: Vec<FileInfo> = Vec::new();
                        first.push(files[k].clone());
                        work.push(DigestGroup { size, digest: d.clone(), files: first });
                        proof {
                            let n0 = work0.len() as int;
                            assert(work@.len() == n0 + 1);
                            assert(work@[n0].size == fk.size);
                            assert(work@[n0].digest@ == dgk);
                            assert(work@[n0].files@ == Seq::<FileInfo>::empty().push(fk));
                            assert forall|j: int| 0 <= j < n0 implies work@[j] == work0[j] by {}
                            if files_matching_key(
                                files@.take(k as int),
                                digests@.take(k as int),
                                fk.size,
                                dgk,
                            ).len() >= 1 {
                                assert(has_group_for(work0, fk.size, dgk));
                                let w = choose|w: int|
                                    0 <= w < work0.len() && (#[trigger] work0[w]).size == fk.size
                                        && work0[w].digest@ == dgk;
                                assert(false);
                            }
                            assert(files_matching_key(
                                files@.take(k as int),
                                digests@.take(k as int),
                                fk.size,
                                dgk,
                            ) =~= Seq::<FileInfo>::empty());
                            assert forall|g: int| 0 <= g < work@.len()
                                implies (#[trigger] work@[g]).files@ == files_matching_key(
                                    files@.take(k + 1),
                                    digests@.take(k + 1),
                                    work@[g].size,
                                    work@[g].digest@,
                                ) by {
                                if g < n0 {
                                    assert(work@[g] == work0[g]);
                                    assert(work0[g].size != fk.size || work0[g].digest@ != dgk);
                                    assert(!key_matches(fk, dk, work0[g].size, work0[g].digest@));
                                }
                            }
                            assert forall|size2: u64, dg2: Seq<char>|
                                (#[trigger] files_matching_key(
                                    files@.take(k + 1),
                                    digests@.take(k + 1),
                                    size2,
                                    dg2,
                                )).len() >= 1 implies has_group_for(work@, size2, dg2) by {
                                if key_matches(fk, dk, size2, dg2) {
                                    assert(work@[n0].size == size2 && work@[n0].digest@ == dg2);
                                } else {
                                    assert(files_matching_key(
                                        files@.take(k as int),
                                        digests@.take(k as int),
                                        size2,
                                        dg2,
                                    ).len() >= 1);
                                    let w = choose|w: int|
                                        0 <= w < work0.len() && (#[trigger] work0[w]).size
                                            == size2 && work0[w].digest@ == dg2;
                                    assert(work@[w].size == size2 && work@[w].digest@ == dg2);
                                }
                            }
                        }
                    },
                }
            },
        }
        k += 1;
    }
    proof {
        assert(files@.take(files@.len() as int) =~= files@);
        assert(digests@.take(digests@.len() as int) =~= digests@);
    }
    work
}

/// Confirm duplicates within the hashing worklist. `files` is the worklist
/// (in the order it was hashed) and `digests[i]` is the content digest
/// computed for `files[i]`, or `None` when the file could not be opened or
/// read — such files are silently excluded. Every key matched by at least
/// two positions becomes one group; single matches are dropped.
pub fn group_candidates(files: &Vec<FileInfo>, digests: &Vec<Option<String>>) -> (groups: Vec<
    DigestGroup,
>)
    requires
        digests@.len() == files@.len(),
    ensures
        valid_grouping(files@, digests@, groups@),
{
    let work = collect_groups(files, digests);
    let ghost orig = work@;
    let mut rest = work;
    let mut groups: Vec<DigestGroup> = Vec::new();
    let ghost mut done: Seq<DigestGroup> = Seq::empty();
    while rest.len() > 0
        invariant
            orig == done + rest@,
            digests@.len() == files@.len(),
            forall|g: int|
                0 <= g < orig.len()
                    ==> (#[trigger] orig[g]).files@ == files_matching_key(
                        files@,
                        digests@,
                        orig[g].size,
                        orig[g].digest@,
                    ),
            forall|g1: int, g2: int|
                0 <= g1 < orig.len() && 0 <= g2 < orig.len() && g1 != g2
                    ==> ((#[trigger] orig[g1]).size != (#[trigger] orig[g2]).size
                        || orig[g1].digest@ != orig[g2].digest@),
            forall|size: u64, digest: Seq<char>|
                (#[trigger] files_matching_key(files@, digests@, size, digest)).len() >= 1
                    ==> has_group_for(orig, size, digest),
            forall|g: int|
                0 <= g < groups@.len()
                    ==> (#[trigger] groups@[g]).files@ == files_matching_key(
                        files@,
                        digests@,
                        groups@[g].size,
                        groups@[g].digest@,
                    ),
            forall|g: int| 0 <= g < groups@.len() ==> (#[trigger] groups@[g]).files@.len() >= 2,
            forall|g: int|
                0 <= g < groups@.len()
                    ==> has_group_for(done, (#[trigger] groups@[g]).size, groups@[g].digest@),
            forall|g1: int, g2: int|
                0 <= g1 < groups@.len() && 0 <= g2 < groups@.len() && g1 != g2
                    ==> ((#[trigger] groups@[g1]).size != (#[trigger] groups@[g2]).size
                        || groups@[g1].digest@ != groups@[g2].digest@),
            forall|g: int|
                0 <= g < done.len()
                    ==> ((#[trigger] done[g]).files@.len() >= 2 ==> has_group_for(
                        groups@,
                        done[g].size,
                        done[g].digest@,
                    )),
        decreases rest@.len(),
    {
        let ghost before = rest@;
        let ghost groups0 = groups@;
        let b = rest.remove(0);
        proof {
            assert(b == before[0]);
            assert(rest@ =~= before.subrange(1, before.len() as int));
            assert(done + before =~= done.push(b) + rest@);
            assert(b == orig[done.len() as int]);
        }
        if b.files.len() >= 2 {
            proof {
                assert forall|g: int| 0 <= g < groups0.len()
                    implies ((#[trigger] groups0[g]).size != b.size || groups0[g].digest@
                        != b.digest@) by {
                    let w = choose|w: int|
                        0 <= w < done.len() && (#[trigger] done[w]).size == groups0[g].size
                            && done[w].digest@ == groups0[g].digest@;
                    assert(done[w] == orig[w]);
                }
            }
            groups.push(b);
        }
        proof {
            let ghost done0 = done;
            let ghost dl = done.len() as int;
            done = done.push(b);
            assert forall|g: int| 0 <= g < groups@.len()
                implies has_group_for(done, (#[trigger] groups@[g]).size, groups@[g].digest@) by {
                if g < groups0.len() {
                    let w = choose|w: int|
                        0 <= w < done0.len() && (#[trigger] done0[w]).size == groups@[g].size
                            && done0[w].digest@ == groups@[g].digest@;
                    assert(done[w] == done0[w]);
                    assert(done[w].size == groups@[g].size && done[w].digest@ == groups@[
                    g].digest@);
                } else {
                    assert(groups@[g] == b);
                    assert(done[dl].size == b.size && done[dl].digest@ == b.digest@);
                }
            }
            assert forall|g: int|
                0 <= g < done.len() && (#[trigger] done[g]).files@.len() >= 2
                implies has_group_for(groups@, done[g].size, done[g].digest@) by {
                if g < dl {
                    let w = choose|w: int|
                        0 <= w < groups0.len() && (#[trigger] groups0[w]).size == done[g].size
                            && groups0[w].digest@ == done[g].digest@;
                    assert(groups@[w].size == done[g].size && groups@[w].digest@ == done[
                    g].digest@);
                } else {
                    assert(done[g] == b);
                    assert(groups@[groups@.len() - 1] == b);
                }
            }
        }
    }
    proof {
        assert(orig =~= done);
        assert forall|size: u64, digest: Seq<char>|
            (#[trigger] files_matching_key(files@, digests@, size, digest)).len() >= 2
            implies has_group_for(groups@, size, digest) by {
            let w = choose|w: int|
                0 <= w < orig.len() && (#[trigger] orig[w]).size == size && orig[w].digest@
                    == digest;
            assert(orig[w].files@ == files_matching_key(files@, digests@, size, digest));
            assert(done[w].files@.len() >= 2);
        }
    }
    groups
}

/// A file at a matching worklist position is in the key's match list.
pub proof fn lemma_matching_key_contains(
    files: Seq<FileInfo>,
    digests: Seq<Option<String>>,
    size: u64,
    digest: Seq<char>,
    k: int,
)
    requires
        digests.len() == files.len(),
        0 <= k < files.len(),
        key_matches(files[k], digests[k], size, digest),
    ensures
        files_matching_key(files, digests, size, digest).contains(files[k]),
        files_matching_key(files, digests, size, digest).len() >= 1,
    decreases files.len(),
{
    let m = files_matching_key(files, digests, size, digest);
    if k == files.len() - 1 {
        assert(m[m.len() - 1] == files[k]);
        assert(m.contains(files[k]));
    } else {
        lemma_matching_key_contains(files.drop_last(), digests.drop_last(), size, digest, k);
        assert(files.drop_last()[k] == files[k]);
        let rest = files_matching_key(files.drop_last(), digests.drop_last(), size, digest);
        let w = choose|w: int| 0 <= w < rest.len() && rest[w] == files[k];
        assert(m[w] == files[k]);
        assert(m.contains(files[k]));
    }
}

/// Two distinct matching worklist positions make the match list a pair.
pub proof fn lemma_matching_key_pair(
    files: Seq<FileInfo>,
    digests: Seq<Option<String>>,
    size: u64,
    digest: Seq<char>,
    a: int,
    b: int,
)
    requires
        digests.len() == files.len(),
        0 <= a < b < files.len(),
        key_matches(files[a], digests[a], size, digest),
        key_matches(files[b], digests[b], size, digest),
    ensures
        files_matching_key(files, digests, size, digest).len() >= 2,
    decreases files.len(),
{
    if b == files.len() - 1 {
        lemma_matching_key_contains(files.drop_last(), digests.drop_last(), size, digest, a);
    } else {
        lemma_matching_key_pair(files.drop_last(), digests.drop_last(), size, digest, a, b);
    }
}

/// The file occurs at some worklist position matching the key.
pub open spec fn occurs_with_key(
    files: Seq<FileInfo>,
    digests: Seq<Option<String>>,
    size: u64,
    digest: Seq<char>,
    f: FileInfo,
) -> bool {
    exists|k: int|
        0 <= k < files.len() && (#[trigger] files[k]) == f && key_matches(
            files[k],
            digests[k],
            size,
            digest,
        )
}

/// Every file in a key's match list has the key's size and arose from a
/// worklist position whose digest is the key's digest.
pub proof fn lemma_matching_key_members(
    files: Seq<FileInfo>,
    digests: Seq<Option<String>>,
    size: u64,
    digest: Seq<char>,
)
    requires
        digests.len() == files.len(),
    ensures
        forall|i: int|
            0 <= i < files_matching_key(files, digests, size, digest).len()
                ==> (#[trigger] files_matching_key(files, digests, size, digest)[i]).size == size
                    && occurs_with_key(
                    files,
                    digests,
                    size,
                    digest,
                    files_matching_key(files, digests, size, digest)[i],
                ),
    decreases files.len(),
{
    if files.len() > 0 {
        lemma_matching_key_members(files.drop_last(), digests.drop_last(), size, digest);
        let m = files_matching_key(files, digests, size, digest);
        assert forall|i: int| 0 <= i < m.len()
            implies (#[trigger] m[i]).size == size && occurs_with_key(
                files,
                digests,
                size,
                digest,
                m[i],
            ) by {
            let rest = files_matching_key(files.drop_last(), digests.drop_last(), size, digest);
            if i < rest.len() {
                assert(rest[i] == m[i]);
                let k = choose|k: int|
                    0 <= k < files.drop_last().len() && (#[trigger] files.drop_last()[k])
                        == rest[i] && key_matches(
                        files.drop_last()[k],
                        digests.drop_last()[k],
                        size,
                        digest,
                    );
                assert(files[k] == rest[i]);
                assert(key_matches(files[k], digests[k], size, digest));
            } else {
                assert(m[i] == files.last());
                let k = files.len() - 1;
                assert(files[k] == m[i]);
                assert(key_matches(files[k], digests[k], size, digest));
            }
        }
    }
}

/// Grouping soundness: any two files reported in one duplicate group have
/// the group's size, and each arose from a worklist position whose digest
/// is the group's digest; by key distinctness in `valid_grouping`, no two
/// files in different groups share both size and digest.
pub proof fn lemma_grouping_soundness(
    files: Seq<FileInfo>,
    digests: Seq<Option<String>>,
    groups: Seq<DigestGroup>,
    g: int,
    a: int,
    b: int,
)
    requires
        digests.len() == files.len(),
        valid_grouping(files, digests, groups),
        0 <= g < groups.len(),
        0 <= a < groups[g].files@.len(),
        0 <= b < groups[g].files@.len(),
    ensures
        groups[g].files@[a].size == groups[g].size,
        groups[g].files@[b].size == groups[g].size,
        occurs_with_key(files, digests, groups[g].size, groups[g].digest@, groups[g].files@[a]),
        occurs_with_key(files, digests, groups[g].size, groups[g].digest@, groups[g].files@[b]),
{
    lemma_matching_key_members(files, digests, groups[g].size, groups[g].digest@);
}

/// The digest recorded for a worklist position, where there is one.
pub open spec fn digest_view(d: Option<String>) -> Seq<char> {
    match d {
        Some(h) => h@,
        None => Seq::empty(),
    }
}

/// Completeness: two distinct worklist positions with equal sizes and equal
/// recorded digests always end up together in some reported group.
pub proof fn lemma_duplicates_complete(
    files: Seq<FileInfo>,
    digests: Seq<Option<String>>,
    groups: Seq<DigestGroup>,
    i: int,
    j: int,
)
    requires
        digests.len() == files.len(),
        valid_grouping(files, digests, groups),
        0 <= i < files.len(),
        0 <= j < files.len(),
        i != j,
        digests[i] is Some,
        digests[j] is Some,
        digest_view(digests[i]) == digest_view(digests[j]),
        files[i].size == files[j].size,
    ensures
        exists|g: int|
            0 <= g < groups.len() && (#[trigger] groups[g]).files@.contains(files[i])
                && groups[g].files@.contains(files[j]),
{
    let size = files[i].size;
    let dg = digest_view(digests[i]);
    assert(key_matches(files[i], digests[i], size, dg));
    assert(key_matches(files[j], digests[j], size, dg));
    if i < j {
        lemma_matching_key_pair(files, digests, size, dg, i, j);
    } else {
        lemma_matching_key_pair(files, digests, size, dg, j, i);
    }
    assert(has_group_for(groups, size, dg));
    let g = choose|g: int|
        0 <= g < groups.len() && (#[trigger] groups[g]).size == size && groups[g].digest@ == dg;
    lemma_matching_key_contains(files, digests, size, dg, i);
    lemma_matching_key_contains(files, digests, size, dg, j);
    assert(groups[g].files@.contains(files[i]) && groups[g].files@.contains(files[j]));
}

/// Completeness from identical bytes: two worklist files whose contents are
/// the same byte sequence hash to the same digest, so they are reported
/// together. `ci` and `cj` are the bytes the digests were computed from.
pub proof fn lemma_identical_contents_grouped(
    files: Seq<FileInfo>,
    digests: Seq<Option<String>>,
    groups: Seq<DigestGroup>,
    i: int,
    j: int,
    ci: Seq<u8>,
    cj: Seq<u8>,
)
    requires
        digests.len() == files.len(),
        valid_grouping(files, digests, groups),
        0 <= i < files.len(),
        0 <= j < files.len(),
        i != j,
        digests[i] is Some,
        digests[j] is Some,
        digest_view(digests[i]) == crate::digest::hex_of(crate::digest::sha256_of(ci)),
        digest_view(digests[j]) == crate::digest::hex_of(crate::digest::sha256_of(cj)),
        ci == cj,
        files[i].size == files[j].size,
    ensures
        exists|g: int|
            0 <= g < groups.len() && (#[trigger] groups[g]).files@.contains(files[i])
                && groups[g].files@.contains(files[j]),
{
    lemma_duplicates_complete(files, digests, groups, i, j);
}

/// With the sole matching index unique, the key's size bucket is a
/// singleton.
pub proof fn lemma_files_with_size_at_most_one(files: Seq<FileInfo>, size: u64, k: int)
    requires
        0 <= k < files.len(),
        forall|j: int| 0 <= j < files.len() && j != k ==> (#[trigger] files[j]).size != size,
    ensures
        files_with_size(files, size).len() <= 1,
{
    if files[k].size == size {
        lemma_files_with_size_unique(files, size, k);
    } else {
        lemma_files_with_size_none(files, size);
    }
}

/// Size filtering: a file whose size is unique across the scan's input
/// never enters the hashing worklist — it is never hashed and can never be
/// reported.
pub proof fn lemma_unique_size_never_hashed(files: Seq<FileInfo>, index: Seq<SizeBucket>, k: int)
    requires
        valid_size_index(files, index),
        0 <= k < files.len(),
        forall|j: int|
            0 <= j < files.len() && j != k ==> (#[trigger] files[j]).size != files[k].size,
    ensures
        forall|i: int|
            0 <= i < all_candidate_files(buckets_with_two(index)).len()
                ==> (#[trigger] all_candidate_files(buckets_with_two(index))[i]).size != files[
                k].size,
{
    let cands = buckets_with_two(index);
    lemma_buckets_with_two_members(index);
    lemma_candidate_files_members(cands);
    assert forall|i: int| 0 <= i < all_candidate_files(cands).len()
        implies (#[trigger] all_candidate_files(cands)[i]).size != files[k].size by {
        let f = all_candidate_files(cands)[i];
        let b = choose|b: int| 0 <= b < cands.len() && (#[trigger] cands[b]).files@.contains(f);
        assert(index.contains(cands[b]) && cands[b].files@.len() >= 2);
        let w = choose|w: int| 0 <= w < index.len() && index[w] == cands[b];
        assert(index[w].files@ == files_with_size(files, index[w].size));
        lemma_files_with_size_members(files, index[w].size);
        let p = choose|p: int| 0 <= p < cands[b].files@.len() && cands[b].files@[p] == f;
        assert(f.size == index[w].size);
        if index[w].size == files[k].size {
            lemma_files_with_size_at_most_one(files, index[w].size, k);
            assert(false);
        }
    }
}

/// Every reported file is one of the scan's input records, with a non-zero
/// size. Hidden exclusion follows: an entry pruned during traversal (a
/// hidden-named file, or anything under a hidden-named directory) is not an
/// input record, so it can appear in no group however its bytes compare to
/// a visible file. Zero-byte exclusion follows the same way: empty files
/// never reach a group.
pub proof fn lemma_group_members_from_input(
    raw: Seq<FileInfo>,
    index: Seq<SizeBucket>,
    digests: Seq<Option<String>>,
    groups: Seq<DigestGroup>,
    g: int,
    m: int,
)
    requires
        valid_size_index(nonempty_of(raw), index),
        digests.len() == all_candidate_files(buckets_with_two(index)).len(),
        valid_grouping(all_candidate_files(buckets_with_two(index)), digests, groups),
        0 <= g < groups.len(),
        0 <= m < groups[g].files@.len(),
    ensures
        raw.contains(groups[g].files@[m]),
        groups[g].files@[m].size > 0,
{
    let kept = nonempty_of(raw);
    let worklist = all_candidate_files(buckets_with_two(index));
    let f = groups[g].files@[m];
    lemma_matching_key_members(worklist, digests, groups[g].size, groups[g].digest@);
    let k = choose|k: int|
        0 <= k < worklist.len() && (#[trigger] worklist[k]) == f && key_matches(
            worklist[k],
            digests[k],
            groups[g].size,
            groups[g].digest@,
        );
    lemma_buckets_with_two_members(index);
    lemma_candidate_files_members(buckets_with_two(index));
    let cands = buckets_with_two(index);
    let b = choose|b: int| 0 <= b < cands.len() && (#[trigger] cands[b]).files@.contains(f);
    let w = choose|w: int| 0 <= w < index.len() && index[w] == cands[b];
    assert(index[w].files@ == files_with_size(kept, index[w].size));
    lemma_files_with_size_members(kept, index[w].size);
    let p = choose|p: int| 0 <= p < cands[b].files@.len() && cands[b].files@[p] == f;
    assert(kept.contains(f));
    lemma_nonempty_members(raw);
    let q = choose|q: int| 0 <= q < kept.len() && kept[q] == f;
}

/// The progress event emitted for position `k` of the hashing worklist:
/// `k + 1` files attempted out of the worklist's length.
pub open spec fn spec_progress(worklist: Seq<FileInfo>, k: int) -> ScanProgress {
    ScanProgress {
        current: (k + 1) as usize,
        total: worklist.len() as usize,
        current_file: worklist[k].path,
    }
}

/// Build the progress event for one worklist position.
pub fn progress_for(worklist: &Vec<FileInfo>, k: usize) -> (p: ScanProgress)
    requires
        k < worklist@.len(),
    ensures
        p == spec_progress(worklist@, k as int),
{
    let total = worklist.len();
    ScanProgress { current: k + 1, total, current_file: worklist[k].path.clone() }
}

/// Progress monotonicity: along one scan's sequence of progress events the
/// counter never decreases, the total never changes, the counter never
/// exceeds the total, and the last event's counter equals the total.
pub proof fn lemma_progress_monotone(worklist: Seq<FileInfo>, a: int, b: int)
    requires
        worklist.len() <= usize::MAX,
        0 <= a <= b < worklist.len(),
    ensures
        spec_progress(worklist, a).current <= spec_progress(worklist, b).current,
        spec_progress(worklist, a).total == spec_progress(worklist, b).total,
        spec_progress(worklist, b).current <= spec_progress(worklist, b).total,
        spec_progress(worklist, worklist.len() - 1).current == spec_progress(
            worklist,
            worklist.len() - 1,
        ).total,
{
}

/// An index bucket holding two or more files survives the candidate filter.
pub proof fn lemma_buckets_with_two_keeps(index: Seq<SizeBucket>, w: int)
    requires
        0 <= w < index.len(),
        index[w].files@.len() >= 2,
    ensures
        buckets_with_two(index).contains(index[w]),
    decreases index.len(),
{
    let kept = buckets_with_two(index);
    if w == index.len() - 1 {
        assert(kept[kept.len() - 1] == index[w]);
        assert(kept.contains(index[w]));
    } else {
        lemma_buckets_with_two_keeps(index.drop_last(), w);
        assert(index.drop_last()[w] == index[w]);
        let rest = buckets_with_two(index.drop_last());
        let p = choose|p: int| 0 <= p < rest.len() && rest[p] == index[w];
        assert(kept[p] == index[w]);
        assert(kept.contains(index[w]));
    }
}

/// Every file of every candidate bucket is in the hashing worklist.
pub proof fn lemma_candidate_files_cover(cands: Seq<SizeBucket>, c: int, i: int)
    requires
        0 <= c < cands.len(),
        0 <= i < cands[c].files@.len(),
    ensures
        all_candidate_files(cands).contains(cands[c].files@[i]),
    decreases cands.len(),
{
    let acf = all_candidate_files(cands);
    if c == cands.len() - 1 {
        let rest = all_candidate_files(cands.drop_last());
        assert(acf[rest.len() + i] == cands[c].files@[i]);
        assert(acf.contains(cands[c].files@[i]));
    } else {
        lemma_candidate_files_cover(cands.drop_last(), c, i);
        assert(cands.drop_last()[c] == cands[c]);
        let rest = all_candidate_files(cands.drop_last());
        let p = choose|p: int| 0 <= p < rest.len() && rest[p] == cands[c].files@[i];
        assert(acf[p] == cands[c].files@[i]);
        assert(acf.contains(cands[c].files@[i]));
    }
}

/// Completeness of the size phase: a record whose size is shared with some
/// other record always enters the hashing worklist. Together with
/// `lemma_duplicates_complete` this closes the chain: same bytes mean same
/// size, both files are hashed, and equal digests put them in one group.
pub proof fn lemma_shared_size_in_worklist(
    files: Seq<FileInfo>,
    index: Seq<SizeBucket>,
    a: int,
    b: int,
)
    requires
        valid_size_index(files, index),
        0 <= a < files.len(),
        0 <= b < files.len(),
        a != b,
        files[a].size == files[b].size,
    ensures
        all_candidate_files(buckets_with_two(index)).contains(files[a]),
{
    let s = files[a].size;
    assert(has_bucket_for(index, s));
    let w = choose|w: int| 0 <= w < index.len() && (#[trigger] index[w]).size == s;
    assert(index[w].files@ == files_with_size(files, s));
    if a < b {
        lemma_files_with_size_pair(files, s, a, b);
    } else {
        lemma_files_with_size_pair(files, s, b, a);
    }
    lemma_files_with_size_contains(files, s, a);
    lemma_buckets_with_two_keeps(index, w);
    let cands = buckets_with_two(index);
    let c = choose|c: int| 0 <= c < cands.len() && cands[c] == index[w];
    let i = choose|i: int| 0 <= i < index[w].files@.len() && index[w].files@[i] == files[a];
    lemma_candidate_files_cover(cands, c, i);
}

/// Some group of the list has exactly this key and these members.
pub open spec fn group_reported(
    groups: Seq<DigestGroup>,
    size: u64,
    digest: Seq<char>,
    members: Seq<FileInfo>,
) -> bool {
    exists|h: int|
        0 <= h < groups.len() && (#[trigger] groups[h]).size == size && groups[h].digest@ == digest
            && groups[h].files@ == members
}

/// Idempotence: scanning an unchanged worklist twice yields set-equal
/// results — any two groupings of the same worklist and digests report the
/// same groups, each with the same key and the same members.
pub proof fn lemma_grouping_deterministic(
    files: Seq<FileInfo>,
    digests: Seq<Option<String>>,
    groups1: Seq<DigestGroup>,
    groups2: Seq<DigestGroup>,
)
    requires
        digests.len() == files.len(),
        valid_grouping(files, digests, groups1),
        valid_grouping(files, digests, groups2),
    ensures
        forall|g: int|
            0 <= g < groups1.len()
                ==> group_reported(
                    groups2,
                    (#[trigger] groups1[g]).size,
                    groups1[g].digest@,
                    groups1[g].files@,
                ),
        forall|g: int|
            0 <= g < groups2.len()
                ==> group_reported(
                    groups1,
                    (#[trigger] groups2[g]).size,
                    groups2[g].digest@,
                    groups2[g].files@,
                ),
{
    assert forall|g: int| 0 <= g < groups1.len()
        implies group_reported(
            groups2,
            (#[trigger] groups1[g]).size,
            groups1[g].digest@,
            groups1[g].files@,
        ) by {
        let h = choose|h: int|
            0 <= h < groups2.len() && (#[trigger] groups2[h]).size == groups1[g].size && groups2[
            h].digest@ == groups1[g].digest@;
        assert(groups2[h].files@ == groups1[g].files@);
    }
    assert forall|g: int| 0 <= g < groups2.len()
        implies group_reported(
            groups1,
            (#[trigger] groups2[g]).size,
            groups2[g].digest@,
            groups2[g].files@,
        ) by {
        let h = choose|h: int|
            0 <= h < groups1.len() && (#[trigger] groups1[h]).size == groups2[g].size && groups1[
            h].digest@ == groups2[g].digest@;
        assert(groups1[h].files@ == groups2[g].files@);
    }
}

} // verus!
