//! Keep/delete selection over duplicate groups and the storage-savings sum.

use vstd::prelude::*;
use crate::scanner::FileInfo;

verus! {

/// One reported duplicate group together with the user's per-file "keep"
/// choices. `selected[i]` is true when `files[i]` is kept.
#[derive(Debug)]
pub struct DuplicateGroup {
    pub files: Vec<FileInfo>,
    pub selected: Vec<bool>,
}

/// The bytes reclaimed by deleting the unkept files of one group: the sum of
/// the sizes of the files whose keep flag is false. Meaningful for well
/// formed groups, where the flags align with the files (`wf_group`).
pub open spec fn spec_group_savings(files: Seq<FileInfo>, selected: Seq<bool>) -> int
    decreases files.len(),
{
    if files.len() == 0 || selected.len() == 0 {
        0
    } else {
        spec_group_savings(files.drop_last(), selected.drop_last())
            + if !selected.last() { files.last().size as int } else { 0 }
    }
}

/// The bytes reclaimed across all groups.
pub open spec fn spec_savings(groups: Seq<DuplicateGroup>) -> int
    decreases groups.len(),
{
    if groups.len() == 0 {
        0
    } else {
        spec_savings(groups.drop_last())
            + spec_group_savings(groups.last().files@, groups.last().selected@)
    }
}

/// A group is well formed when it carries one keep flag per file.
pub open spec fn wf_group(group: DuplicateGroup) -> bool {
    group.selected@.len() == group.files@.len()
}

/// Wrap a reported group for selection, with every file initially kept.
pub fn new_group(files: Vec<FileInfo>) -> (group: DuplicateGroup)
    ensures
        group.files@ == files@,
        wf_group(group),
        forall|i: int| 0 <= i < group.selected@.len() ==> group.selected@[i] == true,
{
    let n = files.len();
    let selected = vec![true; n];
    DuplicateGroup { files, selected }
}

proof fn lemma_group_savings_nonneg(files: Seq<FileInfo>, selected: Seq<bool>)
    ensures
        spec_group_savings(files, selected) >= 0,
    decreases files.len(),
{
    if files.len() > 0 && selected.len() > 0 {
        lemma_group_savings_nonneg(files.drop_last(), selected.drop_last());
    }
}

proof fn lemma_savings_nonneg(groups: Seq<DuplicateGroup>)
    ensures
        spec_savings(groups) >= 0,
    decreases groups.len(),
{
    if groups.len() > 0 {
        lemma_savings_nonneg(groups.drop_last());
        lemma_group_savings_nonneg(groups.last().files@, groups.last().selected@);
    }
}

/// One step of the per-group sum, over aligned prefixes.
proof fn lemma_group_savings_step(files: Seq<FileInfo>, selected: Seq<bool>, i: int)
    requires
        0 <= i < files.len(),
        selected.len() == files.len(),
    ensures
        spec_group_savings(files.take(i + 1), selected.take(i + 1)) == spec_group_savings(
            files.take(i),
            selected.take(i),
        ) + (if !selected[i] {
            files[i].size as int
        } else {
            0
        }),
{
    assert(files.take(i + 1).drop_last() =~= files.take(i));
    assert(selected.take(i + 1).drop_last() =~= selected.take(i));
    assert(files.take(i + 1).last() == files[i]);
    assert(selected.take(i + 1).last() == selected[i]);
}

/// A prefix of the per-group sum never exceeds the whole.
proof fn lemma_group_savings_prefix_le(files: Seq<FileInfo>, selected: Seq<bool>, i: int)
    requires
        0 <= i <= files.len(),
        selected.len() == files.len(),
    ensures
        spec_group_savings(files.take(i), selected.take(i)) <= spec_group_savings(files, selected),
    decreases files.len() - i,
{
    if i == files.len() {
        assert(files.take(i) =~= files);
        assert(selected.take(i) =~= selected);
    } else {
        lemma_group_savings_step(files, selected, i);
        lemma_group_savings_prefix_le(files, selected, i + 1);
    }
}

/// One step of the whole-scan sum, over a prefix of the groups.
proof fn lemma_savings_step(groups: Seq<DuplicateGroup>, g: int)
    requires
        0 <= g < groups.len(),
    ensures
        spec_savings(groups.take(g + 1)) == spec_savings(groups.take(g)) + spec_group_savings(
            groups[g].files@,
            groups[g].selected@,
        ),
{
    assert(groups.take(g + 1).drop_last() =~= groups.take(g));
    assert(groups.take(g + 1).last() == groups[g]);
}

/// A prefix of the whole-scan sum never exceeds the whole.
proof fn lemma_savings_prefix_le(groups: Seq<DuplicateGroup>, g: int)
    requires
        0 <= g <= groups.len(),
    ensures
        spec_savings(groups.take(g)) <= spec_savings(groups),
    decreases groups.len() - g,
{
    if g == groups.len() {
        assert(groups.take(g) =~= groups);
    } else {
        lemma_savings_step(groups, g);
        lemma_group_savings_nonneg(groups[g].files@, groups[g].selected@);
        lemma_savings_prefix_le(groups, g + 1);
    }
}

/// The total bytes reclaimed by deleting every unkept file: the sum over
/// all groups of the sizes of the files whose keep flag is false.
pub fn calculate_savings(groups: &Vec<DuplicateGroup>) -> (total: u64)
    requires
        forall|g: int| 0 <= g < groups@.len() ==> wf_group(#[trigger] groups@[g]),
        spec_savings(groups@) <= u64::MAX,
    ensures
        total as int == spec_savings(groups@),
{
    let mut total: u64 = 0;
    let mut g: usize = 0;
    while g < groups.len()
        invariant
            g <= groups@.len(),
            forall|h: int| 0 <= h < groups@.len() ==> wf_group(#[trigger] groups@[h]),
            spec_savings(groups@) <= u64::MAX,
            total as int == spec_savings(groups@.take(g as int)),
        decreases groups@.len() - g,
    {
        let files = &groups[g].files;
        let selected = &groups[g].selected;
        let mut i: usize = 0;
        while i < files.len()
            invariant
                i <= files@.len(),
                files@ == groups@[g as int].files@,
                selected@ == groups@[g as int].selected@,
                g < groups@.len(),
                forall|h: int| 0 <= h < groups@.len() ==> wf_group(#[trigger] groups@[h]),
                spec_savings(groups@) <= u64::MAX,
                total as int == spec_savings(groups@.take(g as int)) + spec_group_savings(
                    files@.take(i as int),
                    selected@.take(i as int),
                ),
            decreases files@.len() - i,
        {
            proof {
                lemma_group_savings_step(files@, selected@, i as int);
                lemma_group_savings_prefix_le(files@, selected@, i + 1 as int);
                lemma_savings_step(groups@, g as int);
                lemma_savings_prefix_le(groups@, g + 1 as int);
                lemma_savings_nonneg(groups@.take(g as int));
            }
            if !selected[i] {
                total = total + files[i].size;
            }
            i += 1;
        }
        proof {
            assert(files@.take(files@.len() as int) =~= files@);
            assert(selected@.take(selected@.len() as int) =~= selected@);
            lemma_savings_step(groups@, g as int);
        }
        g += 1;
    }
    proof {
        assert(groups@.take(groups@.len() as int) =~= groups@);
    }
    total
}

/// The compute-side state a front end keeps between scans: the reported
/// groups with their keep flags, and the savings total last computed from
/// them.
pub struct DupeFinderApp {
    pub duplicate_groups: Vec<DuplicateGroup>,
    pub total_size_savings: u64,
}

impl DupeFinderApp {
    /// Recompute the potential storage savings from the current keep flags.
    pub fn calculate_savings(&mut self)
        requires
            forall|g: int|
                0 <= g < old(self).duplicate_groups@.len() ==> wf_group(
                    #[trigger] old(self).duplicate_groups@[g],
                ),
            spec_savings(old(self).duplicate_groups@) <= u64::MAX,
        ensures
            final(self).duplicate_groups == old(self).duplicate_groups,
            final(self).total_size_savings as int == spec_savings(old(self).duplicate_groups@),
    {
        let total = calculate_savings(&self.duplicate_groups);
        self.total_size_savings = total;
    }
}

/// The files of a group whose keep flag is false, in group order: exactly
/// the files a deletion pass removes.
pub open spec fn unkept_of(files: Seq<FileInfo>, selected: Seq<bool>) -> Seq<FileInfo>
    decreases files.len(),
{
    if files.len() == 0 || selected.len() == 0 {
        Seq::empty()
    } else {
        let rest = unkept_of(files.drop_last(), selected.drop_last());
        if !selected.last() {
            rest.push(files.last())
        } else {
            rest
        }
    }
}

/// List the files of one group that are not kept and are therefore to be
/// deleted.
pub fn unkept_files(group: &DuplicateGroup) -> (doomed: Vec<FileInfo>)
    requires
        wf_group(*group),
    ensures
        doomed@ == unkept_of(group.files@, group.selected@),
{
    let mut doomed: Vec<FileInfo> = Vec::new();
    let mut i: usize = 0;
    while i < group.files.len()
        invariant
            i <= group.files@.len(),
            wf_group(*group),
            doomed@ == unkept_of(group.files@.take(i as int), group.selected@.take(i as int)),
        decreases group.files@.len() - i,
    {
        proof {
            assert(group.files@.take(i + 1 as int).drop_last() =~= group.files@.take(i as int));
            assert(group.selected@.take(i + 1 as int).drop_last() =~= group.selected@.take(
                i as int,
            ));
            assert(group.files@.take(i + 1 as int).last() == group.files@[i as int]);
            assert(group.selected@.take(i + 1 as int).last() == group.selected@[i as int]);
        }
        if !group.selected[i] {
            doomed.push(group.files[i].clone());
        }
        i += 1;
    }
    proof {
        assert(group.files@.take(group.files@.len() as int) =~= group.files@);
        assert(group.selected@.take(group.selected@.len() as int) =~= group.selected@);
    }
    doomed
}

/// A keep-flag vector that keeps exactly the file at `keep`.
pub fn keep_only(count: usize, keep: usize) -> (selected: Vec<bool>)
    ensures
        selected@.len() == count,
        forall|i: int| 0 <= i < count ==> ((#[trigger] selected@[i]) <==> i == keep),
{
    let mut selected: Vec<bool> = Vec::new();
    let mut i: usize = 0;
    while i < count
        invariant
            i <= count,
            selected@.len() == i,
            forall|j: int| 0 <= j < i ==> ((#[trigger] selected@[j]) <==> j == keep),
        decreases count - i,
    {
        selected.push(i == keep);
        i += 1;
    }
    selected
}

/// Modification-time order for the keep-newest and keep-oldest selections,
/// with `None` (time unreadable) ordered before every timestamp.
pub open spec fn time_le(a: Option<u64>, b: Option<u64>) -> bool {
    match (a, b) {
        (Option::None, _) => true,
        (Option::Some(_), Option::None) => false,
        (Option::Some(x), Option::Some(y)) => x <= y,
    }
}

fn time_le_exec(a: &Option<u64>, b: &Option<u64>) -> (r: bool)
    ensures
        r == time_le(*a, *b),
{
    match (a, b) {
        (Option::None, _) => true,
        (Option::Some(_), Option::None) => false,
        (Option::Some(x), Option::Some(y)) => *x <= *y,
    }
}

/// The index a keep-newest pass selects: the last position carrying the
/// greatest modification time. `None` exactly when there are no files.
pub fn index_of_newest(times: &Vec<Option<u64>>) -> (best: Option<usize>)
    ensures
        match best {
            Option::Some(k) => k < times@.len() && (forall|i: int|
                0 <= i < times@.len() ==> time_le(#[trigger] times@[i], times@[k as int])) && (
            forall|i: int|
                k < i < times@.len() ==> !time_le(times@[k as int], #[trigger] times@[i])),
            Option::None => times@.len() == 0,
        },
{
    if times.len() == 0 {
        return None;
    }
    let mut best: usize = 0;
    let mut i: usize = 1;
    while i < times.len()
        invariant
            best < i <= times@.len(),
            forall|j: int| 0 <= j < i ==> time_le(#[trigger] times@[j], times@[best as int]),
            forall|j: int| best < j < i ==> !time_le(times@[best as int], #[trigger] times@[j]),
        decreases times@.len() - i,
    {
        if time_le_exec(&times[best], &times[i]) {
            best = i;
        }
        i += 1;
    }
    Some(best)
}

/// The index a keep-oldest pass selects: the first position carrying the
/// least modification time. `None` exactly when there are no files.
pub fn index_of_oldest(times: &Vec<Option<u64>>) -> (best: Option<usize>)
    ensures
        match best {
            Option::Some(k) => k < times@.len() && (forall|i: int|
                0 <= i < times@.len() ==> time_le(times@[k as int], #[trigger] times@[i])) && (
            forall|i: int| 0 <= i < k ==> !time_le(#[trigger] times@[i], times@[k as int])),
            Option::None => times@.len() == 0,
        },
{
    if times.len() == 0 {
        return None;
    }
    let mut best: usize = 0;
    let mut i: usize = 1;
    while i < times.len()
        invariant
            best < i <= times@.len(),
            forall|j: int| 0 <= j < i ==> time_le(times@[best as int], #[trigger] times@[j]),
            forall|j: int| 0 <= j < best ==> !time_le(#[trigger] times@[j], times@[best as int]),
        decreases times@.len() - i,
    {
        if !time_le_exec(&times[best], &times[i]) {
            best = i;
        }
        i += 1;
    }
    Some(best)
}

} // verus!
