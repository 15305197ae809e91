use vstd::prelude::*;

use crate::record::FileInfo;

verus! {

/// The records of `files` whose hash is `h`, in their order in `files`.
pub open spec fn with_hash(files: Seq<FileInfo>, h: Seq<char>) -> Seq<FileInfo>
    decreases files.len(),
{
    if files.len() == 0 {
        Seq::empty()
    } else {
        let rest = with_hash(files.drop_last(), h);
        if files.last().hash@ == h {
            rest.push(files.last())
        } else {
            rest
        }
    }
}

/// No record before position `i` of `files` has the hash of the record at `i`.
#[verifier::opaque]
pub open spec fn first_of_hash(files: Seq<FileInfo>, i: int) -> bool {
    forall|k: int| 0 <= k < i ==> files[k].hash@ != files[i].hash@
}

/// Files that share one content hash. The first member is the retained
/// original; the others are its duplicates.
#[derive(Debug)]
pub struct DuplicateGroup {
    pub hash: String,
    pub size: u64,
    pub files: Vec<FileInfo>,
}

/// A group as plain values.
pub ghost struct GroupView {
    pub hash: Seq<char>,
    pub size: u64,
    pub files: Seq<FileInfo>,
}

impl View for DuplicateGroup {
    type V = GroupView;

    open spec fn view(&self) -> GroupView {
        GroupView { hash: self.hash@, size: self.size, files: self.files@ }
    }
}

/// The groups of a vector, as plain values.
pub open spec fn views(groups: Seq<DuplicateGroup>) -> Seq<GroupView> {
    groups.map_values(|g: DuplicateGroup| g@)
}

/// The group of all records that share the hash of the record at position `i`.
pub open spec fn group_at(files: Seq<FileInfo>, i: int) -> GroupView {
    GroupView { hash: files[i].hash@, size: files[i].size, files: with_hash(files, files[i].hash@) }
}

/// The record at position `i` is the first of its hash, and that hash is shared.
pub open spec fn opens_group(files: Seq<FileInfo>, i: int) -> bool {
    first_of_hash(files, i) && with_hash(files, files[i].hash@).len() >= 2
}

/// The duplicate groups whose hash first appears among the first `n` records,
/// in the order of those first appearances.
pub open spec fn groups_upto(files: Seq<FileInfo>, n: int) -> Seq<GroupView>
    decreases n,
{
    if n <= 0 {
        Seq::empty()
    } else {
        let prev = groups_upto(files, n - 1);
        if opens_group(files, n - 1) {
            prev.push(group_at(files, n - 1))
        } else {
            prev
        }
    }
}

/// The duplicate groups of a record sequence.
pub open spec fn duplicate_groups(files: Seq<FileInfo>) -> Seq<GroupView> {
    groups_upto(files, files.len() as int)
}

/// Whether some record before position `i` has the hash of the record at `i`.
fn hash_seen_before(files: &Vec<FileInfo>, i: usize) -> (r: bool)
    requires
        i < files.len(),
    ensures
        r == !first_of_hash(files@, i as int),
{
    let mut k: usize = 0;
    while k < i
        invariant
            k <= i,
            i < files.len(),
            forall|m: int| 0 <= m < k ==> files@[m].hash@ != files@[i as int].hash@,
        decreases i - k,
    {
        proof {
            reveal(first_of_hash);
        }
        if files[k].hash == files[i].hash {
            return true;
        }
        k += 1;
    }
    proof {
        reveal(first_of_hash);
    }
    false
}

/// Copies of the records of `files` whose hash is `h`, in their order.
fn collect_with_hash(files: &Vec<FileInfo>, h: &String) -> (r: Vec<FileInfo>)
    ensures
        r@ == with_hash(files@, h@),
{
    let mut r: Vec<FileInfo> = Vec::new();
    let mut k: usize = 0;
    while k < files.len()
        invariant
            k <= files.len(),
            r@ == with_hash(files@.take(k as int), h@),
        decreases files.len() - k,
    {
        assert(files@.take(k + 1).drop_last() =~= files@.take(k as int));
        if files[k].hash == *h {
            r.push(files[k].duplicate());
        }
        k += 1;
    }
    assert(files@.take(files.len() as int) =~= files@);
    r
}

/// Groups the records by hash. A group is formed for every hash that two or
/// more records share; it holds those records in their order in `files`, and
/// the groups come in the order in which their hashes first appear.
pub fn find_duplicates(files: &Vec<FileInfo>) -> (groups: Vec<DuplicateGroup>)
    ensures
        views(groups@) == duplicate_groups(files@),
{
    let mut groups: Vec<DuplicateGroup> = Vec::new();
    let mut i: usize = 0;
    while i < files.len()
        invariant
            i <= files.len(),
            views(groups@) == groups_upto(files@, i as int),
        decreases files.len() - i,
    {
        if !hash_seen_before(files, i) {
            let members = collect_with_hash(files, &files[i].hash);
            if members.len() >= 2 {
                let g = DuplicateGroup { hash: files[i].hash.clone(), size: files[i].size, files: members };
                groups.push(g);
            }
        }
        assert(views(groups@) =~= groups_upto(files@, i + 1));
        i += 1;
    }
    groups
}

/// The total size of the records of `files`.
pub open spec fn size_sum(files: Seq<FileInfo>) -> nat
    decreases files.len(),
{
    if files.len() == 0 {
        0
    } else {
        size_sum(files.drop_last()) + files.last().size as nat
    }
}

/// Bytes held by the duplicates of all groups: every member but the first.
pub open spec fn wasted_bytes(groups: Seq<GroupView>) -> nat
    decreases groups.len(),
{
    if groups.len() == 0 {
        0
    } else {
        wasted_bytes(groups.drop_last()) + size_sum(groups.last().files.drop_first())
    }
}

/// The number of duplicates over all groups: each group's size less one.
pub open spec fn duplicate_count(groups: Seq<GroupView>) -> nat
    decreases groups.len(),
{
    if groups.len() == 0 {
        0
    } else {
        duplicate_count(groups.drop_last()) + (groups.last().files.len() - 1) as nat
    }
}

/// `n` where it fits in a `u64`, else the largest `u64`.
pub open spec fn saturate(n: int) -> u64 {
    if n > u64::MAX {
        u64::MAX
    } else {
        n as u64
    }
}

proof fn lemma_saturate_add(x: nat, y: nat)
    ensures
        saturate(saturate(x as int) + y) == saturate((x + y) as int),
{
}

pub(crate) fn add_saturating(a: u64, b: u64) -> (r: u64)
    ensures
        r == saturate(a + b),
{
    if a > u64::MAX - b {
        u64::MAX
    } else {
        a + b
    }
}

/// The bytes held by every member of a group but the first.
fn group_wasted_bytes(files: &Vec<FileInfo>) -> (r: u64)
    requires
        files.len() >= 1,
    ensures
        r == saturate(size_sum(files@.drop_first()) as int),
{
    let mut acc: u64 = 0;
    let mut k: usize = 1;
    while k < files.len()
        invariant
            1 <= k <= files.len(),
            acc == saturate(size_sum(files@.subrange(1, k as int)) as int),
        decreases files.len() - k,
    {
        assert(files@.subrange(1, k + 1).drop_last() =~= files@.subrange(1, k as int));
        proof {
            lemma_saturate_add(size_sum(files@.subrange(1, k as int)), files@[k as int].size as nat);
        }
        acc = add_saturating(acc, files[k].size);
        k += 1;
    }
    assert(files@.subrange(1, files.len() as int) =~= files@.drop_first());
    acc
}

/// The findings of a scan: the duplicate groups, and over all of them the
/// bytes that the duplicates hold and their number, both saturating at the
/// largest `u64`.
#[derive(Debug)]
pub struct DuplicateReport {
    pub groups: Vec<DuplicateGroup>,
    pub total_wasted_bytes: u64,
    pub total_duplicate_count: u64,
}

impl DuplicateReport {
    /// Every group holds at least two records.
    pub open spec fn wf(&self) -> bool {
        forall|j: int| 0 <= j < self.groups.len() ==> #[trigger] self.groups[j].files.len() >= 2
    }

    /// Whether no duplicates were found.
    pub fn is_empty(&self) -> (r: bool)
        ensures
            r == (self.groups.len() == 0),
    {
        self.groups.len() == 0
    }
}

/// The position of the record that opened group `j` of `groups_upto(files, n)`.
pub open spec fn opener(files: Seq<FileInfo>, n: int, j: int) -> int
    decreases n,
{
    if n <= 0 {
        0
    } else if opens_group(files, n - 1) && j == groups_upto(files, n - 1).len() {
        n - 1
    } else {
        opener(files, n - 1, j)
    }
}

/// Group `j` is the group of the record at `opener(files, n, j)`, which opens it.
pub(crate) proof fn lemma_group_origin(files: Seq<FileInfo>, n: int, j: int)
    requires
        0 <= n <= files.len(),
        0 <= j < groups_upto(files, n).len(),
    ensures
        0 <= opener(files, n, j) < n,
        opens_group(files, opener(files, n, j)),
        group_at(files, opener(files, n, j)) == groups_upto(files, n)[j],
    decreases n,
{
    if n > 0 {
        let prev = groups_upto(files, n - 1);
        if j < prev.len() {
            lemma_group_origin(files, n - 1, j);
        }
    }
}

/// No two groups share a hash.
pub(crate) proof fn lemma_group_hashes_distinct(files: Seq<FileInfo>, n: int, j1: int, j2: int)
    requires
        0 <= n <= files.len(),
        0 <= j1 < j2 < groups_upto(files, n).len(),
    ensures
        groups_upto(files, n)[j1].hash != groups_upto(files, n)[j2].hash,
    decreases n,
{
    if n > 0 {
        let prev = groups_upto(files, n - 1);
        if j2 < prev.len() {
            lemma_group_hashes_distinct(files, n - 1, j1, j2);
        } else {
            lemma_group_origin(files, n - 1, j1);
            reveal(first_of_hash);
        }
    }
}

/// The group of every record that opens one is among the groups.
proof fn lemma_group_present(files: Seq<FileInfo>, n: int, i: int)
    requires
        0 <= i < n <= files.len(),
        opens_group(files, i),
    ensures
        exists|j: int|
            0 <= j < groups_upto(files, n).len() && #[trigger] groups_upto(files, n)[j] == group_at(
                files,
                i,
            ),
    decreases n,
{
    let prev = groups_upto(files, n - 1);
    if i < n - 1 {
        lemma_group_present(files, n - 1, i);
        let j = choose|j: int| 0 <= j < prev.len() && #[trigger] prev[j] == group_at(files, i);
        assert(groups_upto(files, n)[j] == prev[j]);
    } else {
        assert(groups_upto(files, n)[prev.len() as int] == group_at(files, i));
    }
}

/// Every record that `with_hash` picks has the hash and is one of the records.
pub(crate) proof fn lemma_with_hash_index(files: Seq<FileInfo>, h: Seq<char>, p: int)
    requires
        0 <= p < with_hash(files, h).len(),
    ensures
        with_hash(files, h)[p].hash@ == h,
        files.contains(with_hash(files, h)[p]),
    decreases files.len(),
{
    let rest = with_hash(files.drop_last(), h);
    if p < rest.len() {
        lemma_with_hash_index(files.drop_last(), h, p);
        assert(with_hash(files, h)[p] == rest[p]);
        let idx = choose|idx: int|
            0 <= idx < files.drop_last().len() && files.drop_last()[idx] == rest[p];
        assert(files[idx] == rest[p]);
    } else {
        assert(files[files.len() - 1] == with_hash(files, h)[p]);
    }
}

/// Every record with the hash is among those that `with_hash` picks.
pub(crate) proof fn lemma_with_hash_has(files: Seq<FileInfo>, h: Seq<char>, k: int)
    requires
        0 <= k < files.len(),
        files[k].hash@ == h,
    ensures
        with_hash(files, h).contains(files[k]),
    decreases files.len(),
{
    let rest = with_hash(files.drop_last(), h);
    if k == files.len() - 1 {
        let w = with_hash(files, h);
        assert(w[w.len() - 1] == files[k]);
    } else {
        lemma_with_hash_has(files.drop_last(), h, k);
        assert(files.drop_last()[k] == files[k]);
        let idx = choose|idx: int| 0 <= idx < rest.len() && rest[idx] == files[k];
        assert(with_hash(files, h)[idx] == rest[idx]);
    }
}

/// The first record that has the hash of the record at `k`.
proof fn lemma_first_of(files: Seq<FileInfo>, k: int) -> (i: int)
    requires
        0 <= k < files.len(),
    ensures
        0 <= i <= k,
        first_of_hash(files, i),
        files[i].hash@ == files[k].hash@,
    decreases k,
{
    reveal(first_of_hash);
    if first_of_hash(files, k) {
        k
    } else {
        let m = choose|m: int| 0 <= m < k && files[m].hash@ == files[k].hash@;
        lemma_first_of(files, m)
    }
}

/// A group that holds a record is the group of that record's hash.
pub(crate) proof fn lemma_member_group(files: Seq<FileInfo>, j: int, k: int)
    requires
        0 <= k < files.len(),
        0 <= j < duplicate_groups(files).len(),
        duplicate_groups(files)[j].files.contains(files[k]),
    ensures
        duplicate_groups(files)[j].hash == files[k].hash@,
        duplicate_groups(files)[j].files == with_hash(files, files[k].hash@),
        with_hash(files, files[k].hash@).len() >= 2,
{
    let n = files.len() as int;
    let g = duplicate_groups(files)[j];
    lemma_group_origin(files, n, j);
    let p = choose|p: int| 0 <= p < g.files.len() && g.files[p] == files[k];
    lemma_with_hash_index(files, g.hash, p);
}

/// Group `j` of the duplicate groups of `files` holds the record `f`.
pub open spec fn in_group(files: Seq<FileInfo>, j: int, f: FileInfo) -> bool {
    duplicate_groups(files)[j].files.contains(f)
}

/// A record whose hash no other record has is in no group; a record whose
/// hash another record shares is in exactly one group.
pub proof fn lemma_records_partitioned(files: Seq<FileInfo>, k: int)
    requires
        0 <= k < files.len(),
    ensures
        with_hash(files, files[k].hash@).len() < 2 ==> forall|j: int|
            0 <= j < duplicate_groups(files).len() ==> !#[trigger] in_group(files, j, files[k]),
        with_hash(files, files[k].hash@).len() >= 2 ==> exists|j: int|
            0 <= j < duplicate_groups(files).len() && #[trigger] in_group(files, j, files[k])
                && forall|j2: int|
                0 <= j2 < duplicate_groups(files).len() && #[trigger] in_group(files, j2, files[k])
                    ==> j2 == j,
{
    let n = files.len() as int;
    let dg = duplicate_groups(files);
    let h = files[k].hash@;
    assert forall|j: int| 0 <= j < dg.len() && #[trigger] in_group(files, j, files[k]) implies with_hash(
        files,
        h,
    ).len() >= 2 by {
        lemma_member_group(files, j, k);
    }
    if with_hash(files, h).len() >= 2 {
        let i = lemma_first_of(files, k);
        lemma_group_present(files, n, i);
        let j = choose|j: int| 0 <= j < dg.len() && #[trigger] dg[j] == group_at(files, i);
        lemma_with_hash_has(files, h, k);
        assert forall|j2: int| 0 <= j2 < dg.len() && #[trigger] in_group(files, j2, files[k]) implies j2
            == j by {
            lemma_member_group(files, j2, k);
            if j2 < j {
                lemma_group_hashes_distinct(files, n, j2, j);
            } else if j < j2 {
                lemma_group_hashes_distinct(files, n, j, j2);
            }
        }
        assert(in_group(files, j, files[k]));
    }
}

/// The report is a function of the records alone: scanning an unchanged file
/// set that yields the same records twice gives the same groups and the same
/// totals.
pub proof fn lemma_report_repeatable(first: Seq<FileInfo>, second: Seq<FileInfo>)
    requires
        first == second,
    ensures
        duplicate_groups(first) == duplicate_groups(second),
        wasted_bytes(duplicate_groups(first)) == wasted_bytes(duplicate_groups(second)),
        duplicate_count(duplicate_groups(first)) == duplicate_count(duplicate_groups(second)),
{
}

/// Groups the records by hash and totals what the duplicates hold.
pub fn build_report(files: &Vec<FileInfo>) -> (r: DuplicateReport)
    ensures
        views(r.groups@) == duplicate_groups(files@),
        r.total_wasted_bytes == saturate(wasted_bytes(duplicate_groups(files@)) as int),
        r.total_duplicate_count == saturate(duplicate_count(duplicate_groups(files@)) as int),
        wasted_bytes(duplicate_groups(files@)) <= u64::MAX ==> r.total_wasted_bytes == wasted_bytes(
            duplicate_groups(files@),
        ),
        duplicate_count(duplicate_groups(files@)) <= u64::MAX ==> r.total_duplicate_count
            == duplicate_count(duplicate_groups(files@)),
        r.wf(),
{
    let groups = find_duplicates(files);
    let ghost gs = views(groups@);
    proof {
        assert forall|m: int| 0 <= m < gs.len() implies #[trigger] gs[m].files.len() >= 2 by {
            lemma_group_origin(files@, files@.len() as int, m);
            assert(gs[m] == groups_upto(files@, files@.len() as int)[m]);
        }
    }
    let mut wasted: u64 = 0;
    let mut count: u64 = 0;
    let mut j: usize = 0;
    while j < groups.len()
        invariant
            j <= groups.len(),
            gs == views(groups@),
            gs == duplicate_groups(files@),
            forall|m: int| 0 <= m < gs.len() ==> #[trigger] gs[m].files.len() >= 2,
            wasted == saturate(wasted_bytes(gs.take(j as int)) as int),
            count == saturate(duplicate_count(gs.take(j as int)) as int),
        decreases groups.len() - j,
    {
        assert(gs.take(j + 1).drop_last() =~= gs.take(j as int));
        assert(gs[j as int] == groups[j as int]@);
        proof {
            lemma_saturate_add(wasted_bytes(gs.take(j as int)), size_sum(gs[j as int].files.drop_first()));
            lemma_saturate_add(duplicate_count(gs.take(j as int)), (gs[j as int].files.len() - 1) as nat);
        }
        let w = group_wasted_bytes(&groups[j].files);
        wasted = add_saturating(wasted, w);
        let n = groups[j].files.len() - 1;
        count = add_saturating(count, n as u64);
        j += 1;
    }
    assert(gs.take(groups.len() as int) =~= gs);
    assert forall|m: int| 0 <= m < groups.len() implies #[trigger] groups[m].files.len() >= 2 by {
        assert(gs[m] == groups[m]@);
        assert(gs[m].files.len() >= 2);
    }
    DuplicateReport { groups, total_wasted_bytes: wasted, total_duplicate_count: count }
}

} // verus!
