use vstd::prelude::*;

use crate::grouping::{
    add_saturating, duplicate_groups, groups_upto, in_group, lemma_group_hashes_distinct,
    lemma_group_origin, lemma_member_group, lemma_records_partitioned, lemma_with_hash_has,
    lemma_with_hash_index, opens_group, saturate, views, with_hash, DuplicateReport, GroupView,
};
use crate::record::FileInfo;

verus! {

/// The records that a removal pass deletes: every member of every group but
/// the first, group by group.
pub open spec fn removal_plan(groups: Seq<GroupView>) -> Seq<FileInfo>
    decreases groups.len(),
{
    if groups.len() == 0 {
        Seq::empty()
    } else {
        removal_plan(groups.drop_last()) + groups.last().files.drop_first()
    }
}

/// The records that a removal pass deletes, in order: none without the
/// caller's confirmation, else every member of every group but the first.
pub fn plan_deletion(report: &DuplicateReport, confirmed: bool) -> (r: Vec<FileInfo>)
    requires
        report.wf(),
    ensures
        !confirmed ==> r@.len() == 0,
        confirmed ==> r@ == removal_plan(views(report.groups@)),
{
    let mut plan: Vec<FileInfo> = Vec::new();
    if !confirmed {
        return plan;
    }
    let ghost gs = views(report.groups@);
    let mut j: usize = 0;
    while j < report.groups.len()
        invariant
            j <= report.groups.len(),
            gs == views(report.groups@),
            report.wf(),
            plan@ == removal_plan(gs.take(j as int)),
        decreases report.groups.len() - j,
    {
        let members = &report.groups[j].files;
        assert(report.groups[j as int].files.len() >= 2);
        assert(gs.take(j + 1).drop_last() =~= gs.take(j as int));
        assert(gs[j as int].files == members@);
        let ghost start = plan@;
        let mut k: usize = 1;
        assert(plan@ =~= start + members@.subrange(1, 1));
        while k < members.len()
            invariant
                1 <= k <= members.len(),
                plan@ == start + members@.subrange(1, k as int),
            decreases members.len() - k,
        {
            plan.push(members[k].duplicate());
            assert(plan@ =~= start + members@.subrange(1, k + 1));
            k += 1;
        }
        assert(members@.subrange(1, members.len() as int) =~= members@.drop_first());
        j += 1;
    }
    assert(gs.take(report.groups.len() as int) =~= gs);
    plan
}

/// No two records share a path.
pub open spec fn distinct_paths(files: Seq<FileInfo>) -> bool {
    forall|a: int, b: int|
        0 <= a < files.len() && 0 <= b < files.len() && a != b ==> #[trigger] files[a].path@
            != #[trigger] files[b].path@
}

/// Where a planned record comes from: its group, and its place there, past the first.
proof fn lemma_plan_index(groups: Seq<GroupView>, p: int) -> (jq: (int, int))
    requires
        0 <= p < removal_plan(groups).len(),
        forall|m: int| 0 <= m < groups.len() ==> #[trigger] groups[m].files.len() >= 1,
    ensures
        0 <= jq.0 < groups.len(),
        1 <= jq.1 < groups[jq.0].files.len(),
        removal_plan(groups)[p] == groups[jq.0].files[jq.1],
    decreases groups.len(),
{
    let d = groups.drop_last();
    let prev = removal_plan(d);
    assert(groups.last().files.len() >= 1);
    if p < prev.len() {
        assert forall|m: int| 0 <= m < d.len() implies #[trigger] d[m].files.len() >= 1 by {
            assert(d[m] == groups[m]);
        }
        let r = lemma_plan_index(d, p);
        assert(d[r.0] == groups[r.0]);
        r
    } else {
        (groups.len() - 1, p - prev.len() + 1)
    }
}

/// Records that `with_hash` picks at two places differ, when no two records share a path.
proof fn lemma_with_hash_distinct(files: Seq<FileInfo>, h: Seq<char>, p1: int, p2: int)
    requires
        distinct_paths(files),
        0 <= p1 < p2 < with_hash(files, h).len(),
    ensures
        with_hash(files, h)[p1] != with_hash(files, h)[p2],
    decreases files.len(),
{
    let d = files.drop_last();
    let rest = with_hash(d, h);
    assert forall|a: int, b: int|
        0 <= a < d.len() && 0 <= b < d.len() && a != b implies #[trigger] d[a].path@
        != #[trigger] d[b].path@ by {
        assert(d[a] == files[a] && d[b] == files[b]);
    }
    if p2 < rest.len() {
        lemma_with_hash_distinct(d, h, p1, p2);
    } else {
        lemma_with_hash_index(d, h, p1);
        let idx = choose|idx: int| 0 <= idx < d.len() && d[idx] == rest[p1];
        assert(files[idx] == d[idx]);
        assert(files[idx].path@ != files[files.len() - 1].path@);
    }
}

/// A removal pass never deletes the first member of a group: no record of the
/// plan has the path of a group's first member, when no two records share a
/// path.
pub proof fn lemma_originals_kept(files: Seq<FileInfo>, j: int, p: int)
    requires
        distinct_paths(files),
        0 <= j < duplicate_groups(files).len(),
        0 <= p < removal_plan(duplicate_groups(files)).len(),
    ensures
        removal_plan(duplicate_groups(files))[p].path@ != duplicate_groups(files)[j].files[0].path@,
{
    let n = files.len() as int;
    let dg = duplicate_groups(files);
    assert forall|m: int| 0 <= m < dg.len() implies #[trigger] dg[m].files.len() >= 1 by {
        lemma_group_origin(files, n, m);
    }
    let jq = lemma_plan_index(dg, p);
    let (j2, q) = jq;
    let x = dg[j2].files[q];
    let y = dg[j].files[0];
    lemma_group_origin(files, n, j);
    lemma_group_origin(files, n, j2);
    lemma_with_hash_index(files, dg[j].hash, 0);
    lemma_with_hash_index(files, dg[j2].hash, q);
    if j2 == j {
        lemma_with_hash_distinct(files, dg[j].hash, 0, q);
    } else if j < j2 {
        lemma_group_hashes_distinct(files, n, j, j2);
    } else {
        lemma_group_hashes_distinct(files, n, j2, j);
    }
    assert(x != y);
    let a = choose|a: int| 0 <= a < files.len() && files[a] == x;
    let b = choose|b: int| 0 <= b < files.len() && files[b] == y;
    assert(files[a].path@ != files[b].path@);
}

/// Some record of `plan` has the path `path`.
pub open spec fn plan_has_path(plan: Seq<FileInfo>, path: Seq<char>) -> bool {
    exists|p: int| 0 <= p < plan.len() && #[trigger] plan[p].path@ == path
}

/// The records of `files` whose path no record of `plan` has, in order: what a
/// rescan finds once the files of the plan are gone.
pub open spec fn survivors(files: Seq<FileInfo>, plan: Seq<FileInfo>) -> Seq<FileInfo>
    decreases files.len(),
{
    if files.len() == 0 {
        Seq::empty()
    } else {
        let rest = survivors(files.drop_last(), plan);
        if plan_has_path(plan, files.last().path@) {
            rest
        } else {
            rest.push(files.last())
        }
    }
}

/// A survivor is a record of `files` whose path the plan does not have.
proof fn lemma_survivor(files: Seq<FileInfo>, plan: Seq<FileInfo>, a: int)
    requires
        0 <= a < survivors(files, plan).len(),
    ensures
        files.contains(survivors(files, plan)[a]),
        !plan_has_path(plan, survivors(files, plan)[a].path@),
    decreases files.len(),
{
    let d = files.drop_last();
    let rest = survivors(d, plan);
    if a < rest.len() {
        lemma_survivor(d, plan, a);
        assert(survivors(files, plan)[a] == rest[a]);
        let idx = choose|idx: int| 0 <= idx < d.len() && d[idx] == rest[a];
        assert(files[idx] == d[idx]);
    } else {
        assert(files[files.len() - 1] == survivors(files, plan)[a]);
    }
}

/// Survivors keep distinct paths.
proof fn lemma_survivors_distinct(files: Seq<FileInfo>, plan: Seq<FileInfo>)
    requires
        distinct_paths(files),
    ensures
        distinct_paths(survivors(files, plan)),
    decreases files.len(),
{
    if files.len() > 0 {
        let d = files.drop_last();
        let rest = survivors(d, plan);
        let s = survivors(files, plan);
        assert forall|a: int, b: int|
            0 <= a < d.len() && 0 <= b < d.len() && a != b implies #[trigger] d[a].path@
            != #[trigger] d[b].path@ by {
            assert(d[a] == files[a] && d[b] == files[b]);
        }
        lemma_survivors_distinct(d, plan);
        if !plan_has_path(plan, files.last().path@) {
            assert forall|a: int, b: int|
                0 <= a < s.len() && 0 <= b < s.len() && a != b implies #[trigger] s[a].path@
                != #[trigger] s[b].path@ by {
                if a < rest.len() && b < rest.len() {
                    assert(s[a] == rest[a] && s[b] == rest[b]);
                } else if a < rest.len() {
                    lemma_survivor(d, plan, a);
                    let idx = choose|idx: int| 0 <= idx < d.len() && d[idx] == rest[a];
                    assert(files[idx] == d[idx]);
                    assert(s[a] == rest[a]);
                } else {
                    lemma_survivor(d, plan, b);
                    let idx = choose|idx: int| 0 <= idx < d.len() && d[idx] == rest[b];
                    assert(files[idx] == d[idx]);
                    assert(s[b] == rest[b]);
                }
            }
        }
    }
}

/// Every member of a group past the first is in the plan.
proof fn lemma_plan_has_member(groups: Seq<GroupView>, j: int, q: int)
    requires
        0 <= j < groups.len(),
        1 <= q < groups[j].files.len(),
    ensures
        removal_plan(groups).contains(groups[j].files[q]),
    decreases groups.len(),
{
    let d = groups.drop_last();
    let prev = removal_plan(d);
    let tail = groups.last().files.drop_first();
    if j < groups.len() - 1 {
        assert(d[j] == groups[j]);
        lemma_plan_has_member(d, j, q);
        let p = choose|p: int| 0 <= p < prev.len() && prev[p] == groups[j].files[q];
        assert(removal_plan(groups)[p] == prev[p]);
    } else {
        assert(removal_plan(groups)[prev.len() + q - 1] == tail[q - 1]);
    }
}

/// No group forms over records that all have distinct hashes.
proof fn lemma_no_groups(s: Seq<FileInfo>, n: int)
    requires
        0 <= n <= s.len(),
        distinct_paths(s),
        forall|a: int, b: int|
            0 <= a < s.len() && 0 <= b < s.len() && a != b ==> #[trigger] s[a].hash@
                != #[trigger] s[b].hash@,
    ensures
        groups_upto(s, n).len() == 0,
    decreases n,
{
    if n > 0 {
        lemma_no_groups(s, n - 1);
        let h = s[n - 1].hash@;
        let w = with_hash(s, h);
        if w.len() >= 2 {
            lemma_with_hash_distinct(s, h, 0, 1);
            lemma_with_hash_index(s, h, 0);
            lemma_with_hash_index(s, h, 1);
            let a = choose|a: int| 0 <= a < s.len() && s[a] == w[0];
            let b = choose|b: int| 0 <= b < s.len() && s[b] == w[1];
            assert(s[a].hash@ == s[b].hash@);
        }
        assert(!opens_group(s, n - 1));
    }
}

/// Removing every planned file and scanning again finds no duplicates, when
/// no two records share a path.
pub proof fn lemma_rescan_finds_none(files: Seq<FileInfo>)
    requires
        distinct_paths(files),
    ensures
        duplicate_groups(survivors(files, removal_plan(duplicate_groups(files)))).len() == 0,
{
    let dg = duplicate_groups(files);
    let plan = removal_plan(dg);
    let s = survivors(files, plan);
    lemma_survivors_distinct(files, plan);
    assert forall|a: int, b: int|
        0 <= a < s.len() && 0 <= b < s.len() && a != b implies #[trigger] s[a].hash@
        != #[trigger] s[b].hash@ by {
        if s[a].hash@ == s[b].hash@ {
            let h = s[a].hash@;
            lemma_survivor(files, plan, a);
            lemma_survivor(files, plan, b);
            let ka = choose|ka: int| 0 <= ka < files.len() && files[ka] == s[a];
            let kb = choose|kb: int| 0 <= kb < files.len() && files[kb] == s[b];
            assert(s[a].path@ != s[b].path@);
            lemma_with_hash_has(files, h, ka);
            lemma_with_hash_has(files, h, kb);
            let w = with_hash(files, h);
            let pa = choose|pa: int| 0 <= pa < w.len() && w[pa] == files[ka];
            let pb = choose|pb: int| 0 <= pb < w.len() && w[pb] == files[kb];
            assert(pa != pb);
            lemma_records_partitioned(files, ka);
            let j = choose|j: int| 0 <= j < dg.len() && #[trigger] in_group(files, j, files[ka]);
            lemma_member_group(files, j, ka);
            let q = if pa >= 1 { pa } else { pb };
            lemma_plan_has_member(dg, j, q);
            let p = choose|p: int| 0 <= p < plan.len() && plan[p] == w[q];
            assert(plan[p].path@ == w[q].path@);
        }
    }
    lemma_no_groups(s, s.len() as int);
}

/// What a removal pass did: how many files it removed, the bytes they held
/// (both saturating at the largest `u64`), and each failure with its reason.
#[derive(Debug)]
pub struct DeletionOutcome {
    pub deleted_count: u64,
    pub freed_bytes: u64,
    pub failures: Vec<(String, String)>,
}

impl DeletionOutcome {
    /// The outcome of a pass that has done nothing yet.
    pub fn new() -> (r: DeletionOutcome)
        ensures
            r.deleted_count == 0,
            r.freed_bytes == 0,
            r.failures@.len() == 0,
    {
        DeletionOutcome { deleted_count: 0, freed_bytes: 0, failures: Vec::new() }
    }

    /// Takes in the result of removing `file`: a removal counts the file and
    /// its bytes; a failure is kept with its reason, and the pass goes on.
    pub fn record(&mut self, file: &FileInfo, result: Result<(), String>)
        ensures
            result is Ok ==> final(self).deleted_count == saturate(old(self).deleted_count + 1)
                && final(self).freed_bytes == saturate(old(self).freed_bytes + file.size)
                && final(self).failures@ == old(self).failures@,
            result is Err ==> final(self).deleted_count == old(self).deleted_count
                && final(self).freed_bytes == old(self).freed_bytes && final(self).failures@
                == old(self).failures@.push((file.path, result->Err_0)),
    {
        match result {
            Ok(()) => {
                self.deleted_count = add_saturating(self.deleted_count, 1);
                self.freed_bytes = add_saturating(self.freed_bytes, file.size);
            },
            Err(reason) => {
                self.failures.push((file.path.clone(), reason));
            },
        }
    }
}

} // verus!
