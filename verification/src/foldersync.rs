//! Folder groups: what syncing and unsyncing decide for each entry of a group, and the
//! report they produce.
use vstd::prelude::*;
use crate::config::ServerEntry;
use crate::file_utils::managed_link;
use crate::paths::{lemma_join_all_under, path_join_all, plain_name};
use crate::text::{decimal, owned, push_str, str_eq, string_views, u32_to_decimal};

pub use crate::config::{FolderLinks, LinkMode};

verus! {

/// What a sync or unsync call did.
pub struct SyncReport {
    /// Entries placed into a server.
    pub synced: u32,
    /// Entries left alone because the server has its own file of that name.
    pub overridden: u32,
    /// Entries that could not be placed, with the reason.
    pub errors: Vec<String>,
}

impl Default for SyncReport {
    fn default() -> (res: Self)
        ensures
            res.synced == 0,
            res.overridden == 0,
            res.errors@.len() == 0,
    {
        SyncReport { synced: 0, overridden: 0, errors: Vec::new() }
    }
}

/// How many sync steps a report accounts for: synced, overridden and failed entries.
pub open spec fn report_total(r: SyncReport) -> int {
    r.synced + r.overridden + r.errors@.len()
}

/// The one-line summary of a report.
pub open spec fn report_summary(synced: u32, overridden: u32) -> Seq<char> {
    decimal(synced as nat) + " synced, "@ + decimal(overridden as nat) + " overridden"@
}

/// How many of the first `n` steps count as synced: placements that did not fail.
pub open spec fn count_synced(steps: Seq<(SyncKind, Seq<Seq<char>>)>, failures: Seq<Option<String>>, n: nat) -> nat
    decreases n,
{
    if n == 0 {
        0
    } else {
        count_synced(steps, failures, (n - 1) as nat) + if steps[n - 1].0 is Place && failures[n - 1] is None {
            1nat
        } else {
            0nat
        }
    }
}

/// How many of the first `n` steps keep the server's own entry.
pub open spec fn count_kept(steps: Seq<(SyncKind, Seq<Seq<char>>)>, n: nat) -> nat
    decreases n,
{
    if n == 0 {
        0
    } else {
        count_kept(steps, (n - 1) as nat) + if steps[n - 1].0 == SyncKind::Keep {
            1nat
        } else {
            0nat
        }
    }
}

/// The messages of the failed placements among the first `n` steps, in order.
pub open spec fn failed_messages(steps: Seq<(SyncKind, Seq<Seq<char>>)>, failures: Seq<Option<String>>, n: nat) -> Seq<Seq<char>>
    decreases n,
{
    if n == 0 {
        Seq::empty()
    } else {
        let rest = failed_messages(steps, failures, (n - 1) as nat);
        if steps[n - 1].0 is Place && failures[n - 1] is Some {
            rest.push(failures[n - 1]->Some_0@)
        } else {
            rest
        }
    }
}

/// The counts of the first steps are no more than those of more steps.
proof fn lemma_counts_grow(steps: Seq<(SyncKind, Seq<Seq<char>>)>, failures: Seq<Option<String>>, i: nat, n: nat)
    requires
        i <= n,
    ensures
        count_synced(steps, failures, i) <= count_synced(steps, failures, n),
        count_kept(steps, i) <= count_kept(steps, n),
    decreases n,
{
    if i < n {
        lemma_counts_grow(steps, failures, i, (n - 1) as nat);
    }
}

impl SyncReport {
    /// The one-line summary: how many entries were synced and how many overridden.
    pub fn to_string(&self) -> (res: String)
        ensures
            res@ == report_summary(self.synced, self.overridden),
    {
        let mut s = u32_to_decimal(self.synced);
        push_str(&mut s, " synced, ");
        let o = u32_to_decimal(self.overridden);
        push_str(&mut s, o.as_str());
        push_str(&mut s, " overridden");
        s
    }

    /// Records the outcomes of the steps of syncing into one server, `failures[k]` being the
    /// message of step `k` when placing it failed. Returns false, and records nothing, when a
    /// count would pass `u32::MAX`.
    pub fn record_steps(&mut self, steps: &Vec<SyncStep>, failures: &Vec<Option<String>>) -> (recorded: bool)
        requires
            steps@.len() == failures@.len(),
        ensures
            recorded == (old(self).synced + count_synced(sync_views(steps@), failures@, steps@.len()) <= u32::MAX
                && old(self).overridden + count_kept(sync_views(steps@), steps@.len()) <= u32::MAX),
            recorded ==> final(self).synced == old(self).synced + count_synced(sync_views(steps@), failures@, steps@.len()),
            recorded ==> final(self).overridden == old(self).overridden + count_kept(sync_views(steps@), steps@.len()),
            recorded ==> string_views(final(self).errors@) == string_views(old(self).errors@) + failed_messages(
                sync_views(steps@),
                failures@,
                steps@.len(),
            ),
            !recorded ==> final(self).synced == old(self).synced && final(self).overridden == old(self).overridden
                && final(self).errors@ == old(self).errors@,
    {
        let n = steps.len();
        let ghost v = sync_views(steps@);
        let mut ns: u64 = 0;
        let mut nk: u64 = 0;
        for i in 0..n
            invariant
                n == steps@.len(),
                n == failures@.len(),
                v == sync_views(steps@),
                ns == count_synced(v, failures@, i as nat),
                nk == count_kept(v, i as nat),
                ns <= i,
                nk <= i,
        {
            assert(v[i as int].0 == steps@[i as int].kind);
            match steps[i].kind {
                SyncKind::Place(_) => {
                    if failures[i].is_none() {
                        ns = ns + 1;
                    }
                },
                SyncKind::Keep => {
                    nk = nk + 1;
                },
                SyncKind::Unlistable => {},
            }
        }
        if ns > 0xffff_ffffu64 - self.synced as u64 || nk > 0xffff_ffffu64 - self.overridden as u64 {
            return false;
        }
        let ghost s0 = self.synced;
        let ghost o0 = self.overridden;
        let ghost e0 = string_views(self.errors@);
        for i in 0..n
            invariant
                n == steps@.len(),
                n == failures@.len(),
                v == sync_views(steps@),
                s0 + count_synced(v, failures@, n as nat) <= u32::MAX,
                o0 + count_kept(v, n as nat) <= u32::MAX,
                self.synced == s0 + count_synced(v, failures@, i as nat),
                self.overridden == o0 + count_kept(v, i as nat),
                string_views(self.errors@) == e0 + failed_messages(v, failures@, i as nat),
        {
            assert(v[i as int].0 == steps@[i as int].kind);
            proof {
                lemma_counts_grow(v, failures@, (i + 1) as nat, n as nat);
            }
            let failure = match &failures[i] {
                Some(m) => Some(owned(m.as_str())),
                None => None,
            };
            let ghost before = self.errors@;
            self.record_step(steps[i].kind, failure);
            proof {
                if steps@[i as int].kind is Place && failures@[i as int] is Some {
                    assert(string_views(self.errors@) =~= string_views(before).push(failures@[i as int]->Some_0@));
                }
            }
        }
        true
    }

    /// Records the outcome of one sync step: a kept entry counts as overridden; a placed
    /// entry counts as synced, or, when placing it failed (`failure`), its message is kept
    /// among the errors; an unlistable step is not counted, since syncing stops there with
    /// an error. Every counted step adds exactly one to the report's total.
    pub fn record_step(&mut self, kind: SyncKind, failure: Option<String>)
        requires
            kind == SyncKind::Keep ==> old(self).overridden < u32::MAX,
            (kind matches SyncKind::Place(_) && failure is None) ==> old(self).synced < u32::MAX,
        ensures
            match kind {
                SyncKind::Keep => {
                    &&& final(self).overridden == old(self).overridden + 1
                    &&& final(self).synced == old(self).synced
                    &&& final(self).errors@ == old(self).errors@
                },
                SyncKind::Place(_) => match failure {
                    None => {
                        &&& final(self).synced == old(self).synced + 1
                        &&& final(self).overridden == old(self).overridden
                        &&& final(self).errors@ == old(self).errors@
                    },
                    Some(m) => {
                        &&& final(self).errors@ == old(self).errors@.push(m)
                        &&& final(self).synced == old(self).synced
                        &&& final(self).overridden == old(self).overridden
                    },
                },
                SyncKind::Unlistable => {
                    &&& final(self).synced == old(self).synced
                    &&& final(self).overridden == old(self).overridden
                    &&& final(self).errors@ == old(self).errors@
                },
            },
            kind != SyncKind::Unlistable ==> report_total(*final(self)) == report_total(*old(self)) + 1,
    {
        match kind {
            SyncKind::Keep => {
                self.overridden = self.overridden + 1;
            },
            SyncKind::Place(_) => match failure {
                None => {
                    self.synced = self.synced + 1;
                },
                Some(m) => {
                    self.errors.push(m);
                },
            },
            SyncKind::Unlistable => {},
        }
    }
}

/// What is found at the place in a server where a group entry belongs.
pub struct TargetState {
    /// Something is there (following links).
    pub exists: bool,
    /// It is a directory (following links).
    pub is_dir: bool,
    /// It is a symbolic link.
    pub is_symlink: bool,
    /// Where the link points, when it is one and could be read.
    pub link_target: Option<String>,
}

/// Whether the target is a link into the group's source directory.
pub open spec fn target_managed(t: TargetState, group_src: Seq<char>) -> bool {
    managed_link(
        t.is_symlink,
        match t.link_target {
            Some(l) => Some(l@),
            None => None,
        },
        group_src,
    )
}

/// What syncing does with one group entry.
#[derive(Debug, Clone, Copy, PartialEq, Eq, Structural)]
pub enum SyncAction {
    /// The server has a real directory there: sync the entry's contents into it.
    Descend,
    /// The server has its own file there: leave it and count it as overridden.
    Keep,
    /// Place the entry there (as link or copy), first removing the old managed link when
    /// `remove_link` holds.
    Place { remove_link: bool },
}

/// What syncing does with a group entry, given what the server has in its place.
pub open spec fn sync_decision(t: TargetState, group_src: Seq<char>) -> SyncAction {
    if t.is_dir && !t.is_symlink {
        SyncAction::Descend
    } else if (t.exists || t.is_symlink) && !target_managed(t, group_src) {
        SyncAction::Keep
    } else {
        SyncAction::Place { remove_link: t.is_symlink }
    }
}

fn is_target_managed(t: &TargetState, group_src: &str) -> (res: bool)
    ensures
        res == target_managed(*t, group_src@),
{
    let link = match &t.link_target {
        Some(l) => Some(l.as_str()),
        None => None,
    };
    crate::file_utils::is_managed_symlink(t.is_symlink, link, group_src)
}

/// What syncing does with a group entry: descend into a real directory, keep anything the
/// server has of its own, and otherwise place the entry (replacing an old managed link).
/// Nothing of the server's own is ever replaced.
pub fn sync_entry_action(target: &TargetState, group_src: &str) -> (res: SyncAction)
    ensures
        res == sync_decision(*target, group_src@),
        res matches SyncAction::Place { remove_link } ==> (!target.exists && !target.is_symlink)
            || target_managed(*target, group_src@),
        res matches SyncAction::Place { remove_link } ==> (remove_link ==> target_managed(*target, group_src@)),
{
    if target.is_dir && !target.is_symlink {
        return SyncAction::Descend;
    }
    let managed = is_target_managed(target, group_src);
    if (target.exists || target.is_symlink) && !managed {
        SyncAction::Keep
    } else {
        SyncAction::Place { remove_link: target.is_symlink }
    }
}

/// What unsyncing does with one group entry.
#[derive(Debug, Clone, Copy, PartialEq, Eq, Structural)]
pub enum UnsyncAction {
    /// Both are real directories: unsync the entry's contents from it.
    Descend,
    /// The server has a managed link there: remove it.
    Remove,
    /// Leave whatever the server has there.
    Leave,
}

/// What unsyncing does with a group entry, given whether the entry is a directory and what
/// the server has in its place.
pub open spec fn unsync_decision(entry_is_dir: bool, t: TargetState, group_src: Seq<char>) -> UnsyncAction {
    if entry_is_dir && t.is_dir && !t.is_symlink {
        UnsyncAction::Descend
    } else if target_managed(t, group_src) {
        UnsyncAction::Remove
    } else {
        UnsyncAction::Leave
    }
}

/// A link that syncing places, pointing into the group's source along the step's path
/// (names without a separator), is what unsyncing removes and what a later sync replaces.
pub proof fn lemma_placed_link_is_managed(entry_is_dir: bool, t: TargetState, group_src: Seq<char>, names: Seq<Seq<char>>)
    requires
        forall|k: int| 0 <= k < names.len() ==> plain_name(#[trigger] names[k]),
        t.is_symlink,
        t.link_target matches Some(l) && l@ == path_join_all(group_src, names),
    ensures
        target_managed(t, group_src),
        unsync_decision(entry_is_dir, t, group_src) == UnsyncAction::Remove,
        sync_decision(t, group_src) == (SyncAction::Place { remove_link: true }),
{
    lemma_join_all_under(group_src, names);
}

/// What unsyncing does with a group entry: descend into real directories, remove managed
/// links, leave everything else. Only links into the group's source are ever removed.
pub fn unsync_entry_action(entry_is_dir: bool, target: &TargetState, group_src: &str) -> (res: UnsyncAction)
    ensures
        res == unsync_decision(entry_is_dir, *target, group_src@),
        res == UnsyncAction::Remove ==> target.is_symlink && target_managed(*target, group_src@),
{
    if entry_is_dir && target.is_dir && !target.is_symlink {
        UnsyncAction::Descend
    } else if is_target_managed(target, group_src) {
        UnsyncAction::Remove
    } else {
        UnsyncAction::Leave
    }
}

/// An entry of a folder group as found on disk, with what a server has at the same place.
pub struct GroupEntry {
    pub name: String,
    /// The entry is a directory.
    pub is_dir: bool,
    /// The entries inside it could be listed (always false for a file).
    pub listed: bool,
    /// What the server has at the corresponding place.
    pub target: TargetState,
    /// The entries inside it, when it is a directory that could be listed.
    pub children: Vec<GroupEntry>,
}

/// One thing unsyncing does, at a path relative to the group (and the server) directory.
pub enum UnsyncStep {
    /// Remove the managed link there.
    Remove(Vec<String>),
    /// The group directory there could not be listed: unsyncing stops with an error.
    Unlistable(Vec<String>),
}

/// The view of an unsync step: whether it removes, and the path as names.
pub open spec fn unsync_step_view(s: UnsyncStep) -> (bool, Seq<Seq<char>>) {
    match s {
        UnsyncStep::Remove(p) => (true, string_views(p@)),
        UnsyncStep::Unlistable(p) => (false, string_views(p@)),
    }
}

/// The steps put under a directory named `name`.
pub open spec fn under<A>(name: Seq<char>, steps: Seq<(A, Seq<Seq<char>>)>) -> Seq<(A, Seq<Seq<char>>)> {
    steps.map_values(|s: (A, Seq<Seq<char>>)| (s.0, seq![name] + s.1))
}

/// What unsyncing a group from one server does, in the order of the walk: every managed
/// link the server has where the group has an entry is removed, descending wherever both
/// have a real directory.
pub open spec fn unsync_steps(entries: Seq<GroupEntry>, group_src: Seq<char>) -> Seq<(bool, Seq<Seq<char>>)>
    decreases entries,
{
    if entries.len() == 0 {
        Seq::empty()
    } else {
        let rest = unsync_steps(entries.drop_last(), group_src);
        let e = entries.last();
        match unsync_decision(e.is_dir, e.target, group_src) {
            UnsyncAction::Descend => if e.listed {
                rest + under(e.name@, unsync_steps(e.children@, group_src))
            } else {
                rest.push((false, seq![e.name@]))
            },
            UnsyncAction::Remove => rest.push((true, seq![e.name@])),
            UnsyncAction::Leave => rest,
        }
    }
}

/// The entry a relative path leads to through the group tree.
pub open spec fn leads_to(entries: Seq<GroupEntry>, path: Seq<Seq<char>>, e: GroupEntry) -> bool
    decreases path.len(),
{
    path.len() > 0 && exists|i: int| 0 <= i < entries.len() && #[trigger] entries[i].name@ == path[0] && if path.len() == 1 {
        entries[i] == e
    } else {
        leads_to(entries[i].children@, path.drop_first(), e)
    }
}

/// Every link unsyncing removes is a managed one: the path leads to a group entry whose
/// server counterpart is a symbolic link into the group's source.
pub proof fn lemma_unsync_removes_managed(entries: Seq<GroupEntry>, group_src: Seq<char>)
    ensures
        forall|k: int|
            0 <= k < unsync_steps(entries, group_src).len() && (#[trigger] unsync_steps(entries, group_src)[k]).0 ==> exists|e: GroupEntry|
                leads_to(entries, unsync_steps(entries, group_src)[k].1, e) && e.target.is_symlink && target_managed(e.target, group_src),
    decreases entries,
{
    if entries.len() > 0 {
        let rest_entries = entries.drop_last();
        let e = entries.last();
        let last = entries.len() - 1;
        lemma_unsync_removes_managed(rest_entries, group_src);
        let rest = unsync_steps(rest_entries, group_src);
        let all = unsync_steps(entries, group_src);
        assert forall|k: int| 0 <= k < all.len() && (#[trigger] all[k]).0 implies exists|x: GroupEntry|
            leads_to(entries, all[k].1, x) && x.target.is_symlink && target_managed(x.target, group_src) by {
            if k < rest.len() {
                assert(all[k] == rest[k]);
                let x = choose|x: GroupEntry| leads_to(rest_entries, rest[k].1, x) && x.target.is_symlink && target_managed(x.target, group_src);
                lemma_leads_to_extend(rest_entries, entries, rest[k].1, x);
                assert(leads_to(entries, all[k].1, x));
            } else {
                match unsync_decision(e.is_dir, e.target, group_src) {
                    UnsyncAction::Descend => {
                        if e.listed {
                            let sub = unsync_steps(e.children@, group_src);
                            lemma_unsync_removes_managed(e.children@, group_src);
                            let j = k - rest.len();
                            assert(all[k] == under(e.name@, sub)[j]);
                            assert(sub[j].0);
                            let x = choose|x: GroupEntry| leads_to(e.children@, sub[j].1, x) && x.target.is_symlink && target_managed(x.target, group_src);
                            let p = seq![e.name@] + sub[j].1;
                            assert(under(e.name@, sub)[j] == (sub[j].0, p));
                            assert(p.drop_first() =~= sub[j].1);
                            assert(entries[last].name@ == p[0]);
                            assert(p.len() > 1 ==> leads_to(entries[last].children@, p.drop_first(), x));
                            assert(p.len() == 1 ==> false) by {
                                assert(sub[j].1.len() > 0);
                            }
                            assert(leads_to(entries, p, x));
                            assert(all[k].1 == p);
                        }
                    },
                    UnsyncAction::Remove => {
                        let p = seq![e.name@];
                        assert(entries[last].name@ == p[0]);
                        assert(leads_to(entries, p, e));
                        assert(all[k].1 == p);
                        assert(e.target.is_symlink);
                    },
                    UnsyncAction::Leave => {},
                }
            }
        }
    }
}

/// A path that leads to an entry among some entries still does among more entries that
/// start with them.
proof fn lemma_leads_to_extend(a: Seq<GroupEntry>, b: Seq<GroupEntry>, path: Seq<Seq<char>>, e: GroupEntry)
    requires
        leads_to(a, path, e),
        a.len() <= b.len(),
        forall|i: int| 0 <= i < a.len() ==> a[i] == b[i],
    ensures
        leads_to(b, path, e),
{
    let i = choose|i: int| 0 <= i < a.len() && #[trigger] a[i].name@ == path[0] && if path.len() == 1 {
        a[i] == e
    } else {
        leads_to(a[i].children@, path.drop_first(), e)
    };
    assert(b[i] == a[i]);
}

/// The views of unsync steps.
pub open spec fn unsync_views(v: Seq<UnsyncStep>) -> Seq<(bool, Seq<Seq<char>>)> {
    v.map_values(|s: UnsyncStep| unsync_step_view(s))
}

/// A path with a leading name.
fn prefixed(name: &String, path: &Vec<String>) -> (res: Vec<String>)
    ensures
        string_views(res@) == seq![name@] + string_views(path@),
{
    let mut res: Vec<String> = Vec::new();
    res.push(name.clone());
    let n = path.len();
    for i in 0..n
        invariant
            n == path@.len(),
            string_views(res@) == seq![name@] + string_views(path@).take(i as int),
    {
        let x = path[i].clone();
        proof {
            assert(string_views(res@.push(x)) =~= string_views(res@).push(x@));
            assert(string_views(path@).take(i + 1) =~= string_views(path@).take(i as int).push(path@[i as int]@));
        }
        res.push(x);
    }
    assert(string_views(path@).take(n as int) =~= string_views(path@));
    res
}

/// What unsyncing a group from one server does, in walk order: the managed links to
/// remove, and where a group directory could not be listed. `entries` are the entries of
/// the group directory, each with what the server has at the same place.
pub fn unsync(entries: &Vec<GroupEntry>, group_src: &str) -> (res: Vec<UnsyncStep>)
    ensures
        unsync_views(res@) == unsync_steps(entries@, group_src@),
        forall|k: int|
            0 <= k < res@.len() && (#[trigger] unsync_views(res@)[k]).0 ==> exists|e: GroupEntry|
                leads_to(entries@, unsync_views(res@)[k].1, e) && e.target.is_symlink && target_managed(e.target, group_src@),
    decreases entries@,
{
    let mut res: Vec<UnsyncStep> = Vec::new();
    let n = entries.len();
    for i in 0..n
        invariant
            n == entries@.len(),
            unsync_views(res@) == unsync_steps(entries@.take(i as int), group_src@),
    {
        let e = &entries[i];
        proof {
            assert(decreases_to!(entries@ => entries@[i as int]));
            assert(entries@.take(i + 1).drop_last() =~= entries@.take(i as int));
            assert(entries@.take(i + 1).last() == entries@[i as int]);
        }
        let ghost before = res@;
        match unsync_entry_action(e.is_dir, &e.target, group_src) {
            UnsyncAction::Descend => {
                if e.listed {
                    let sub = unsync(&e.children, group_src);
                    let ghost subv = unsync_views(sub@);
                    let m = sub.len();
                    for j in 0..m
                        invariant
                            m == sub@.len(),
                            subv == unsync_views(sub@),
                            unsync_views(res@) == unsync_views(before) + under(e.name@, subv.take(j as int)),
                    {
                        let step = match &sub[j] {
                            UnsyncStep::Remove(p) => UnsyncStep::Remove(prefixed(&e.name, p)),
                            UnsyncStep::Unlistable(p) => UnsyncStep::Unlistable(prefixed(&e.name, p)),
                        };
                        proof {
                            assert(unsync_views(res@.push(step)) =~= unsync_views(res@).push(unsync_step_view(step)));
                            assert(subv.take(j + 1) =~= subv.take(j as int).push(subv[j as int]));
                            assert(under(e.name@, subv.take(j + 1)) =~= under(e.name@, subv.take(j as int)).push(
                                (subv[j as int].0, seq![e.name@] + subv[j as int].1),
                            ));
                        }
                        res.push(step);
                    }
                    assert(subv.take(m as int) =~= subv);
                } else {
                    let mut p: Vec<String> = Vec::new();
                    p.push(e.name.clone());
                    let step = UnsyncStep::Unlistable(p);
                    proof {
                        assert(string_views(p@) =~= seq![e.name@]);
                        assert(unsync_views(res@.push(step)) =~= unsync_views(res@).push(unsync_step_view(step)));
                    }
                    res.push(step);
                }
            },
            UnsyncAction::Remove => {
                let mut p: Vec<String> = Vec::new();
                p.push(e.name.clone());
                let step = UnsyncStep::Remove(p);
                proof {
                    assert(string_views(p@) =~= seq![e.name@]);
                    assert(unsync_views(res@.push(step)) =~= unsync_views(res@).push(unsync_step_view(step)));
                }
                res.push(step);
            },
            UnsyncAction::Leave => {},
        }
    }
    assert(entries@.take(n as int) =~= entries@);
    proof {
        lemma_unsync_removes_managed(entries@, group_src@);
    }
    res
}

/// What a sync step does.
#[derive(Debug, Clone, Copy, PartialEq, Eq, Structural)]
pub enum SyncKind {
    /// The server has its own entry there: it is kept and counted as overridden.
    Keep,
    /// The group entry is placed there, after removing the old managed link when the flag
    /// holds.
    Place(bool),
    /// The group directory there could not be listed: syncing stops with an error.
    Unlistable,
}

/// One thing syncing does, at a path relative to the group (and the server) directory.
pub struct SyncStep {
    pub kind: SyncKind,
    pub path: Vec<String>,
}

/// The view of a sync step.
pub open spec fn sync_step_view(s: SyncStep) -> (SyncKind, Seq<Seq<char>>) {
    (s.kind, string_views(s.path@))
}

/// The views of sync steps.
pub open spec fn sync_views(v: Seq<SyncStep>) -> Seq<(SyncKind, Seq<Seq<char>>)> {
    v.map_values(|s: SyncStep| sync_step_view(s))
}

/// What syncing a group into one server does, in the order of the walk: where the server
/// has a real directory the group's entries are synced into it, where it has its own entry
/// that entry is kept, and elsewhere the group's entry is placed.
pub open spec fn sync_steps(entries: Seq<GroupEntry>, group_src: Seq<char>) -> Seq<(SyncKind, Seq<Seq<char>>)>
    decreases entries,
{
    if entries.len() == 0 {
        Seq::empty()
    } else {
        let rest = sync_steps(entries.drop_last(), group_src);
        let e = entries.last();
        match sync_decision(e.target, group_src) {
            SyncAction::Descend => if e.listed {
                rest + under(e.name@, sync_steps(e.children@, group_src))
            } else {
                rest.push((SyncKind::Unlistable, seq![e.name@]))
            },
            SyncAction::Keep => rest.push((SyncKind::Keep, seq![e.name@])),
            SyncAction::Place { remove_link } => rest.push((SyncKind::Place(remove_link), seq![e.name@])),
        }
    }
}

/// Whether a sync step is sound for the server entry it is taken on: a placement only
/// where the server has nothing, or a managed link (which alone is removed), and a kept
/// entry only where the server has its own.
pub open spec fn sync_step_sound(kind: SyncKind, t: TargetState, group_src: Seq<char>) -> bool {
    match kind {
        SyncKind::Place(remove_link) => ((!t.exists && !t.is_symlink) || target_managed(t, group_src)) && (
        remove_link ==> target_managed(t, group_src)),
        SyncKind::Keep => (t.exists || t.is_symlink) && !target_managed(t, group_src),
        SyncKind::Unlistable => true,
    }
}

/// The step's path leads to a group entry for whose server counterpart the step is sound.
pub open spec fn step_sound_at(entries: Seq<GroupEntry>, step: (SyncKind, Seq<Seq<char>>), group_src: Seq<char>) -> bool {
    exists|e: GroupEntry| leads_to(entries, step.1, e) && sync_step_sound(step.0, e.target, group_src)
}

/// Syncing never replaces anything of the server's own: every step leads to a group entry
/// for whose server counterpart the step is sound.
pub proof fn lemma_sync_keeps_server_files(entries: Seq<GroupEntry>, group_src: Seq<char>)
    ensures
        forall|k: int|
            0 <= k < sync_steps(entries, group_src).len() ==> step_sound_at(entries, #[trigger] sync_steps(entries, group_src)[k], group_src),
    decreases entries,
{
    if entries.len() > 0 {
        let rest_entries = entries.drop_last();
        let e = entries.last();
        let last = entries.len() - 1;
        lemma_sync_keeps_server_files(rest_entries, group_src);
        let rest = sync_steps(rest_entries, group_src);
        let all = sync_steps(entries, group_src);
        assert forall|k: int| 0 <= k < all.len() implies step_sound_at(entries, #[trigger] all[k], group_src) by {
            if k < rest.len() {
                assert(all[k] == rest[k]);
                assert(step_sound_at(rest_entries, rest[k], group_src));
                let x = choose|x: GroupEntry| leads_to(rest_entries, rest[k].1, x) && sync_step_sound(rest[k].0, x.target, group_src);
                lemma_leads_to_extend(rest_entries, entries, rest[k].1, x);
                assert(leads_to(entries, all[k].1, x) && sync_step_sound(all[k].0, x.target, group_src));
            } else {
                let p = seq![e.name@];
                assert(entries[last].name@ == p[0]);
                match sync_decision(e.target, group_src) {
                    SyncAction::Descend => {
                        if e.listed {
                            let sub = sync_steps(e.children@, group_src);
                            lemma_sync_keeps_server_files(e.children@, group_src);
                            let j = k - rest.len();
                            assert(all[k] == under(e.name@, sub)[j]);
                            assert(step_sound_at(e.children@, sub[j], group_src));
                            let x = choose|x: GroupEntry| leads_to(e.children@, sub[j].1, x) && sync_step_sound(sub[j].0, x.target, group_src);
                            let q = seq![e.name@] + sub[j].1;
                            assert(under(e.name@, sub)[j] == (sub[j].0, q));
                            assert(q.drop_first() =~= sub[j].1);
                            assert(entries[last].name@ == q[0]);
                            assert(sub[j].1.len() > 0);
                            assert(leads_to(entries, q, x));
                            assert(all[k].1 == q);
                            assert(all[k].0 == sub[j].0);
                            assert(leads_to(entries, all[k].1, x) && sync_step_sound(all[k].0, x.target, group_src));
                        } else {
                            assert(leads_to(entries, p, e));
                            assert(all[k] == (SyncKind::Unlistable, p));
                            assert(leads_to(entries, all[k].1, e) && sync_step_sound(all[k].0, e.target, group_src));
                        }
                    },
                    SyncAction::Keep => {
                        assert(leads_to(entries, p, e));
                        assert(all[k] == (SyncKind::Keep, p));
                        assert(leads_to(entries, all[k].1, e) && sync_step_sound(all[k].0, e.target, group_src));
                    },
                    SyncAction::Place { remove_link } => {
                        assert(leads_to(entries, p, e));
                        assert(all[k] == (SyncKind::Place(remove_link), p));
                        assert(leads_to(entries, all[k].1, e) && sync_step_sound(all[k].0, e.target, group_src));
                    },
                }
            }
        }
    } else {
        assert(sync_steps(entries, group_src).len() == 0);
    }
}

fn single_step(kind: SyncKind, name: &String) -> (res: SyncStep)
    ensures
        sync_step_view(res) == (kind, seq![name@]),
{
    let mut p: Vec<String> = Vec::new();
    p.push(name.clone());
    assert(string_views(p@) =~= seq![name@]);
    SyncStep { kind, path: p }
}

/// What syncing a group into one server does, in walk order: the server entries kept as
/// the server's own, the places where a group entry goes (replacing only a managed link),
/// and where a group directory could not be listed. `entries` are the entries of the group
/// directory, each with what the server has at the same place. Nothing of the server's own
/// is ever replaced.
pub fn sync(entries: &Vec<GroupEntry>, group_src: &str) -> (res: Vec<SyncStep>)
    ensures
        sync_views(res@) == sync_steps(entries@, group_src@),
        forall|k: int| 0 <= k < res@.len() ==> step_sound_at(entries@, #[trigger] sync_views(res@)[k], group_src@),
    decreases entries@,
{
    let mut res: Vec<SyncStep> = Vec::new();
    let n = entries.len();
    for i in 0..n
        invariant
            n == entries@.len(),
            sync_views(res@) == sync_steps(entries@.take(i as int), group_src@),
    {
        let e = &entries[i];
        proof {
            assert(decreases_to!(entries@ => entries@[i as int]));
            assert(entries@.take(i + 1).drop_last() =~= entries@.take(i as int));
            assert(entries@.take(i + 1).last() == entries@[i as int]);
        }
        let ghost before = res@;
        match sync_entry_action(&e.target, group_src) {
            SyncAction::Descend => {
                if e.listed {
                    let sub = sync(&e.children, group_src);
                    let ghost subv = sync_views(sub@);
                    let m = sub.len();
                    for j in 0..m
                        invariant
                            m == sub@.len(),
                            subv == sync_views(sub@),
                            sync_views(res@) == sync_views(before) + under(e.name@, subv.take(j as int)),
                    {
                        let step = SyncStep { kind: sub[j].kind, path: prefixed(&e.name, &sub[j].path) };
                        proof {
                            assert(sync_views(res@.push(step)) =~= sync_views(res@).push(sync_step_view(step)));
                            assert(subv.take(j + 1) =~= subv.take(j as int).push(subv[j as int]));
                            assert(under(e.name@, subv.take(j + 1)) =~= under(e.name@, subv.take(j as int)).push(
                                (subv[j as int].0, seq![e.name@] + subv[j as int].1),
                            ));
                        }
                        res.push(step);
                    }
                    assert(subv.take(m as int) =~= subv);
                } else {
                    let step = single_step(SyncKind::Unlistable, &e.name);
                    assert(sync_views(res@.push(step)) =~= sync_views(res@).push(sync_step_view(step)));
                    res.push(step);
                }
            },
            SyncAction::Keep => {
                let step = single_step(SyncKind::Keep, &e.name);
                assert(sync_views(res@.push(step)) =~= sync_views(res@).push(sync_step_view(step)));
                res.push(step);
            },
            SyncAction::Place { remove_link } => {
                let step = single_step(SyncKind::Place(remove_link), &e.name);
                assert(sync_views(res@.push(step)) =~= sync_views(res@).push(sync_step_view(step)));
                res.push(step);
            },
        }
    }
    assert(entries@.take(n as int) =~= entries@);
    proof {
        lemma_sync_keeps_server_files(entries@, group_src@);
    }
    res
}

/// The removals that undo sync steps: one at the path of each placement, in order.
pub open spec fn placements(steps: Seq<(SyncKind, Seq<Seq<char>>)>) -> Seq<(bool, Seq<Seq<char>>)>
    decreases steps.len(),
{
    if steps.len() == 0 {
        Seq::empty()
    } else {
        let rest = placements(steps.drop_last());
        match steps.last().0 {
            SyncKind::Place(_) => rest.push((true, steps.last().1)),
            _ => rest,
        }
    }
}

/// Every name in a group tree is a plain name, as a directory listing gives them.
pub open spec fn plain_names(entries: Seq<GroupEntry>) -> bool
    decreases entries,
{
    entries.len() == 0 || (plain_names(entries.drop_last()) && plain_name(entries.last().name@) && plain_names(
        entries.last().children@,
    ))
}

/// `after` is the group tree `before` (found at `prefix` below the group directory) as it
/// is once syncing it with links succeeded: the same entries; where the server had a real
/// directory it still has, and what is below was synced the same way; what the server kept
/// is unchanged; where an entry was placed, the server has a link to that entry in the
/// group's source.
pub open spec fn synced_with_links(
    before: Seq<GroupEntry>,
    after: Seq<GroupEntry>,
    group_src: Seq<char>,
    prefix: Seq<Seq<char>>,
) -> bool
    decreases before,
{
    if before.len() == 0 {
        after.len() == 0
    } else {
        let e = before.last();
        let a = after.last();
        &&& after.len() == before.len()
        &&& synced_with_links(before.drop_last(), after.drop_last(), group_src, prefix)
        &&& a.name@ == e.name@
        &&& a.is_dir == e.is_dir
        &&& match sync_decision(e.target, group_src) {
            SyncAction::Descend => e.is_dir && e.listed && a.listed && a.target == e.target
                && synced_with_links(e.children@, a.children@, group_src, prefix.push(e.name@)),
            SyncAction::Keep => a.target == e.target,
            SyncAction::Place { .. } => a.target.is_symlink && (a.target.link_target matches Some(l) && l@
                == path_join_all(group_src, prefix.push(e.name@))),
        }
    }
}

proof fn lemma_placements_append(x: Seq<(SyncKind, Seq<Seq<char>>)>, y: Seq<(SyncKind, Seq<Seq<char>>)>)
    ensures
        placements(x + y) == placements(x) + placements(y),
    decreases y.len(),
{
    if y.len() == 0 {
        assert(x + y =~= x);
        assert(placements(x) + placements(y) =~= placements(x));
    } else {
        lemma_placements_append(x, y.drop_last());
        assert((x + y).drop_last() =~= x + y.drop_last());
        assert((x + y).last() == y.last());
        let z = (true, y.last().1);
        assert((placements(x) + placements(y.drop_last())).push(z) =~= placements(x) + placements(y.drop_last()).push(z));
    }
}

proof fn lemma_placements_under(name: Seq<char>, s: Seq<(SyncKind, Seq<Seq<char>>)>)
    ensures
        placements(under(name, s)) == under(name, placements(s)),
    decreases s.len(),
{
    if s.len() == 0 {
        assert(under(name, s) =~= s);
        assert(under(name, placements(s)) =~= placements(s));
    } else {
        lemma_placements_under(name, s.drop_last());
        assert(under(name, s).drop_last() =~= under(name, s.drop_last()));
        let r = placements(s.drop_last());
        let z = (true, s.last().1);
        assert(under(name, r.push(z)) =~= under(name, r).push((true, seq![name] + s.last().1)));
    }
}

/// Unsyncing undoes a sync done with links: once syncing a group tree succeeded, the
/// links unsyncing removes are exactly those syncing placed, at the same paths and in the
/// same order, and nothing else (what the server kept of its own, and its real
/// directories, stay).
pub proof fn lemma_unsync_undoes_sync(
    before: Seq<GroupEntry>,
    after: Seq<GroupEntry>,
    group_src: Seq<char>,
    prefix: Seq<Seq<char>>,
)
    requires
        plain_names(before),
        forall|k: int| 0 <= k < prefix.len() ==> plain_name(#[trigger] prefix[k]),
        synced_with_links(before, after, group_src, prefix),
    ensures
        unsync_steps(after, group_src) == placements(sync_steps(before, group_src)),
    decreases before,
{
    if before.len() > 0 {
        let e = before.last();
        let a = after.last();
        lemma_unsync_undoes_sync(before.drop_last(), after.drop_last(), group_src, prefix);
        let rest_s = sync_steps(before.drop_last(), group_src);
        let rest_u = unsync_steps(after.drop_last(), group_src);
        let names = prefix.push(e.name@);
        assert forall|k: int| 0 <= k < names.len() implies plain_name(#[trigger] names[k]) by {
            if k < prefix.len() {
                assert(names[k] == prefix[k]);
            }
        }
        match sync_decision(e.target, group_src) {
            SyncAction::Descend => {
                lemma_unsync_undoes_sync(e.children@, a.children@, group_src, names);
                lemma_placements_append(rest_s, under(e.name@, sync_steps(e.children@, group_src)));
                lemma_placements_under(e.name@, sync_steps(e.children@, group_src));
            },
            SyncAction::Keep => {
                assert(rest_s.push((SyncKind::Keep, seq![e.name@])).drop_last() =~= rest_s);
            },
            SyncAction::Place { remove_link } => {
                lemma_placed_link_is_managed(a.is_dir, a.target, group_src, names);
                assert(rest_s.push((SyncKind::Place(remove_link), seq![e.name@])).drop_last() =~= rest_s);
            },
        }
    } else {
        assert(after.len() == 0);
    }
}

/// With no failure, the synced count of the first `n` steps is the number of placements
/// among them.
proof fn lemma_count_placements(steps: Seq<(SyncKind, Seq<Seq<char>>)>, failures: Seq<Option<String>>, n: nat)
    requires
        n <= steps.len(),
        failures.len() == steps.len(),
        forall|k: int| 0 <= k < failures.len() ==> #[trigger] failures[k] is None,
    ensures
        placements(steps.take(n as int)).len() == count_synced(steps, failures, n),
    decreases n,
{
    if n > 0 {
        lemma_count_placements(steps, failures, (n - 1) as nat);
        assert(steps.take(n as int).drop_last() =~= steps.take(n - 1));
        assert(steps.take(n as int).last() == steps[n - 1]);
        assert(failures[n - 1] is None);
    }
}

/// Unsyncing after a sync done with links, where no placement failed, removes as many links
/// as the sync's report counts as synced.
pub proof fn lemma_unsync_count(
    before: Seq<GroupEntry>,
    after: Seq<GroupEntry>,
    group_src: Seq<char>,
    prefix: Seq<Seq<char>>,
    failures: Seq<Option<String>>,
)
    requires
        plain_names(before),
        forall|k: int| 0 <= k < prefix.len() ==> plain_name(#[trigger] prefix[k]),
        synced_with_links(before, after, group_src, prefix),
        failures.len() == sync_steps(before, group_src).len(),
        forall|k: int| 0 <= k < failures.len() ==> #[trigger] failures[k] is None,
    ensures
        unsync_steps(after, group_src).len() == count_synced(
            sync_steps(before, group_src),
            failures,
            sync_steps(before, group_src).len(),
        ),
{
    let steps = sync_steps(before, group_src);
    lemma_unsync_undoes_sync(before, after, group_src, prefix);
    lemma_count_placements(steps, failures, steps.len());
    assert(steps.take(steps.len() as int) =~= steps);
}

/// Whether a group lists a server identifier.
pub open spec fn group_has(group: FolderLinks, id: Seq<char>) -> bool {
    exists|i: int| 0 <= i < group.servers@.len() && #[trigger] group.servers@[i]@ == id
}

fn group_lists(group: &FolderLinks, id: &str) -> (res: bool)
    ensures
        res == group_has(*group, id@),
{
    let n = group.servers.len();
    for i in 0..n
        invariant
            n == group.servers@.len(),
            forall|j: int| 0 <= j < i ==> group.servers@[j]@ != id@,
    {
        if str_eq(group.servers[i].as_str(), id) {
            return true;
        }
    }
    false
}

/// The positions of the servers a group is synced to, in order.
pub open spec fn group_members(group: FolderLinks, servers: Seq<ServerEntry>) -> Seq<usize>
    decreases servers.len(),
{
    if servers.len() == 0 {
        Seq::empty()
    } else {
        let rest = group_members(group, servers.drop_last());
        if group_has(group, servers.last().id@) {
            rest.push((servers.len() - 1) as usize)
        } else {
            rest
        }
    }
}

/// The positions of the servers a group is synced to, in order.
pub fn servers_in_group(group: &FolderLinks, servers: &Vec<ServerEntry>) -> (res: Vec<usize>)
    ensures
        res@ == group_members(*group, servers@),
        forall|i: int| 0 <= i < res@.len() ==> (#[trigger] res@[i]) < servers@.len() && group_has(*group, servers@[res@[i] as int].id@),
{
    let mut res: Vec<usize> = Vec::new();
    let n = servers.len();
    for i in 0..n
        invariant
            n == servers@.len(),
            res@ == group_members(*group, servers@.take(i as int)),
            forall|k: int| 0 <= k < res@.len() ==> (#[trigger] res@[k]) < i && group_has(*group, servers@[res@[k] as int].id@),
    {
        assert(servers@.take(i + 1).drop_last() =~= servers@.take(i as int));
        assert(servers@.take(i + 1).last() == servers@[i as int]);
        if group_lists(group, servers[i].id.as_str()) {
            res.push(i);
        }
    }
    assert(servers@.take(n as int) =~= servers@);
    res
}

/// The positions of the groups that list a server, in order.
pub open spec fn groups_listing(groups: Seq<FolderLinks>, id: Seq<char>) -> Seq<usize>
    decreases groups.len(),
{
    if groups.len() == 0 {
        Seq::empty()
    } else {
        let rest = groups_listing(groups.drop_last(), id);
        if group_has(groups.last(), id) {
            rest.push((groups.len() - 1) as usize)
        } else {
            rest
        }
    }
}

/// The positions of the groups a server is in, in order (the groups synced before it
/// starts and unsynced after it stops).
pub fn groups_with_server(groups: &Vec<FolderLinks>, id: &str) -> (res: Vec<usize>)
    ensures
        res@ == groups_listing(groups@, id@),
        forall|i: int| 0 <= i < res@.len() ==> (#[trigger] res@[i]) < groups@.len() && group_has(groups@[res@[i] as int], id@),
{
    let mut res: Vec<usize> = Vec::new();
    let n = groups.len();
    for i in 0..n
        invariant
            n == groups@.len(),
            res@ == groups_listing(groups@.take(i as int), id@),
            forall|k: int| 0 <= k < res@.len() ==> (#[trigger] res@[k]) < i && group_has(groups@[res@[k] as int], id@),
    {
        assert(groups@.take(i + 1).drop_last() =~= groups@.take(i as int));
        assert(groups@.take(i + 1).last() == groups@[i as int]);
        if group_lists(&groups[i], id) {
            res.push(i);
        }
    }
    assert(groups@.take(n as int) =~= groups@);
    res
}

/// A server belongs to a group exactly when one of the group's listed identifiers is its
/// identifier, character for character: the positions of the group's servers are, in
/// increasing order, exactly those of the servers whose identifier the group lists.
pub proof fn lemma_group_members(group: FolderLinks, servers: Seq<ServerEntry>)
    requires
        servers.len() <= usize::MAX,
    ensures
        forall|j: int| 0 <= j < group_members(group, servers).len() ==> {
            let k = #[trigger] group_members(group, servers)[j] as int;
            0 <= k < servers.len() && exists|i: int| 0 <= i < group.servers@.len() && group.servers@[i]@ == servers[k].id@
        },
        forall|k: int, i: int|
            0 <= k < servers.len() && 0 <= i < group.servers@.len() && #[trigger] group.servers@[i]@ == #[trigger] servers[k].id@
                ==> group_members(group, servers).contains(k as usize),
        forall|a: int, b: int|
            0 <= a < b < group_members(group, servers).len() ==> #[trigger] group_members(group, servers)[a]
                < #[trigger] group_members(group, servers)[b],
    decreases servers.len(),
{
    if servers.len() > 0 {
        let t = servers.drop_last();
        lemma_group_members(group, t);
        let rest = group_members(group, t);
        let all = group_members(group, servers);
        let last = servers.len() - 1;
        assert forall|j: int| 0 <= j < rest.len() implies (#[trigger] rest[j]) < last by {
            assert(rest[j] < t.len());
        }
        assert forall|k: int| 0 <= k < t.len() implies #[trigger] t[k] == servers[k] by {}
        assert forall|j: int| 0 <= j < all.len() implies {
            let k = #[trigger] all[j] as int;
            0 <= k < servers.len() && exists|i: int| 0 <= i < group.servers@.len() && group.servers@[i]@ == servers[k].id@
        } by {
            if j < rest.len() {
                assert(all[j] == rest[j]);
                assert(t[rest[j] as int] == servers[rest[j] as int]);
            } else {
                assert(all[j] == last as usize);
                assert(group_has(group, servers.last().id@));
            }
        }
        assert forall|k: int, i: int|
            0 <= k < servers.len() && 0 <= i < group.servers@.len() && #[trigger] group.servers@[i]@ == #[trigger] servers[k].id@
                implies all.contains(k as usize) by {
            if k < last {
                assert(t[k] == servers[k]);
                assert(rest.contains(k as usize));
                let j = choose|j: int| 0 <= j < rest.len() && rest[j] == k as usize;
                assert(all[j] == rest[j]);
            } else {
                assert(group_has(group, servers.last().id@));
                assert(all[all.len() - 1] == k as usize);
            }
        }
        assert forall|a: int, b: int| 0 <= a < b < all.len() implies #[trigger] all[a] < #[trigger] all[b] by {
            if b < rest.len() {
                assert(all[a] == rest[a] && all[b] == rest[b]);
            } else {
                assert(all[a] == rest[a]);
            }
        }
    }
}

/// A group lists a server exactly when one of its listed identifiers is the server's
/// identifier, character for character: the positions of those groups, in increasing order.
pub proof fn lemma_groups_listing(groups: Seq<FolderLinks>, id: Seq<char>)
    requires
        groups.len() <= usize::MAX,
    ensures
        forall|j: int| 0 <= j < groups_listing(groups, id).len() ==> {
            let g = #[trigger] groups_listing(groups, id)[j] as int;
            0 <= g < groups.len() && exists|i: int| 0 <= i < groups[g].servers@.len() && groups[g].servers@[i]@ == id
        },
        forall|g: int, i: int|
            0 <= g < groups.len() && 0 <= i < groups[g].servers@.len() && #[trigger] groups[g].servers@[i]@ == id
                ==> groups_listing(groups, id).contains(g as usize),
        forall|a: int, b: int|
            0 <= a < b < groups_listing(groups, id).len() ==> #[trigger] groups_listing(groups, id)[a]
                < #[trigger] groups_listing(groups, id)[b],
    decreases groups.len(),
{
    if groups.len() > 0 {
        let t = groups.drop_last();
        lemma_groups_listing(t, id);
        let rest = groups_listing(t, id);
        let all = groups_listing(groups, id);
        let last = groups.len() - 1;
        assert forall|j: int| 0 <= j < rest.len() implies (#[trigger] rest[j]) < last by {
            assert(rest[j] < t.len());
        }
        assert forall|g: int| 0 <= g < t.len() implies #[trigger] t[g] == groups[g] by {}
        assert forall|j: int| 0 <= j < all.len() implies {
            let g = #[trigger] all[j] as int;
            0 <= g < groups.len() && exists|i: int| 0 <= i < groups[g].servers@.len() && groups[g].servers@[i]@ == id
        } by {
            if j < rest.len() {
                assert(all[j] == rest[j]);
                assert(t[rest[j] as int] == groups[rest[j] as int]);
            } else {
                assert(all[j] == last as usize);
                assert(group_has(groups.last(), id));
            }
        }
        assert forall|g: int, i: int|
            0 <= g < groups.len() && 0 <= i < groups[g].servers@.len() && #[trigger] groups[g].servers@[i]@ == id
                implies all.contains(g as usize) by {
            if g < last {
                assert(t[g] == groups[g]);
                assert(t[g].servers@[i]@ == id);
                assert(rest.contains(g as usize));
                let j = choose|j: int| 0 <= j < rest.len() && rest[j] == g as usize;
                assert(all[j] == rest[j]);
            } else {
                assert(group_has(groups.last(), id));
                assert(all[all.len() - 1] == g as usize);
            }
        }
        assert forall|a: int, b: int| 0 <= a < b < all.len() implies #[trigger] all[a] < #[trigger] all[b] by {
            if b < rest.len() {
                assert(all[a] == rest[a] && all[b] == rest[b]);
            } else {
                assert(all[a] == rest[a]);
            }
        }
    }
}

} // verus!
