//! The removal plan: the file system steps that deduplicate an index, and
//! what they leave behind.

use vstd::prelude::*;
use crate::index::{DuplicateIndex, GroupView, groups_view, paths_view};

verus! {

/// One file system step, as plain sequences of characters.
pub enum Step {
    /// Delete the file at the path.
    Remove(Seq<char>),
    /// Make a symbolic link at `at` that points to `original`.
    Link { original: Seq<char>, at: Seq<char> },
}

/// One file system step of a deduplication.
pub enum Action {
    /// Delete the file at `path`.
    Remove { path: String },
    /// Make a symbolic link at `at` that points to `original`.
    Link { original: String, at: String },
}

impl View for Action {
    type V = Step;

    open spec fn view(&self) -> Step {
        match self {
            Action::Remove { path } => Step::Remove(path@),
            Action::Link { original, at } => Step::Link { original: original@, at: at@ },
        }
    }
}

/// The steps held by a vector of actions.
pub open spec fn actions_view(v: Seq<Action>) -> Seq<Step> {
    v.map_values(|a: Action| a@)
}

/// A removal target: the retained original of a group and one other member.
pub type Target = (Seq<char>, Seq<char>);

/// The removal targets of one group: its first path is kept, and every
/// other path is paired with it.
pub open spec fn group_targets(g: GroupView) -> Seq<Target> {
    if g.1.len() <= 1 {
        seq![]
    } else {
        g.1.subrange(1, g.1.len() as int).map_values(|p: Seq<char>| (g.1[0], p))
    }
}

/// The removal targets of all groups, group after group.
pub open spec fn targets_of(groups: Seq<GroupView>) -> Seq<Target>
    decreases groups.len(),
{
    if groups.len() == 0 {
        seq![]
    } else {
        targets_of(groups.drop_last()) + group_targets(groups.last())
    }
}

/// The steps for one target: remove it, then, with links, link it to the
/// original.
pub open spec fn target_steps(t: Target, make_symlinks: bool) -> Seq<Step> {
    if make_symlinks {
        seq![Step::Remove(t.1), Step::Link { original: t.0, at: t.1 }]
    } else {
        seq![Step::Remove(t.1)]
    }
}

/// The steps for a sequence of targets, target after target.
pub open spec fn steps_of(targets: Seq<Target>, make_symlinks: bool) -> Seq<Step>
    decreases targets.len(),
{
    if targets.len() == 0 {
        seq![]
    } else {
        steps_of(targets.drop_last(), make_symlinks) + target_steps(targets.last(), make_symlinks)
    }
}

/// The deduplication plan of an index.
pub open spec fn plan_of(groups: Seq<GroupView>, make_symlinks: bool) -> Seq<Step> {
    steps_of(targets_of(groups), make_symlinks)
}

/// The plan that deduplicates an index: in each group of more than one
/// path the first path is kept, and every other path, in order, is
/// removed and, with `make_symlinks`, replaced at once by a symbolic link
/// to the kept one. Groups are taken in the order of the index.
pub fn removal_plan(index: &DuplicateIndex, make_symlinks: bool) -> (r: Vec<Action>)
    ensures
        actions_view(r@) == plan_of(index@, make_symlinks),
{
    let groups = index.groups();
    let ghost gs = groups_view(groups@);
    let mut r: Vec<Action> = Vec::new();
    let mut i: usize = 0;
    while i < groups.len()
        invariant
            i <= groups@.len(),
            gs == groups_view(groups@),
            gs == index@,
            actions_view(r@) == steps_of(targets_of(gs.subrange(0, i as int)), make_symlinks),
        decreases groups@.len() - i,
    {
        let paths = &groups[i].paths;
        let ghost g = gs[i as int];
        let ghost before = targets_of(gs.subrange(0, i as int));
        proof {
            assert(gs.subrange(0, i + 1).drop_last() =~= gs.subrange(0, i as int));
            assert(g == groups@[i as int]@);
            assert(g.1 == paths_view(paths@));
        }
        if paths.len() > 1 {
            let mut j: usize = 1;
            while j < paths.len()
                invariant
                    1 <= j <= paths@.len(),
                    g.1 == paths_view(paths@),
                    g.1.len() > 1,
                    actions_view(r@) == steps_of(
                        before + group_targets(g).subrange(0, j - 1),
                        make_symlinks,
                    ),
                decreases paths@.len() - j,
            {
                let ghost prev = before + group_targets(g).subrange(0, j - 1);
                let ghost next = before + group_targets(g).subrange(0, j as int);
                proof {
                    assert(next.drop_last() =~= prev);
                    assert(next.last() == (g.1[0], g.1[j as int]));
                }
                r.push(Action::Remove { path: paths[j].clone() });
                if make_symlinks {
                    r.push(Action::Link { original: paths[0].clone(), at: paths[j].clone() });
                }
                assert(actions_view(r@) =~= steps_of(next, make_symlinks));
                j = j + 1;
            }
            assert(group_targets(g).subrange(0, j - 1) =~= group_targets(g));
        } else {
            assert(before + group_targets(g) =~= before);
        }
        i = i + 1;
    }
    assert(gs.subrange(0, groups@.len() as int) =~= gs);
    r
}


/// The steps of a run: none in dump-only mode, else the removal plan.
pub fn run_plan(index: &DuplicateIndex, dump_only: bool, make_symlinks: bool) -> (r: Vec<Action>)
    ensures
        dump_only ==> r@.len() == 0,
        !dump_only ==> actions_view(r@) == plan_of(index@, make_symlinks),
{
    if dump_only {
        Vec::new()
    } else {
        removal_plan(index, make_symlinks)
    }
}

/// What stands at a path of a model file system.
pub enum Node {
    /// A regular file with its bytes.
    File(Seq<u8>),
    /// A symbolic link to a path.
    Symlink(Seq<char>),
}

/// A model file system: what stands at each path.
pub type FileSystem = Map<Seq<char>, Node>;

/// The effect of one step, or `None` where the step fails: removing a path
/// where nothing stands, or linking at a path that is taken.
pub open spec fn apply_step(fs: FileSystem, s: Step) -> Option<FileSystem> {
    match s {
        Step::Remove(p) => if fs.contains_key(p) {
            Some(fs.remove(p))
        } else {
            None
        },
        Step::Link { original, at } => if fs.contains_key(at) {
            None
        } else {
            Some(fs.insert(at, Node::Symlink(original)))
        },
    }
}

/// The effect of steps taken in order, stopping at the first that fails.
pub open spec fn apply_steps(fs: FileSystem, steps: Seq<Step>) -> Option<FileSystem>
    decreases steps.len(),
{
    if steps.len() == 0 {
        Some(fs)
    } else {
        match apply_steps(fs, steps.drop_last()) {
            Some(f) => apply_step(f, steps.last()),
            None => None,
        }
    }
}

/// No path stands twice in the groups, within a group or across two.
pub open spec fn paths_distinct(groups: Seq<GroupView>) -> bool {
    forall|k1: int, i1: int, k2: int, i2: int|
        0 <= k1 < groups.len() && 0 <= k2 < groups.len() && 0 <= i1 < groups[k1].1.len() && 0
            <= i2 < groups[k2].1.len() && (k1 != k2 || i1 != i2) ==> #[trigger] groups[k1].1[i1]
            != #[trigger] groups[k2].1[i2]
}

/// Every path of the groups is a regular file of the file system.
pub open spec fn all_files(fs: FileSystem, groups: Seq<GroupView>) -> bool {
    forall|k: int, i: int|
        0 <= k < groups.len() && 0 <= i < groups[k].1.len() ==> fs.contains_key(
            #[trigger] groups[k].1[i],
        ) && fs[groups[k].1[i]] is File
}

proof fn lemma_steps_effect(fs: FileSystem, targets: Seq<Target>, make_symlinks: bool)
    requires
        forall|a: int, b: int|
            0 <= a < b < targets.len() ==> #[trigger] targets[a].1 != #[trigger] targets[b].1,
        forall|a: int| 0 <= a < targets.len() ==> fs.contains_key(#[trigger] targets[a].1),
    ensures
        apply_steps(fs, steps_of(targets, make_symlinks)).is_some(),
        forall|a: int|
            0 <= a < targets.len() ==> {
                let after = apply_steps(fs, steps_of(targets, make_symlinks)).unwrap();
                if make_symlinks {
                    after.contains_key(#[trigger] targets[a].1) && after[targets[a].1]
                        == Node::Symlink(targets[a].0)
                } else {
                    !after.contains_key(targets[a].1)
                }
            },
        forall|p: Seq<char>|
            #![trigger fs.contains_key(p)]
            (forall|a: int| 0 <= a < targets.len() ==> #[trigger] targets[a].1 != p) ==> {
                let after = apply_steps(fs, steps_of(targets, make_symlinks)).unwrap();
                &&& after.contains_key(p) == fs.contains_key(p)
                &&& fs.contains_key(p) ==> after[p] == fs[p]
            },
    decreases targets.len(),
{
    if targets.len() > 0 {
        let pre = targets.drop_last();
        let t = targets.last();
        let n = pre.len() as int;
        assert forall|a: int, b: int|
            0 <= a < b < pre.len() implies #[trigger] pre[a].1 != #[trigger] pre[b].1 by {
            assert(pre[a] == targets[a] && pre[b] == targets[b]);
        }
        assert forall|a: int| 0 <= a < pre.len() implies fs.contains_key(#[trigger] pre[a].1) by {
            assert(pre[a] == targets[a]);
        }
        lemma_steps_effect(fs, pre, make_symlinks);
        let head = steps_of(pre, make_symlinks);
        let mid = apply_steps(fs, head).unwrap();
        assert forall|a: int| 0 <= a < pre.len() implies #[trigger] pre[a].1 != t.1 by {
            assert(pre[a] == targets[a]);
        }
        assert(mid.contains_key(t.1) && mid[t.1] == fs[t.1]);
        let all = steps_of(targets, make_symlinks);
        let removed = mid.remove(t.1);
        if make_symlinks {
            assert(all.drop_last().drop_last() =~= head);
            assert(all.drop_last().last() == Step::Remove(t.1));
            assert(apply_steps(fs, all.drop_last()) == Some(removed));
        } else {
            assert(all.drop_last() =~= head);
        }
        let after = apply_steps(fs, all).unwrap();
        assert forall|a: int| 0 <= a < targets.len() implies {
            if make_symlinks {
                after.contains_key(#[trigger] targets[a].1) && after[targets[a].1]
                    == Node::Symlink(targets[a].0)
            } else {
                !after.contains_key(targets[a].1)
            }
        } by {
            if a < n {
                assert(targets[a] == pre[a]);
                assert(pre[a].1 != t.1);
            }
        }
        assert forall|p: Seq<char>|
            #![trigger fs.contains_key(p)]
            (forall|a: int| 0 <= a < targets.len() ==> #[trigger] targets[a].1 != p) implies {
                &&& after.contains_key(p) == fs.contains_key(p)
                &&& fs.contains_key(p) ==> after[p] == fs[p]
            } by {
            assert(targets[n].1 != p);
            assert forall|a: int| 0 <= a < pre.len() implies #[trigger] pre[a].1 != p by {
                assert(pre[a] == targets[a]);
            }
        }
    }
}

proof fn lemma_group_targets(g: GroupView)
    ensures
        group_targets(g).len() == if g.1.len() <= 1 { 0 } else { g.1.len() - 1 },
        forall|j: int| 0 <= j < group_targets(g).len() ==> #[trigger] group_targets(g)[j] == (g.1[0], g.1[j + 1]),
{
}

/// `t` pairs the first path of some group with a later path of it.
pub open spec fn is_group_target(groups: Seq<GroupView>, t: Target) -> bool {
    exists|k: int, i: int|
        0 <= k < groups.len() && 1 <= i < groups[k].1.len() && t.0 == groups[k].1[0] && t.1
            == #[trigger] groups[k].1[i]
}

/// Every target is a pair (first path, later path) of one group.
proof fn lemma_targets_cover(groups: Seq<GroupView>)
    ensures
        forall|a: int|
            0 <= a < targets_of(groups).len() ==> is_group_target(
                groups,
                #[trigger] targets_of(groups)[a],
            ),
    decreases groups.len(),
{
    if groups.len() > 0 {
        let pre = groups.drop_last();
        let last = pre.len() as int;
        lemma_targets_cover(pre);
        lemma_group_targets(groups.last());
        let tp = targets_of(pre);
        let gt = group_targets(groups.last());
        let ts = targets_of(groups);
        assert(ts == tp + gt);
        assert forall|a: int| 0 <= a < ts.len() implies is_group_target(groups, #[trigger] ts[a]) by {
            if a < tp.len() {
                assert(is_group_target(pre, tp[a]));
                let (k, i) = choose|k: int, i: int|
                    0 <= k < pre.len() && 1 <= i < pre[k].1.len() && tp[a].0 == pre[k].1[0]
                        && tp[a].1 == #[trigger] pre[k].1[i];
                assert(pre[k] == groups[k]);
                assert(ts[a] == tp[a]);
                assert(groups[k].1[i] == ts[a].1);
            } else {
                let j = a - tp.len();
                assert(ts[a] == gt[j]);
                assert(groups[last].1[j + 1] == ts[a].1);
            }
        }
    } else {
        assert(targets_of(groups) =~= Seq::<Target>::empty());
    }
}

/// Every later path of a group is a target, paired with the group's first.
proof fn lemma_targets_complete(groups: Seq<GroupView>)
    ensures
        forall|k: int, i: int|
            0 <= k < groups.len() && 1 <= i < groups[k].1.len() ==> targets_of(groups).contains(
                (groups[k].1[0], #[trigger] groups[k].1[i]),
            ),
    decreases groups.len(),
{
    if groups.len() > 0 {
        let pre = groups.drop_last();
        let last = pre.len() as int;
        lemma_targets_complete(pre);
        lemma_group_targets(groups.last());
        let tp = targets_of(pre);
        let gt = group_targets(groups.last());
        let ts = targets_of(groups);
        assert(ts == tp + gt);
        assert forall|k: int, i: int|
            0 <= k < groups.len() && 1 <= i < groups[k].1.len() implies ts.contains(
                (groups[k].1[0], #[trigger] groups[k].1[i]),
            ) by {
            if k < last {
                assert(pre[k] == groups[k]);
                assert(tp.contains((pre[k].1[0], pre[k].1[i])));
                let a = choose|a: int| 0 <= a < tp.len() && tp[a] == (pre[k].1[0], pre[k].1[i]);
                assert(ts[a] == tp[a]);
            } else {
                let a = tp.len() + i - 1;
                assert(ts[a] == gt[i - 1]);
            }
        }
    }
}

/// With distinct paths, no path is targeted twice.
proof fn lemma_targets_distinct(groups: Seq<GroupView>)
    requires
        paths_distinct(groups),
    ensures
        forall|a: int, b: int|
            0 <= a < b < targets_of(groups).len() ==> #[trigger] targets_of(groups)[a].1
                != #[trigger] targets_of(groups)[b].1,
    decreases groups.len(),
{
    if groups.len() > 0 {
        let pre = groups.drop_last();
        let last = pre.len() as int;
        assert forall|k1: int, i1: int, k2: int, i2: int|
            0 <= k1 < pre.len() && 0 <= k2 < pre.len() && 0 <= i1 < pre[k1].1.len() && 0 <= i2
                < pre[k2].1.len() && (k1 != k2 || i1 != i2) implies #[trigger] pre[k1].1[i1]
                != #[trigger] pre[k2].1[i2] by {
            assert(pre[k1] == groups[k1] && pre[k2] == groups[k2]);
            assert(groups[k1].1[i1] != groups[k2].1[i2]);
        }
        lemma_targets_distinct(pre);
        lemma_targets_cover(pre);
        lemma_group_targets(groups.last());
        let tp = targets_of(pre);
        let gt = group_targets(groups.last());
        let ts = targets_of(groups);
        assert(ts == tp + gt);
        assert forall|a: int, b: int|
            0 <= a < b < ts.len() implies #[trigger] ts[a].1 != #[trigger] ts[b].1 by {
            if b < tp.len() {
                assert(ts[a] == tp[a] && ts[b] == tp[b]);
            } else if a >= tp.len() {
                let ja = a - tp.len();
                let jb = b - tp.len();
                assert(ts[a] == gt[ja] && ts[b] == gt[jb]);
                assert(groups[last].1[ja + 1] != groups[last].1[jb + 1]);
            } else {
                assert(ts[a] == tp[a]);
                assert(is_group_target(pre, tp[a]));
                let (k, i) = choose|k: int, i: int|
                    0 <= k < pre.len() && 1 <= i < pre[k].1.len() && tp[a].0 == pre[k].1[0]
                        && tp[a].1 == #[trigger] pre[k].1[i];
                assert(pre[k] == groups[k]);
                let jb = b - tp.len();
                assert(ts[b] == gt[jb]);
                assert(groups[k].1[i] != groups[last].1[jb + 1]);
            }
        }
    } else {
        assert(targets_of(groups) =~= Seq::<Target>::empty());
    }
}

/// `p` is a later path of some group: one that the plan removes.
pub open spec fn is_removed_path(groups: Seq<GroupView>, p: Seq<char>) -> bool {
    exists|k: int, i: int|
        0 <= k < groups.len() && 1 <= i < groups[k].1.len() && p == #[trigger] groups[k].1[i]
}

proof fn lemma_plan_effect(fs: FileSystem, groups: Seq<GroupView>, make_symlinks: bool)
    requires
        paths_distinct(groups),
        all_files(fs, groups),
    ensures
        apply_steps(fs, plan_of(groups, make_symlinks)).is_some(),
        forall|k: int|
            0 <= k < groups.len() && groups[k].1.len() > 0 ==> {
                let after = apply_steps(fs, plan_of(groups, make_symlinks)).unwrap();
                after.contains_key(#[trigger] groups[k].1[0]) && after[groups[k].1[0]]
                    == fs[groups[k].1[0]]
            },
        forall|k: int, i: int|
            0 <= k < groups.len() && 1 <= i < groups[k].1.len() ==> {
                let after = apply_steps(fs, plan_of(groups, make_symlinks)).unwrap();
                if make_symlinks {
                    after.contains_key(#[trigger] groups[k].1[i]) && after[groups[k].1[i]]
                        == Node::Symlink(groups[k].1[0])
                } else {
                    !after.contains_key(groups[k].1[i])
                }
            },
        forall|p: Seq<char>|
            #![trigger fs.contains_key(p)]
            !is_removed_path(groups, p) ==> {
                let after = apply_steps(fs, plan_of(groups, make_symlinks)).unwrap();
                &&& after.contains_key(p) == fs.contains_key(p)
                &&& fs.contains_key(p) ==> after[p] == fs[p]
            },
{
    let ts = targets_of(groups);
    lemma_targets_cover(groups);
    lemma_targets_complete(groups);
    lemma_targets_distinct(groups);
    assert forall|a: int| 0 <= a < ts.len() implies fs.contains_key(#[trigger] ts[a].1) by {
        assert(is_group_target(groups, ts[a]));
    }
    lemma_steps_effect(fs, ts, make_symlinks);
    let after = apply_steps(fs, plan_of(groups, make_symlinks)).unwrap();
    assert forall|k: int| 0 <= k < groups.len() && groups[k].1.len() > 0 implies after.contains_key(
        #[trigger] groups[k].1[0],
    ) && after[groups[k].1[0]] == fs[groups[k].1[0]] by {
        let p = groups[k].1[0];
        assert forall|a: int| 0 <= a < ts.len() implies #[trigger] ts[a].1 != p by {
            assert(is_group_target(groups, ts[a]));
        }
        assert(fs.contains_key(p));
    }
    assert forall|k: int, i: int| 0 <= k < groups.len() && 1 <= i < groups[k].1.len() implies {
        if make_symlinks {
            after.contains_key(#[trigger] groups[k].1[i]) && after[groups[k].1[i]] == Node::Symlink(
                groups[k].1[0],
            )
        } else {
            !after.contains_key(groups[k].1[i])
        }
    } by {
        assert(ts.contains((groups[k].1[0], groups[k].1[i])));
        let a = choose|a: int| 0 <= a < ts.len() && ts[a] == (groups[k].1[0], groups[k].1[i]);
        assert(ts[a].1 == groups[k].1[i]);
    }
    assert forall|p: Seq<char>|
        #![trigger fs.contains_key(p)]
        !is_removed_path(groups, p) implies {
            &&& after.contains_key(p) == fs.contains_key(p)
            &&& fs.contains_key(p) ==> after[p] == fs[p]
        } by {
        assert forall|a: int| 0 <= a < ts.len() implies #[trigger] ts[a].1 != p by {
            assert(is_group_target(groups, ts[a]));
        }
    }
}

/// Deduplicating with links, on a file system where every path of the
/// groups is a regular file and no path stands twice, succeeds at every
/// step. Afterwards the first path of each group is still the regular file
/// it was, with the same bytes; every later path of the group is a
/// symbolic link to it; and nothing else has changed, so a group of one
/// path, or a file left out of the index, stands as it stood.
pub proof fn lemma_dedup_with_links(fs: FileSystem, groups: Seq<GroupView>)
    requires
        paths_distinct(groups),
        all_files(fs, groups),
    ensures
        apply_steps(fs, plan_of(groups, true)).is_some(),
        forall|k: int|
            0 <= k < groups.len() && groups[k].1.len() > 0 ==> {
                let after = apply_steps(fs, plan_of(groups, true)).unwrap();
                after.contains_key(#[trigger] groups[k].1[0]) && after[groups[k].1[0]]
                    == fs[groups[k].1[0]]
            },
        forall|k: int, i: int|
            0 <= k < groups.len() && 1 <= i < groups[k].1.len() ==> {
                let after = apply_steps(fs, plan_of(groups, true)).unwrap();
                after.contains_key(#[trigger] groups[k].1[i]) && after[groups[k].1[i]]
                    == Node::Symlink(groups[k].1[0])
            },
        forall|p: Seq<char>|
            #![trigger fs.contains_key(p)]
            !is_removed_path(groups, p) ==> {
                let after = apply_steps(fs, plan_of(groups, true)).unwrap();
                &&& after.contains_key(p) == fs.contains_key(p)
                &&& fs.contains_key(p) ==> after[p] == fs[p]
            },
{
    lemma_plan_effect(fs, groups, true);
}

/// Deduplicating without links, on a file system where every path of the
/// groups is a regular file and no path stands twice, succeeds at every
/// step. Afterwards the first path of each group is still the regular file
/// it was, with the same bytes; nothing stands at any later path of the
/// group; and nothing else has changed, so a group of one path, or a file
/// left out of the index, stands as it stood.
pub proof fn lemma_dedup_without_links(fs: FileSystem, groups: Seq<GroupView>)
    requires
        paths_distinct(groups),
        all_files(fs, groups),
    ensures
        apply_steps(fs, plan_of(groups, false)).is_some(),
        forall|k: int|
            0 <= k < groups.len() && groups[k].1.len() > 0 ==> {
                let after = apply_steps(fs, plan_of(groups, false)).unwrap();
                after.contains_key(#[trigger] groups[k].1[0]) && after[groups[k].1[0]]
                    == fs[groups[k].1[0]]
            },
        forall|k: int, i: int|
            0 <= k < groups.len() && 1 <= i < groups[k].1.len() ==> !apply_steps(
                fs,
                plan_of(groups, false),
            ).unwrap().contains_key(#[trigger] groups[k].1[i]),
        forall|p: Seq<char>|
            #![trigger fs.contains_key(p)]
            !is_removed_path(groups, p) ==> {
                let after = apply_steps(fs, plan_of(groups, false)).unwrap();
                &&& after.contains_key(p) == fs.contains_key(p)
                &&& fs.contains_key(p) ==> after[p] == fs[p]
            },
{
    lemma_plan_effect(fs, groups, false);
}

} // verus!
