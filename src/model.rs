use vstd::prelude::*;

use crate::config::Config;
use crate::migrate::{exempt, planned, StepView};
use crate::path::{marker_name, with_rs_extension, PathView};
use crate::scan::{descended, descends_into, DirEntry, EntryKind};

verus! {

/// What the filesystem holds at a path.
pub ghost enum Node {
    File { content: Seq<u8> },
    Dir,
    Symlink,
}

/// A filesystem tree: what each existing path holds.
pub type Tree = Map<PathView, Node>;

/// `p` is an entry directly inside `dir`.
pub open spec fn is_child(p: PathView, dir: PathView) -> bool {
    p.len() == dir.len() + 1 && p.drop_last() == dir
}

/// No entry of `t` lies directly inside `dir`.
pub open spec fn is_empty_dir(t: Tree, dir: PathView) -> bool {
    forall|p: PathView| #[trigger] t.contains_key(p) ==> !is_child(p, dir)
}

/// The tree after a step has been carried out: the source is copied over the
/// target and deleted, then its directory is removed if asked and empty.
pub open spec fn apply_step(t: Tree, s: StepView) -> Tree {
    match s {
        StepView::Skip => t,
        StepView::Move { source, target, dir, remove_if_empty } => {
            let moved = t.insert(target, t[source]).remove(source);
            if remove_if_empty && is_empty_dir(moved, dir) {
                moved.remove(dir)
            } else {
                moved
            }
        },
    }
}

/// The tree after the marker files have been migrated in the given order, or
/// `None` where one of them has no step.
pub open spec fn run(t: Tree, markers: Seq<PathView>, config: Config) -> Option<Tree>
    decreases markers.len(),
{
    if markers.len() == 0 {
        Some(t)
    } else {
        match planned(markers[0], config) {
            None => None,
            Some(s) => run(apply_step(t, s), markers.drop_first(), config),
        }
    }
}

/// The path's last component is `mod.rs`.
pub open spec fn names_marker(p: PathView) -> bool {
    p.len() > 0 && p.last() == marker_name()
}

/// The marker files of a tree: regular files named `mod.rs`.
pub open spec fn markers_of(t: Tree) -> Set<PathView> {
    Set::new(|p: PathView| t.contains_key(p) && t[p] is File && names_marker(p))
}

/// Moving a marker file that is not exempt puts its content in the sibling
/// file named after its directory, deletes it, and keeps its directory exactly
/// while some other entry remains in it (or always, where empty directories
/// are left). Every other path is untouched.
pub proof fn lemma_move_relocates_marker(t: Tree, marker: PathView, config: Config)
    requires
        t.contains_key(marker),
        t[marker] is File,
        planned(marker, config) matches Some(StepView::Move { .. }),
        t.contains_key(marker.drop_last()),
        t[marker.drop_last()] is Dir,
        !(t.contains_key(with_rs_extension(marker.drop_last())) && t[with_rs_extension(
            marker.drop_last(),
        )] is Dir),
    ensures
        ({
            let dir = marker.drop_last();
            let target = with_rs_extension(dir);
            let after = apply_step(t, planned(marker, config).unwrap());
            &&& after.contains_key(target)
            &&& after[target] == t[marker]
            &&& !after.contains_key(marker)
            &&& config.leave_empty_dirs ==> after.contains_key(dir) && after[dir] == t[dir]
            &&& !config.leave_empty_dirs ==> (after.contains_key(dir) <==> exists|p: PathView|
                #[trigger] t.contains_key(p) && p != marker && is_child(p, dir))
            &&& forall|p: PathView|
                p != target && p != marker && p != dir ==> (#[trigger] after.contains_key(p)
                    == t.contains_key(p) && (t.contains_key(p) ==> after[p] == t[p]))
        }),
{
    let dir = marker.drop_last();
    let target = with_rs_extension(dir);
    let moved = t.insert(target, t[marker]).remove(marker);
    assert(target.len() == dir.len());
    assert(target != dir);
    assert(target != marker);
    if !config.leave_empty_dirs {
        if exists|p: PathView| #[trigger] t.contains_key(p) && p != marker && is_child(p, dir) {
            let p = choose|p: PathView| #[trigger] t.contains_key(p) && p != marker && is_child(p, dir);
            assert(moved.contains_key(p));
            assert(!is_empty_dir(moved, dir));
        } else {
            assert forall|p: PathView| #[trigger] moved.contains_key(p) implies !is_child(p, dir) by {
                if p != target {
                    assert(t.contains_key(p));
                }
            }
        }
    }
}

/// A marker file in a directory whose parent is named `tests` is left where
/// it is, unless that name is given no special treatment; then it is moved.
pub proof fn lemma_tests_dir_exemption(t: Tree, marker: PathView, config: Config)
    requires
        marker.len() >= 3,
        names_marker(marker),
        crate::path::is_plain_name(marker.drop_last().last()),
        crate::path::is_named_tests(marker.drop_last().drop_last()),
    ensures
        !config.no_special_treatment_for_tests_dir ==> planned(marker, config) == Some(StepView::Skip)
            && apply_step(t, StepView::Skip) == t,
        config.no_special_treatment_for_tests_dir ==> (planned(marker, config) matches Some(
            StepView::Move { source, .. },
        ) && source == marker),
{
    assert(marker.last() != seq!['/']) by {
        assert(marker.last().len() == 6);
    }
}

/// Where empty directories are left, a marker's directory stays after the
/// move, and has no entry left when the marker was its only one.
pub proof fn lemma_leave_empty_dirs_keeps_dir(t: Tree, marker: PathView, config: Config)
    requires
        config.leave_empty_dirs,
        t.contains_key(marker),
        t[marker] is File,
        planned(marker, config) matches Some(StepView::Move { .. }),
        t.contains_key(marker.drop_last()),
        t[marker.drop_last()] is Dir,
        !(t.contains_key(with_rs_extension(marker.drop_last())) && t[with_rs_extension(
            marker.drop_last(),
        )] is Dir),
        forall|p: PathView| #[trigger] t.contains_key(p) && is_child(p, marker.drop_last()) ==> p
            == marker,
    ensures
        ({
            let dir = marker.drop_last();
            let after = apply_step(t, planned(marker, config).unwrap());
            after.contains_key(dir) && after[dir] == Node::Dir && is_empty_dir(after, dir)
        }),
{
    let dir = marker.drop_last();
    let target = with_rs_extension(dir);
    let after = apply_step(t, planned(marker, config).unwrap());
    assert(target.len() == dir.len());
    assert(target != dir);
    assert forall|p: PathView| #[trigger] after.contains_key(p) implies !is_child(p, dir) by {
        if p != target {
            assert(t.contains_key(p));
        }
    }
}

/// A path is among those a listing pushes exactly when some entry that is
/// expanded bears its name.
pub proof fn lemma_descended_members(dir: PathView, entries: Seq<DirEntry>, follow_symlinks: bool, x: PathView)
    ensures
        descended(dir, entries, follow_symlinks).contains(x) <==> exists|j: int|
            0 <= j < entries.len() && descends_into(#[trigger] entries[j], follow_symlinks) && x
                == dir.push(entries[j].name@),
    decreases entries.len(),
{
    if entries.len() > 0 {
        let init = entries.drop_last();
        lemma_descended_members(dir, init, follow_symlinks, x);
        let d = descended(dir, entries, follow_symlinks);
        let r = descended(dir, init, follow_symlinks);
        if exists|j: int|
            0 <= j < entries.len() && descends_into(#[trigger] entries[j], follow_symlinks) && x
                == dir.push(entries[j].name@) {
            let j = choose|j: int|
                0 <= j < entries.len() && descends_into(#[trigger] entries[j], follow_symlinks) && x
                    == dir.push(entries[j].name@);
            if j < init.len() {
                assert(init[j] == entries[j]);
                assert(r.contains(x));
                let k = choose|k: int| 0 <= k < r.len() && r[k] == x;
                if descends_into(entries.last(), follow_symlinks) {
                    assert(d[k] == x);
                }
            } else {
                assert(d[d.len() - 1] == x);
            }
        }
        if d.contains(x) {
            let k = choose|k: int| 0 <= k < d.len() && d[k] == x;
            if k < r.len() {
                assert(r[k] == x);
                let j = choose|j: int|
                    0 <= j < init.len() && descends_into(#[trigger] init[j], follow_symlinks) && x
                        == dir.push(init[j].name@);
                assert(entries[j] == init[j]);
            } else {
                assert(entries[entries.len() - 1] == entries.last());
            }
        }
    }
}

/// A symlink in a listing is pushed for expansion exactly when symlinks are
/// followed (the names of a listing being distinct).
pub proof fn lemma_symlink_followed_only_on_request(
    dir: PathView,
    entries: Seq<DirEntry>,
    i: int,
    follow_symlinks: bool,
)
    requires
        0 <= i < entries.len(),
        entries[i].kind == EntryKind::Symlink,
        forall|a: int, b: int|
            0 <= a < entries.len() && 0 <= b < entries.len() && a != b ==> #[trigger] entries[a].name@
                != #[trigger] entries[b].name@,
    ensures
        descended(dir, entries, follow_symlinks).contains(dir.push(entries[i].name@))
            <==> follow_symlinks,
{
    let x = dir.push(entries[i].name@);
    lemma_descended_members(dir, entries, follow_symlinks, x);
    if !follow_symlinks && descended(dir, entries, follow_symlinks).contains(x) {
        let j = choose|j: int|
            0 <= j < entries.len() && descends_into(#[trigger] entries[j], follow_symlinks) && x
                == dir.push(entries[j].name@);
        assert(x.last() == entries[j].name@);
        assert(x.last() == entries[i].name@);
    }
}

/// No move of the sequence lands on a file named `mod.rs`: no marker's
/// directory has the stem `mod`.
pub open spec fn targets_avoid_marker_name(markers: Seq<PathView>) -> bool {
    forall|i: int|
        0 <= i < markers.len() ==> !names_marker(with_rs_extension(#[trigger] markers[i].drop_last()))
}

proof fn lemma_step_markers(t: Tree, m: PathView, config: Config)
    requires
        planned(m, config) is Some,
        !names_marker(with_rs_extension(m.drop_last())),
    ensures
        forall|p: PathView| #[trigger]
            markers_of(apply_step(t, planned(m, config).unwrap())).contains(p) ==> markers_of(
                t,
            ).contains(p) && (p == m ==> planned(m, config) == Some(StepView::Skip)),
{
    let after = apply_step(t, planned(m, config).unwrap());
    assert forall|p: PathView| #[trigger] markers_of(after).contains(p) implies markers_of(t).contains(p)
        && (p == m ==> planned(m, config) == Some(StepView::Skip)) by {
        if let Some(StepView::Move { source, target, dir, remove_if_empty }) = planned(m, config) {
            assert(p != target);
            assert(p != source);
        }
    }
}

proof fn lemma_run_markers(t: Tree, ms: Seq<PathView>, config: Config)
    requires
        run(t, ms, config) is Some,
        targets_avoid_marker_name(ms),
    ensures
        forall|p: PathView| #[trigger]
            markers_of(run(t, ms, config).unwrap()).contains(p) ==> markers_of(t).contains(p) && (
            ms.contains(p) ==> planned(p, config) == Some(StepView::Skip)),
    decreases ms.len(),
{
    if ms.len() > 0 {
        let s = planned(ms[0], config).unwrap();
        let t1 = apply_step(t, s);
        let rest = ms.drop_first();
        assert(targets_avoid_marker_name(rest)) by {
            assert forall|i: int| 0 <= i < rest.len() implies !names_marker(
                with_rs_extension(#[trigger] rest[i].drop_last()),
            ) by {
                assert(rest[i] == ms[i + 1]);
            }
        }
        assert(!names_marker(with_rs_extension(ms[0].drop_last())));
        lemma_run_markers(t1, rest, config);
        lemma_step_markers(t, ms[0], config);
        assert forall|p: PathView| #[trigger]
            markers_of(run(t, ms, config).unwrap()).contains(p) implies markers_of(t).contains(p) && (
            ms.contains(p) ==> planned(p, config) == Some(StepView::Skip)) by {
            assert(markers_of(t1).contains(p));
            if ms.contains(p) && p != ms[0] {
                let k = choose|k: int| 0 <= k < ms.len() && ms[k] == p;
                assert(rest[k - 1] == p);
            }
        }
    }
}

proof fn lemma_run_of_skipped(t: Tree, ms: Seq<PathView>, config: Config)
    requires
        forall|i: int| 0 <= i < ms.len() ==> planned(#[trigger] ms[i], config) == Some(StepView::Skip),
    ensures
        run(t, ms, config) == Some(t),
    decreases ms.len(),
{
    if ms.len() > 0 {
        let rest = ms.drop_first();
        assert forall|i: int| 0 <= i < rest.len() implies planned(#[trigger] rest[i], config) == Some(
            StepView::Skip,
        ) by {
            assert(rest[i] == ms[i + 1]);
        }
        assert(planned(ms[0], config) == Some(StepView::Skip));
        lemma_run_of_skipped(t, rest, config);
    }
}

/// Once every marker file of a tree has been migrated, the marker files left
/// are only exempt ones; a second run over the marker files that remain
/// changes nothing. (Where no directory of a marker has the stem `mod`, so
/// that no move creates a new `mod.rs`.)
pub proof fn lemma_flat_state_is_stable(t: Tree, first: Seq<PathView>, second: Seq<PathView>, config: Config)
    requires
        forall|p: PathView| #[trigger] markers_of(t).contains(p) ==> first.contains(p),
        run(t, first, config) is Some,
        targets_avoid_marker_name(first),
        forall|i: int| 0 <= i < second.len() ==> markers_of(run(t, first, config).unwrap()).contains(
            #[trigger] second[i],
        ),
    ensures
        forall|p: PathView| #[trigger]
            markers_of(run(t, first, config).unwrap()).contains(p) ==> markers_of(t).contains(p)
                && exempt(p, config),
        run(run(t, first, config).unwrap(), second, config) == run(t, first, config),
{
    let after = run(t, first, config).unwrap();
    lemma_run_markers(t, first, config);
    assert forall|i: int| 0 <= i < second.len() implies planned(#[trigger] second[i], config) == Some(
        StepView::Skip,
    ) by {
        assert(markers_of(after).contains(second[i]));
    }
    lemma_run_of_skipped(after, second, config);
}

/// The sibling file that the marker's directory collapses into.
pub open spec fn target_of(marker: PathView) -> PathView {
    with_rs_extension(marker.drop_last())
}

/// The moves of the sequence do not collide: the markers are distinct, no two
/// share a destination, and no destination or directory of one is another's
/// marker file or directory.
pub open spec fn moves_apart(ms: Seq<PathView>) -> bool {
    &&& forall|i: int, j: int|
        0 <= i < ms.len() && 0 <= j < ms.len() && i != j ==> #[trigger] ms[i] != #[trigger] ms[j]
            && target_of(ms[i]) != target_of(ms[j])
    &&& forall|i: int, j: int|
        0 <= i < ms.len() && 0 <= j < ms.len() ==> target_of(#[trigger] ms[i]) != (#[trigger] ms[j]).drop_last()
            && ms[i].drop_last() != ms[j]
}

proof fn lemma_run_frame(t: Tree, ms: Seq<PathView>, config: Config, k: PathView)
    requires
        run(t, ms, config) is Some,
        forall|j: int|
            0 <= j < ms.len() ==> k != #[trigger] ms[j] && k != target_of(ms[j]) && k != ms[j].drop_last(),
    ensures
        run(t, ms, config).unwrap().contains_key(k) == t.contains_key(k),
        t.contains_key(k) ==> run(t, ms, config).unwrap()[k] == t[k],
    decreases ms.len(),
{
    if ms.len() > 0 {
        let rest = ms.drop_first();
        let t1 = apply_step(t, planned(ms[0], config).unwrap());
        assert(k != ms[0] && k != target_of(ms[0]) && k != ms[0].drop_last());
        assert forall|j: int| 0 <= j < rest.len() implies k != #[trigger] rest[j] && k != target_of(rest[j])
            && k != rest[j].drop_last() by {
            assert(rest[j] == ms[j + 1]);
        }
        lemma_run_frame(t1, rest, config, k);
    }
}

/// After a run over marker files whose moves do not collide, each marker file
/// that is not exempt is gone and its content sits in the sibling file named
/// after its directory.
pub proof fn lemma_run_places_every_marker(t: Tree, ms: Seq<PathView>, config: Config)
    requires
        run(t, ms, config) is Some,
        targets_avoid_marker_name(ms),
        moves_apart(ms),
        forall|i: int| 0 <= i < ms.len() ==> t.contains_key(#[trigger] ms[i]) && names_marker(ms[i]),
    ensures
        forall|i: int|
            0 <= i < ms.len() && !exempt(#[trigger] ms[i], config) ==> {
                let after = run(t, ms, config).unwrap();
                &&& after.contains_key(target_of(ms[i]))
                &&& after[target_of(ms[i])] == t[ms[i]]
                &&& !after.contains_key(ms[i])
            },
    decreases ms.len(),
{
    if ms.len() > 0 {
        let m0 = ms[0];
        let rest = ms.drop_first();
        let s0 = planned(m0, config).unwrap();
        let t1 = apply_step(t, s0);
        let after = run(t, ms, config).unwrap();
        assert(after == run(t1, rest, config).unwrap());
        assert(targets_avoid_marker_name(rest)) by {
            assert forall|i: int| 0 <= i < rest.len() implies !names_marker(
                with_rs_extension(#[trigger] rest[i].drop_last()),
            ) by {
                assert(rest[i] == ms[i + 1]);
            }
        }
        assert(moves_apart(rest)) by {
            assert forall|i: int, j: int|
                0 <= i < rest.len() && 0 <= j < rest.len() && i != j implies #[trigger] rest[i]
                    != #[trigger] rest[j] && target_of(rest[i]) != target_of(rest[j]) by {
                assert(rest[i] == ms[i + 1] && rest[j] == ms[j + 1]);
            }
            assert forall|i: int, j: int|
                0 <= i < rest.len() && 0 <= j < rest.len() implies target_of(#[trigger] rest[i])
                    != (#[trigger] rest[j]).drop_last() && rest[i].drop_last() != rest[j] by {
                assert(rest[i] == ms[i + 1] && rest[j] == ms[j + 1]);
            }
        }
        assert forall|i: int| 0 <= i < rest.len() implies t1.contains_key(#[trigger] rest[i])
            && names_marker(rest[i]) && t1[rest[i]] == t[rest[i]] by {
            assert(rest[i] == ms[i + 1]);
            assert(ms[i + 1] != ms[0]);
            assert(target_of(ms[0]) != ms[i + 1]) by {
                assert(!names_marker(target_of(ms[0])));
            }
            assert(ms[0].drop_last() != ms[i + 1]);
        }
        lemma_run_places_every_marker(t1, rest, config);
        if !exempt(m0, config) {
            let target = target_of(m0);
            assert(target != m0.drop_last());
            assert(target.len() == m0.drop_last().len());
            assert(target != m0);
            assert(t1.contains_key(target) && t1[target] == t[m0]);
            assert(!t1.contains_key(m0));
            assert forall|j: int| 0 <= j < rest.len() implies target != #[trigger] rest[j] && target
                != target_of(rest[j]) && target != rest[j].drop_last() by {
                assert(rest[j] == ms[j + 1]);
                assert(!names_marker(target));
            }
            lemma_run_frame(t1, rest, config, target);
            assert forall|j: int| 0 <= j < rest.len() implies m0 != #[trigger] rest[j] && m0
                != target_of(rest[j]) && m0 != rest[j].drop_last() by {
                assert(rest[j] == ms[j + 1]);
                assert(!names_marker(target_of(ms[j + 1])));
            }
            lemma_run_frame(t1, rest, config, m0);
        }
        assert forall|i: int|
            0 <= i < ms.len() && !exempt(#[trigger] ms[i], config) implies {
                &&& after.contains_key(target_of(ms[i]))
                &&& after[target_of(ms[i])] == t[ms[i]]
                &&& !after.contains_key(ms[i])
            } by {
            if i > 0 {
                assert(ms[i] == rest[i - 1]);
            }
        }
    }
}

} // verus!
