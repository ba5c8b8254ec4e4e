use vstd::prelude::*;
use vstd::string::*;

use crate::config::Config;
use crate::path::{has_parent, is_named_tests, with_rs_extension, FsPath, PathView};

verus! {

/// Why a marker file cannot be migrated.
#[derive(Clone, Copy, Debug, PartialEq, Eq, Structural)]
pub enum MigrateError {
    /// The marker file, or the directory holding it, has no parent directory.
    MissingParent,
}

impl MigrateError {
    /// A message for people.
    pub fn message(&self) -> (r: String)
        ensures
            r@ == "Missing parent"@,
    {
        String::from_str("Missing parent")
    }
}

/// What to do with one marker file.
#[derive(Debug)]
pub enum MoveStep {
    /// Leave the marker file and its directory as they are.
    Skip,
    /// Copy `source` to `target`, delete `source`, then, when
    /// `remove_if_empty` holds, remove `dir` if it has no entries left.
    Move { source: FsPath, target: FsPath, dir: FsPath, remove_if_empty: bool },
}

/// A step over path views.
pub ghost enum StepView {
    Skip,
    Move { source: PathView, target: PathView, dir: PathView, remove_if_empty: bool },
}

impl View for MoveStep {
    type V = StepView;

    open spec fn view(&self) -> StepView {
        match self {
            MoveStep::Skip => StepView::Skip,
            MoveStep::Move { source, target, dir, remove_if_empty } => StepView::Move {
                source: source@,
                target: target@,
                dir: dir@,
                remove_if_empty: *remove_if_empty,
            },
        }
    }
}

/// The marker sits in a directory whose own parent is named `tests`, and that
/// directory is spared.
pub open spec fn exempt(marker: PathView, config: Config) -> bool {
    !config.no_special_treatment_for_tests_dir && is_named_tests(marker.drop_last().drop_last())
}

/// The step for `marker`, or `None` where a parent that the step needs is
/// missing.
pub open spec fn planned(marker: PathView, config: Config) -> Option<StepView> {
    if !has_parent(marker) {
        None
    } else if !config.no_special_treatment_for_tests_dir && !has_parent(marker.drop_last()) {
        None
    } else if exempt(marker, config) {
        Some(StepView::Skip)
    } else {
        let dir = marker.drop_last();
        Some(
            StepView::Move {
                source: marker,
                target: with_rs_extension(dir),
                dir,
                remove_if_empty: !config.leave_empty_dirs,
            },
        )
    }
}

/// Decides what to do with one marker file.
///
/// Its directory is collapsed into a sibling file named after it with the
/// extension `rs`, unless the directory's parent is named `tests` and that
/// name is given its special treatment.
pub fn plan_move(marker: &FsPath, config: &Config) -> (r: Result<MoveStep, MigrateError>)
    ensures
        match r {
            Ok(step) => planned(marker@, *config) == Some(step@),
            Err(e) => planned(marker@, *config) is None && e == MigrateError::MissingParent,
        },
{
    let dir = match marker.parent() {
        Some(d) => d,
        None => return Err(MigrateError::MissingParent),
    };
    if !config.no_special_treatment_for_tests_dir {
        let grandparent = match dir.parent() {
            Some(g) => g,
            None => return Err(MigrateError::MissingParent),
        };
        if grandparent.is_named_tests() {
            return Ok(MoveStep::Skip);
        }
    }
    let target = dir.with_rs_extension();
    Ok(MoveStep::Move { source: marker.duplicate(), target, dir, remove_if_empty: !config.leave_empty_dirs })
}

} // verus!
