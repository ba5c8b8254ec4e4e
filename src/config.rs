use vstd::prelude::*;

verus! {

/// Options that govern one migration run; read once and never changed.
#[derive(Clone, Copy, Debug, PartialEq, Eq, Structural)]
pub struct Config {
    /// Symlinks are walked into as if they were directories.
    pub follow_symlinks: bool,
    /// Directories that end up empty are kept.
    pub leave_empty_dirs: bool,
    /// Directories whose parent is named `tests` are migrated like any other.
    pub no_special_treatment_for_tests_dir: bool,
}

impl Default for Config {
    /// All options off.
    fn default() -> (r: Config)
        ensures
            !r.follow_symlinks,
            !r.leave_empty_dirs,
            !r.no_special_treatment_for_tests_dir,
    {
        Config::new(false, false, false)
    }
}

impl Config {
    pub fn new(follow_symlinks: bool, leave_empty_dirs: bool, no_special_treatment_for_tests_dir: bool) -> (r: Config)
        ensures
            r.follow_symlinks == follow_symlinks,
            r.leave_empty_dirs == leave_empty_dirs,
            r.no_special_treatment_for_tests_dir == no_special_treatment_for_tests_dir,
    {
        Config { follow_symlinks, leave_empty_dirs, no_special_treatment_for_tests_dir }
    }
}

} // verus!
