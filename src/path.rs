use vstd::prelude::*;
use vstd::string::*;

verus! {

/// A path held as its components, outermost first.
///
/// A component is a plain name, `.`, `..`, or `/` for the root of an
/// absolute path.
#[derive(Debug)]
pub struct FsPath {
    pub parts: Vec<String>,
}

/// The components of a path, as character sequences.
pub type PathView = Seq<Seq<char>>;

impl View for FsPath {
    type V = PathView;

    open spec fn view(&self) -> PathView {
        self.parts@.map_values(|s: String| s@)
    }
}

pub open spec fn root_component() -> Seq<char> {
    seq!['/']
}

/// A component that names a file or a directory (not `.`, `..` or the root).
pub open spec fn is_plain_name(c: Seq<char>) -> bool {
    c != seq!['.'] && c != seq!['.', '.'] && c != root_component()
}

/// Every path has a parent but the empty path and the root.
pub open spec fn has_parent(p: PathView) -> bool {
    p.len() > 0 && p.last() != root_component()
}

/// The path has a last component that is a plain name.
pub open spec fn has_file_name(p: PathView) -> bool {
    p.len() > 0 && is_plain_name(p.last())
}

/// Index of the last `.` in `s`, or -1 where there is none.
pub open spec fn last_dot(s: Seq<char>) -> int
    decreases s.len(),
{
    if s.len() == 0 {
        -1
    } else if s.last() == '.' {
        s.len() - 1
    } else {
        last_dot(s.drop_last())
    }
}

/// A name without its extension: the part before the last `.`, unless that
/// `.` opens the name (`.hidden` keeps its whole name).
pub open spec fn stem(s: Seq<char>) -> Seq<char> {
    if last_dot(s) > 0 {
        s.take(last_dot(s))
    } else {
        s
    }
}

pub open spec fn rs_suffix() -> Seq<char> {
    seq!['.', 'r', 's']
}

/// The path with the extension of its last component replaced by `rs`;
/// a path without a file name stays as it is.
pub open spec fn with_rs_extension(p: PathView) -> PathView {
    if has_file_name(p) {
        p.drop_last().push(stem(p.last()) + rs_suffix())
    } else {
        p
    }
}

pub open spec fn tests_name() -> Seq<char> {
    seq!['t', 'e', 's', 't', 's']
}

pub open spec fn marker_name() -> Seq<char> {
    seq!['m', 'o', 'd', '.', 'r', 's']
}

/// The last component of the path is the plain name `tests`.
pub open spec fn is_named_tests(p: PathView) -> bool {
    p.len() > 0 && p.last() == tests_name()
}

proof fn lemma_last_dot_bounds(s: Seq<char>)
    ensures
        -1 <= last_dot(s) < s.len(),
        last_dot(s) >= 0 ==> s[last_dot(s)] == '.',
        forall|j: int| last_dot(s) < j < s.len() ==> s[j] != '.',
    decreases s.len(),
{
    if s.len() > 0 && s.last() != '.' {
        let t = s.drop_last();
        lemma_last_dot_bounds(t);
        assert forall|j: int| last_dot(s) < j < s.len() implies s[j] != '.' by {
            if j < t.len() {
                assert(s[j] == t[j]);
            }
        }
    }
}

proof fn lemma_last_dot_at(s: Seq<char>, i: int)
    requires
        0 <= i < s.len(),
        s[i] == '.',
        forall|j: int| i < j < s.len() ==> s[j] != '.',
    ensures
        last_dot(s) == i,
    decreases s.len(),
{
    if s.len() - 1 != i {
        lemma_last_dot_at(s.drop_last(), i);
    }
}

/// Whether two strings hold the same characters.
fn same_text(a: &str, b: &str) -> (r: bool)
    ensures
        r == (a@ == b@),
{
    let n = a.unicode_len();
    if n != b.unicode_len() {
        return false;
    }
    let mut i: usize = 0;
    while i < n
        invariant
            n == a@.len(),
            n == b@.len(),
            i <= n,
            forall|j: int| 0 <= j < i ==> a@[j] == b@[j],
        decreases n - i,
    {
        if a.get_char(i) != b.get_char(i) {
            return false;
        }
        i = i + 1;
    }
    assert(a@ =~= b@);
    true
}

/// Whether a component is the plain name `tests`.
pub fn is_tests_component(c: &String) -> (r: bool)
    ensures
        r == (c@ == tests_name()),
{
    proof {
        reveal_strlit("tests");
        assert("tests"@ =~= tests_name());
    }
    same_text(c.as_str(), "tests")
}

/// Whether a component is the marker name `mod.rs`.
pub fn is_marker_name(c: &String) -> (r: bool)
    ensures
        r == (c@ == marker_name()),
{
    proof {
        reveal_strlit("mod.rs");
        assert("mod.rs"@ =~= marker_name());
    }
    same_text(c.as_str(), "mod.rs")
}

/// Whether a component is a plain name.
pub fn is_plain_component(c: &String) -> (r: bool)
    ensures
        r == is_plain_name(c@),
{
    proof {
        reveal_strlit(".");
        reveal_strlit("..");
        reveal_strlit("/");
        assert("."@ =~= seq!['.']);
        assert(".."@ =~= seq!['.', '.']);
        assert("/"@ =~= root_component());
    }
    let s = c.as_str();
    !(same_text(s, ".") || same_text(s, "..") || same_text(s, "/"))
}

/// A component with its extension replaced by `rs`.
pub fn replace_extension_rs(name: &String) -> (r: String)
    ensures
        r@ == stem(name@) + rs_suffix(),
{
    let s = name.as_str();
    let n = s.unicode_len();
    let mut i: usize = n;
    let mut dot: usize = 0;
    let mut seen: bool = false;
    while i > 0 && !seen
        invariant
            n == s@.len(),
            i <= n,
            seen ==> dot < n && last_dot(s@) == dot,
            !seen ==> forall|j: int| i <= j < n ==> s@[j] != '.',
        decreases i,
    {
        i = i - 1;
        if s.get_char(i) == '.' {
            proof {
                lemma_last_dot_at(s@, i as int);
            }
            dot = i;
            seen = true;
        }
    }
    proof {
        lemma_last_dot_bounds(s@);
        if !seen {
            if last_dot(s@) >= 0 {
                assert(s@[last_dot(s@)] == '.');
            }
            assert(last_dot(s@) == -1);
        }
    }
    let stem_part: &str = if seen && dot > 0 {
        s.substring_char(0, dot)
    } else {
        s
    };
    let mut r = String::from_str(stem_part);
    proof {
        reveal_strlit(".rs");
        assert(".rs"@ =~= rs_suffix());
    }
    r.append(".rs");
    r
}

impl FsPath {
    /// A copy of the path.
    pub fn duplicate(&self) -> (r: FsPath)
        ensures
            r@ == self@,
            r.parts@.len() == self.parts@.len(),
    {
        let parts = self.parts.clone();
        assert(parts@ =~= self.parts@) by {
            assert forall|j: int| 0 <= j < parts@.len() implies parts@[j] == self.parts@[j] by {
                assert(cloned::<String>(self.parts[j], parts[j]));
            }
        }
        FsPath { parts }
    }
    /// The path's parent, where it has one.
    pub fn parent(&self) -> (r: Option<FsPath>)
        ensures
            r is Some <==> has_parent(self@),
            r matches Some(q) ==> q@ == self@.drop_last(),
    {
        let n = self.parts.len();
        if n == 0 {
            return None;
        }
        proof {
            reveal_strlit("/");
            assert("/"@ =~= root_component());
        }
        if same_text(self.parts[n - 1].as_str(), "/") {
            return None;
        }
        let mut parts: Vec<String> = Vec::new();
        let mut i: usize = 0;
        while i < n - 1
            invariant
                n == self.parts@.len(),
                n > 0,
                i <= n - 1,
                parts@.len() == i,
                forall|j: int| 0 <= j < i ==> parts@[j]@ == self.parts@[j]@,
            decreases n - 1 - i,
        {
            parts.push(self.parts[i].clone());
            i = i + 1;
        }
        let q = FsPath { parts };
        assert(q@ =~= self@.drop_last());
        Some(q)
    }

    /// The path with `name` appended as its last component.
    pub fn join(&self, name: &String) -> (r: FsPath)
        ensures
            r@ == self@.push(name@),
    {
        let mut parts = self.duplicate().parts;
        parts.push(name.clone());
        let r = FsPath { parts };
        assert(r@ =~= self@.push(name@));
        r
    }

    /// Whether the last component is the plain name `tests`.
    pub fn is_named_tests(&self) -> (r: bool)
        ensures
            r == is_named_tests(self@),
    {
        let n = self.parts.len();
        if n == 0 {
            false
        } else {
            is_tests_component(&self.parts[n - 1])
        }
    }

    /// The path with the extension of its last component replaced by `rs`.
    pub fn with_rs_extension(&self) -> (r: FsPath)
        ensures
            r@ == with_rs_extension(self@),
    {
        let n = self.parts.len();
        if n == 0 || !is_plain_component(&self.parts[n - 1]) {
            return self.duplicate();
        }
        let mut parts = self.duplicate().parts;
        let last = replace_extension_rs(&self.parts[n - 1]);
        parts.set(n - 1, last);
        let r = FsPath { parts };
        assert(r@ =~= with_rs_extension(self@));
        r
    }
}

} // verus!
