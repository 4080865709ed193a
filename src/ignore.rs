use vstd::prelude::*;

verus! {

/// Whether `name` is one of the names in `ignore` (compared exactly, case
/// included).
pub open spec fn names_contain(ignore: Seq<String>, name: Seq<char>) -> bool {
    exists|i: int| 0 <= i < ignore.len() && #[trigger] ignore[i]@ == name
}

/// The conventional names left out of a tree unless the caller says otherwise,
/// in ascending order of their characters.
pub open spec fn default_ignore_names() -> Seq<Seq<char>> {
    seq![
        ".DS_Store"@,
        ".git"@,
        ".vscode"@,
        "__pycache__"@,
        "build"@,
        "dist"@,
        "node_modules"@,
        "target"@,
        "venv"@,
    ]
}

/// The default ignore list: version-control metadata, editor settings,
/// dependency caches and build output, sorted.
pub fn get_default_ignore_list() -> (r: Vec<String>)
    ensures
        r@.map_values(|s: String| s@) == default_ignore_names(),
{
    let mut r: Vec<String> = Vec::new();
    r.push(String::from_str(".DS_Store"));
    r.push(String::from_str(".git"));
    r.push(String::from_str(".vscode"));
    r.push(String::from_str("__pycache__"));
    r.push(String::from_str("build"));
    r.push(String::from_str("dist"));
    r.push(String::from_str("node_modules"));
    r.push(String::from_str("target"));
    r.push(String::from_str("venv"));
    assert(r@.map_values(|s: String| s@) =~= default_ignore_names());
    r
}

/// Whether an entry called `name` is to be left out, with all that lies
/// beneath it.
pub fn is_ignored(name: &String, ignore: &Vec<String>) -> (r: bool)
    ensures
        r == names_contain(ignore@, name@),
{
    let mut i: usize = 0;
    while i < ignore.len()
        invariant
            0 <= i <= ignore.len(),
            forall|j: int| 0 <= j < i ==> ignore@[j]@ != name@,
        decreases ignore.len() - i,
    {
        if ignore[i].eq(name) {
            return true;
        }
        i = i + 1;
    }
    false
}

} // verus!
