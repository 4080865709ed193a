use crate::entry::{entries_view, Entry};
use crate::render::{render_lines, tree_text};
use vstd::prelude::*;

verus! {

/// The final component of a path, as `std::path::Path::file_name` finds it.
pub uninterp spec fn path_file_name(path: Seq<char>) -> Option<Seq<char>>;

/// Relies on `std::path::Path::file_name`: the final component of the path, if
/// it has one; it depends on the path's text alone. A name taken from a `&str`
/// is valid UTF-8, so the lossy conversion changes nothing.
#[verifier::external_body]
fn file_name_of(path: &str) -> (r: Option<String>)
    ensures
        match r {
            Some(n) => path_file_name(path@) == Some(n@),
            None => path_file_name(path@) is None,
        },
{
    match std::path::Path::new(path).file_name() {
        Some(n) => Some(n.to_string_lossy().into_owned()),
        None => None,
    }
}

/// How the root is named in the header: its base name, or the path itself
/// where it has none (the filesystem root, a path ending in `..`).
pub open spec fn root_label_of(path: Seq<char>) -> Seq<char> {
    match path_file_name(path) {
        Some(n) => n,
        None => path,
    }
}

pub fn root_label(path: &str) -> (r: String)
    ensures
        r@ == root_label_of(path@),
{
    match file_name_of(path) {
        Some(n) => n,
        None => String::from_str(path),
    }
}

/// Why a tree could not be drawn.
#[derive(Debug)]
pub enum TreeError {
    /// The root path does not name an existing directory.
    InvalidRoot(String),
}

pub open spec fn invalid_root_message(path: Seq<char>) -> Seq<char> {
    "Error: Path '"@ + path + "' is not a valid directory."@
}

impl TreeError {
    /// A sentence naming the offending path.
    pub fn message(&self) -> (r: String)
        ensures
            match self {
                TreeError::InvalidRoot(p) => r@ == invalid_root_message(p@),
            },
    {
        match self {
            TreeError::InvalidRoot(p) => {
                let mut m = String::from_str("Error: Path '");
                m.append(p.as_str());
                m.append("' is not a valid directory.");
                m
            },
        }
    }
}

/// Draws the tree under `root_path` from the entries that a depth-first walk of
/// it kept; `root_is_dir` says whether the path named an existing directory.
pub fn build_tree(root_path: &str, root_is_dir: bool, entries: &Vec<Entry>) -> (r: Result<
    String,
    TreeError,
>)
    ensures
        root_is_dir <==> r is Ok,
        match r {
            Ok(t) => t@ == tree_text(root_label_of(root_path@), entries_view(entries@)),
            Err(TreeError::InvalidRoot(p)) => p@ == root_path@,
        },
{
    if !root_is_dir {
        return Err(TreeError::InvalidRoot(String::from_str(root_path)));
    }
    let label = root_label(root_path);
    Ok(render_lines(label.as_str(), entries))
}

} // verus!
