//! Where a patched dependency comes from, and the inline value that says so.
use vstd::prelude::*;
use vstd::string::*;

verus! {

/// Which commit of a git repository to take.
#[derive(Debug, Clone, PartialEq, Eq)]
pub enum GitReference {
    Tag(String),
    Branch(String),
    Rev(String),
    DefaultBranch,
}

/// A local directory or a git repository.
#[derive(Debug, Clone, PartialEq, Eq)]
pub enum Mode {
    /// A path, relative to the directory the command was run in, or absolute.
    Path(String),
    Git { url: String, reference: GitReference },
}

/// Errors of a manifest edit.
#[derive(Debug, Clone, PartialEq, Eq)]
pub enum PatchError {
    /// The manifest is not valid TOML; the parser's message.
    InvalidDocument(String),
    /// This key was expected to hold a table and holds something else.
    SchemaConflict(String),
    /// The inline value built for an entry does not parse.
    UnparseableGeneratedValue,
    /// No relative path leads from the manifest's directory to the target.
    PathDiffInvariantViolation,
}

/// What an error says, with the parser's message left out.
pub enum Failure {
    InvalidDocument,
    SchemaConflict(Seq<char>),
    UnparseableGeneratedValue,
    PathDiffInvariantViolation,
}

impl View for PatchError {
    type V = Failure;

    open spec fn view(&self) -> Failure {
        match self {
            PatchError::InvalidDocument(_) => Failure::InvalidDocument,
            PatchError::SchemaConflict(k) => Failure::SchemaConflict(k@),
            PatchError::UnparseableGeneratedValue => Failure::UnparseableGeneratedValue,
            PatchError::PathDiffInvariantViolation => Failure::PathDiffInvariantViolation,
        }
    }
}

/// Whether two strings name the same path, compared component by component
/// (`/w/` and `/w` are the same).
pub uninterp spec fn same_path(a: Seq<char>, b: Seq<char>) -> bool;

/// Relies on `std::path::Path`'s `==`, which compares paths by their
/// components; a path equals itself.
#[verifier::external_body]
fn paths_equal(a: &str, b: &str) -> (r: bool)
    ensures
        r == same_path(a@, b@),
        a@ == b@ ==> r,
{
    std::path::Path::new(a) == std::path::Path::new(b)
}

/// The path `tail` taken from directory `base`.
pub uninterp spec fn joined_path(base: Seq<char>, tail: Seq<char>) -> Seq<char>;

/// The relative path from directory `base` to `path`, where there is one.
pub uninterp spec fn relative_path_of(path: Seq<char>, base: Seq<char>) -> Option<Seq<char>>;

/// Relies on `std::path::Path::join`, the result shown with `Path::display`.
#[verifier::external_body]
fn join_path(base: &str, tail: &str) -> (r: String)
    ensures
        r@ == joined_path(base@, tail@),
{
    std::path::Path::new(base).join(tail).display().to_string()
}

/// Relies on `pathdiff::diff_paths`, the result shown with `Path::display`.
#[verifier::external_body]
fn diff_paths(path: &str, base: &str) -> (r: Option<String>)
    ensures
        r is Some <==> relative_path_of(path@, base@) is Some,
        r is Some ==> r->Some_0@ == relative_path_of(path@, base@)->Some_0,
{
    pathdiff::diff_paths(path, base).map(|p| p.display().to_string())
}

/// The path written into the manifest for `target`: the target itself where
/// the command runs in the manifest's directory (the same path, however
/// written), else the relative path from the manifest's directory to the
/// target.
pub open spec fn resolved_path(working_dir: Seq<char>, manifest_dir: Seq<char>, target: Seq<char>) -> Option<
    Seq<char>,
> {
    if same_path(working_dir, manifest_dir) {
        Some(target)
    } else {
        relative_path_of(joined_path(working_dir, target), manifest_dir)
    }
}

/// Resolves `target`, given relative to `working_dir`, against the manifest's
/// directory. Both directories are taken as given: making them canonical is
/// the caller's part.
pub fn resolve_path(working_dir: &str, manifest_dir: &str, target: &str) -> (r: Result<
    String,
    PatchError,
>)
    ensures
        r is Ok <==> resolved_path(working_dir@, manifest_dir@, target@) is Some,
        r is Ok ==> r->Ok_0@ == resolved_path(working_dir@, manifest_dir@, target@)->Some_0,
        r is Err ==> r->Err_0@ == Failure::PathDiffInvariantViolation,
        same_path(working_dir@, manifest_dir@) ==> r is Ok && r->Ok_0@ == target@,
        working_dir@ == manifest_dir@ ==> r is Ok && r->Ok_0@ == target@,
{
    if paths_equal(working_dir, manifest_dir) {
        Ok(String::from_str(target))
    } else {
        let joined = join_path(working_dir, target);
        match diff_paths(joined.as_str(), manifest_dir) {
            Some(p) => Ok(p),
            None => Err(PatchError::PathDiffInvariantViolation),
        }
    }
}

/// `, tag = "..."` and the like; nothing for the default branch.
pub open spec fn reference_text(r: GitReference) -> Seq<char> {
    match r {
        GitReference::Tag(t) => ", tag = \""@ + t@ + "\""@,
        GitReference::Branch(b) => ", branch = \""@ + b@ + "\""@,
        GitReference::Rev(v) => ", rev = \""@ + v@ + "\""@,
        GitReference::DefaultBranch => Seq::empty(),
    }
}

/// `{ path = "..." }`.
pub open spec fn path_source_text(path: Seq<char>) -> Seq<char> {
    "{ path = \""@ + path + "\" }"@
}

/// `{ git = "..." }`, with the reference before the closing brace.
pub open spec fn git_source_text(url: Seq<char>, reference: GitReference) -> Seq<char> {
    "{ git = \""@ + url + "\""@ + reference_text(reference) + " }"@
}

/// The inline value for a git source. Nothing is escaped: the url and the
/// reference are written between quotes as they are.
pub fn git_source(url: &str, reference: &GitReference) -> (r: String)
    ensures
        r@ == git_source_text(url@, *reference),
{
    let mut s = String::from_str("{ git = \"");
    s.append(url);
    s.append("\"");
    match reference {
        GitReference::Tag(t) => {
            s.append(", tag = \"");
            s.append(t.as_str());
            s.append("\"");
        },
        GitReference::Branch(b) => {
            s.append(", branch = \"");
            s.append(b.as_str());
            s.append("\"");
        },
        GitReference::Rev(v) => {
            s.append(", rev = \"");
            s.append(v.as_str());
            s.append("\"");
        },
        GitReference::DefaultBranch => {},
    }
    s.append(" }");
    s
}

/// The inline value for a path source, written as it is.
pub fn path_source(path: &str) -> (r: String)
    ensures
        r@ == path_source_text(path@),
{
    let mut s = String::from_str("{ path = \"");
    s.append(path);
    s.append("\" }");
    s
}

/// The text of the value that a patch entry gets for `mode`, where the path of
/// a local source resolves.
pub open spec fn source_text(working_dir: Seq<char>, manifest_dir: Seq<char>, mode: Mode) -> Option<
    Seq<char>,
> {
    match mode {
        Mode::Path(p) => match resolved_path(working_dir, manifest_dir, p@) {
            Some(rp) => Some(path_source_text(rp)),
            None => None,
        },
        Mode::Git { url, reference } => Some(git_source_text(url@, reference)),
    }
}

/// Builds the text of the value that a patch entry gets for `mode`.
pub fn source(working_dir: &str, manifest_dir: &str, mode: &Mode) -> (r: Result<String, PatchError>)
    ensures
        r is Ok <==> source_text(working_dir@, manifest_dir@, *mode) is Some,
        r is Ok ==> r->Ok_0@ == source_text(working_dir@, manifest_dir@, *mode)->Some_0,
        r is Err ==> r->Err_0@ == Failure::PathDiffInvariantViolation,
        mode is Path && working_dir@ == manifest_dir@ ==> r is Ok && r->Ok_0@ == path_source_text(
            mode->Path_0@,
        ),
{
    match mode {
        Mode::Path(p) => {
            let rp = resolve_path(working_dir, manifest_dir, p.as_str())?;
            Ok(path_source(rp.as_str()))
        },
        Mode::Git { url, reference } => Ok(git_source(url.as_str(), reference)),
    }
}

} // verus!
