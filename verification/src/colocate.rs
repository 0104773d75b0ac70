//! Turning a repository whose git data lies inside the store into one that shares its
//! workspace with git, and back. The library decides what is to be done; the program
//! around it moves the files.

use vstd::prelude::*;
use vstd::string::*;

verus! {

/// What `git_target` holds in a colocated repository.
pub const COLOCATED_GIT_TARGET: &'static str = "../../../.git";

/// What `git_target` holds in a repository that is not colocated.
pub const UNCOLOCATED_GIT_TARGET: &'static str = "git";

/// What the ignore file inside the repository directory holds.
pub const GITIGNORE_CONTENT: &'static str = "/*\n";

/// The arguments of the command.
#[derive(Clone, Copy, Debug, PartialEq, Eq, Structural)]
pub struct GitColocateArgs {
    /// Turn a colocated repository into one that is not.
    pub undo: bool,
}

/// Why the command cannot be carried out.
#[derive(Clone, Copy, Debug, PartialEq, Eq, Structural)]
pub enum ColocateError {
    NotGitBacked,
    AlreadyColocated,
    NotColocated,
}

impl ColocateError {
    /// The message shown to the user.
    pub fn message(&self) -> (s: &'static str)
        ensures
            s@ == match self {
                ColocateError::NotGitBacked => "The repo is not backed by a git repo"@,
                ColocateError::AlreadyColocated => "The repo is already colocated"@,
                ColocateError::NotColocated => "The repo is not colocated"@,
            },
    {
        match self {
            ColocateError::NotGitBacked => "The repo is not backed by a git repo",
            ColocateError::AlreadyColocated => "The repo is already colocated",
            ColocateError::NotColocated => "The repo is not colocated",
        }
    }
}

/// The places that the command touches.
#[derive(Debug)]
pub struct GitRepoPaths {
    /// The git directory of a colocated repository.
    pub colocated: String,
    /// The git directory of a repository that is not colocated.
    pub uncolocated: String,
    /// The file that says where the git directory is.
    pub git_target: String,
    /// The ignore file inside the repository directory.
    pub gitignore: String,
}

/// The path of `name` inside `directory`.
pub open spec fn inside(directory: Seq<char>, name: Seq<char>) -> Seq<char> {
    directory + "/"@ + name
}

/// The path of `name` inside `directory`.
pub fn path_inside(directory: &str, name: &str) -> (path: String)
    ensures
        path@ == inside(directory@, name@),
{
    directory.to_owned().concat("/").concat(name)
}

/// The places that the command touches, for a workspace and the repository directory in
/// it.
pub fn git_repo_paths(workspace_root: &str, repo_path: &str) -> (paths: GitRepoPaths)
    ensures
        paths.colocated@ == inside(workspace_root@, ".git"@),
        paths.uncolocated@ == inside(inside(repo_path@, "store"@), "git"@),
        paths.git_target@ == inside(inside(repo_path@, "store"@), "git_target"@),
        paths.gitignore@ == inside(inside(workspace_root@, ".jj"@), ".gitignore"@),
{
    let store_path = path_inside(repo_path, "store");
    let jj_path = path_inside(workspace_root, ".jj");
    GitRepoPaths {
        colocated: path_inside(workspace_root, ".git"),
        uncolocated: path_inside(store_path.as_str(), "git"),
        git_target: path_inside(store_path.as_str(), "git_target"),
        gitignore: path_inside(jj_path.as_str(), ".gitignore"),
    }
}

/// What is to be done to colocate a repository: the git directory moves into the
/// workspace, stops being bare, and `git_target` points at it.
#[derive(Clone, Copy, Debug, PartialEq, Eq, Structural)]
pub struct ColocatePlan {
    /// Whether the ignore file has to be written: it is kept if there is one.
    pub write_gitignore: bool,
}

/// What is to be done to colocate a repository, or why it cannot be.
pub fn plan_colocate(has_git_backend: bool, colocated_exists: bool, gitignore_exists: bool) -> (r:
    Result<ColocatePlan, ColocateError>)
    ensures
        r == (if !has_git_backend {
            Err::<ColocatePlan, ColocateError>(ColocateError::NotGitBacked)
        } else if colocated_exists {
            Err(ColocateError::AlreadyColocated)
        } else {
            Ok(ColocatePlan { write_gitignore: !gitignore_exists })
        }),
{
    if !has_git_backend {
        Err(ColocateError::NotGitBacked)
    } else if colocated_exists {
        Err(ColocateError::AlreadyColocated)
    } else {
        Ok(ColocatePlan { write_gitignore: !gitignore_exists })
    }
}

/// Whether colocation can be undone, or why it cannot be: the git directory moves back
/// into the store, becomes bare, and `git_target` points at it.
pub fn plan_uncolocate(has_git_backend: bool, colocated_exists: bool) -> (r: Result<
    (),
    ColocateError,
>)
    ensures
        r == (if !has_git_backend {
            Err::<(), ColocateError>(ColocateError::NotGitBacked)
        } else if !colocated_exists {
            Err(ColocateError::NotColocated)
        } else {
            Ok(())
        }),
{
    if !has_git_backend {
        Err(ColocateError::NotGitBacked)
    } else if !colocated_exists {
        Err(ColocateError::NotColocated)
    } else {
        Ok(())
    }
}

} // verus!
