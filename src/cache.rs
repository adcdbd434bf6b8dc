//! The checksum-gated validity of an artifact's cached directory.
use vstd::prelude::*;
use crate::error::{ProvisionError, ProvisionFault};

verus! {

/// What the filesystem holds at an artifact's target path: nothing, a
/// regular file, or a directory, with whether it holds any entry and the
/// content of its `checksum` marker file, if it has one.
#[derive(Debug)]
pub enum TargetState {
    Missing,
    File,
    Directory { non_empty: bool, marker: Option<String> },
}

/// The mathematical form of a `TargetState`.
pub enum TargetModel {
    Missing,
    File,
    Directory { non_empty: bool, marker: Option<Seq<char>> },
}

impl View for TargetState {
    type V = TargetModel;

    open spec fn view(&self) -> TargetModel {
        match self {
            TargetState::Missing => TargetModel::Missing,
            TargetState::File => TargetModel::File,
            TargetState::Directory { non_empty, marker } => TargetModel::Directory {
                non_empty: *non_empty,
                marker: match marker {
                    Some(m) => Some(m@),
                    None => None,
                },
            },
        }
    }
}

/// Whether a directory in state `t` is a valid copy for `checksum`: it
/// exists, and its marker equals the checksum where one is declared, or it
/// is non-empty where none is.
pub open spec fn cache_valid(t: TargetModel, checksum: Option<Seq<char>>) -> bool {
    match t {
        TargetModel::Directory { non_empty, marker } => match checksum {
            Some(c) => marker == Some(c),
            None => non_empty,
        },
        _ => false,
    }
}

fn same_text(a: &Option<String>, b: &String) -> (r: bool)
    ensures
        r == (match a {
            Some(x) => x@ == b@,
            None => false,
        }),
{
    match a {
        Some(x) => *x == *b,
        None => false,
    }
}

/// Decides whether the directory at `dst`, in state `target`, holds a valid
/// copy of an artifact declared with `checksum`. Without a checksum, a
/// directory that holds any entry is trusted, so that nothing is fetched
/// again needlessly, while a missing or empty one is provisioned. A regular
/// file at `dst` is an error: it is never replaced silently.
pub fn check_valid_dir(dst: &str, target: &TargetState, checksum: &Option<String>) -> (r: Result<
    bool,
    ProvisionError,
>)
    ensures
        target@ is File ==> (r is Err && r->Err_0@ == (ProvisionFault::CacheIo { path: dst@ })),
        !(target@ is File) ==> r == Ok::<bool, ProvisionError>(
            cache_valid(target@, match checksum {
                Some(c) => Some(c@),
                None => None,
            }),
        ),
{
    match target {
        TargetState::Missing => Ok(false),
        TargetState::File => Err(ProvisionError::CacheIo { path: String::from_str(dst) }),
        TargetState::Directory { non_empty, marker } => match checksum {
            None => Ok(*non_empty),
            Some(c) => Ok(same_text(marker, c)),
        },
    }
}

} // verus!
