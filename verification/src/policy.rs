//! The decisions the copier takes before it touches anything: what to do
//! with one source argument, and what to do with one file.

use vstd::prelude::*;
use crate::paths::FsPath;

verus! {

/// What the engine does with one source file at its mirrored target.
#[derive(PartialEq, Eq, Structural, Debug, Clone, Copy)]
pub enum FileAction {
    /// No file stands at the target: copy the bytes over.
    Fresh,
    /// A file of the same size stands there: treat it as already copied.
    Skip,
    /// A file of another size stands there: remove it and copy anew.
    Replace,
}

/// The size-based skip policy: given the source file's size and what the
/// destination holds at the target, the action follows.
pub fn plan_file(src_size: usize, dest_size: Option<usize>) -> (r: FileAction)
    ensures
        match dest_size {
            Option::None => r == FileAction::Fresh,
            Option::Some(l) => r == if l == src_size {
                FileAction::Skip
            } else {
                FileAction::Replace
            },
        },
{
    match dest_size {
        Option::None => FileAction::Fresh,
        Option::Some(l) => {
            if l == src_size {
                FileAction::Skip
            } else {
                FileAction::Replace
            }
        },
    }
}

/// A configuration failure the orchestrator reports before any copying
/// begins for a source argument.
#[derive(PartialEq, Eq, Structural, Debug, Clone, Copy)]
pub enum ConfigError {
    /// A directory source was given without the recursive flag.
    NeedsRecursiveFlag,
    /// A directory source was given but the destination is no directory.
    DestinationNotDirectory,
}

/// Where the orchestrator sends one source argument.
#[derive(PartialEq, Eq, Structural, Debug, Clone, Copy)]
pub enum Dispatch {
    /// Source and destination resolve to the same object: nothing to do.
    SkipSelf,
    /// A directory source: run the copy engine over its tree.
    CopyDirectory,
    /// A plain file, and the destination is a directory: copy it inside.
    CopyFileInto,
    /// A plain file, and the destination is none: the destination path
    /// itself is the target.
    CopyFileTo,
}

/// The orchestrator's dispatch for one source argument, given the
/// canonical identities of source and destination and what kind of
/// objects they are. A self-copy is skipped; a directory source needs
/// the recursive flag and a directory destination; a plain file goes to
/// the single-file copy.
pub fn plan_source(
    source_canon: u64,
    destination_canon: u64,
    source_is_dir: bool,
    recursive: bool,
    destination_is_dir: bool,
) -> (r: Result<Dispatch, ConfigError>)
    ensures
        (r == Ok::<Dispatch, ConfigError>(Dispatch::SkipSelf)) <==> source_canon
            == destination_canon,
        (r == Err::<Dispatch, ConfigError>(ConfigError::NeedsRecursiveFlag)) <==> (source_canon
            != destination_canon && source_is_dir && !recursive),
        (r == Err::<Dispatch, ConfigError>(ConfigError::DestinationNotDirectory)) <==> (
        source_canon != destination_canon && source_is_dir && recursive && !destination_is_dir),
        (r == Ok::<Dispatch, ConfigError>(Dispatch::CopyDirectory)) <==> (source_canon
            != destination_canon && source_is_dir && recursive && destination_is_dir),
        (r == Ok::<Dispatch, ConfigError>(Dispatch::CopyFileInto)) <==> (source_canon
            != destination_canon && !source_is_dir && destination_is_dir),
        (r == Ok::<Dispatch, ConfigError>(Dispatch::CopyFileTo)) <==> (source_canon
            != destination_canon && !source_is_dir && !destination_is_dir),
{
    if source_canon == destination_canon {
        Ok(Dispatch::SkipSelf)
    } else if source_is_dir {
        if !recursive {
            Err(ConfigError::NeedsRecursiveFlag)
        } else if !destination_is_dir {
            Err(ConfigError::DestinationNotDirectory)
        } else {
            Ok(Dispatch::CopyDirectory)
        }
    } else if destination_is_dir {
        Ok(Dispatch::CopyFileInto)
    } else {
        Ok(Dispatch::CopyFileTo)
    }
}

/// The destination the orchestrator works with when the argument was a
/// bare current-directory mark beside a single source: the source's name
/// under the working directory. Any other argument stands as written.
pub fn default_destination(
    dest: &FsPath,
    dest_is_dot: bool,
    single_source: bool,
    cwd: &FsPath,
    source_name: &String,
) -> (r: FsPath)
    ensures
        r@ == if dest_is_dot && single_source {
            cwd@.push(source_name@)
        } else {
            dest@
        },
{
    if dest_is_dot && single_source {
        cwd.child(source_name)
    } else {
        dest.copy_of()
    }
}

} // verus!
