//! Which file names of an archive may be unpacked below an output directory.
//!
//! A file name of an archive is a relative path. It is unpacked below the
//! output directory if it names no drive and no root, and if it never steps
//! out of the directory it started in.

use vstd::prelude::*;

verus! {

/// A component of a path, by its kind.
#[derive(Debug, Copy, Clone)]
pub enum Part {
    /// A drive or a share.
    Prefix,
    /// The root directory.
    RootDir,
    /// The current directory.
    CurDir,
    /// The parent directory.
    ParentDir,
    /// A name.
    Normal,
}

/// Why a path is not unpacked.
#[derive(Debug, Copy, Clone)]
pub enum PathError {
    /// The path names a drive or a share.
    Prefix,
    /// The path names the root directory.
    RootDir,
    /// The path steps out of the directory it started in.
    AboveOutPath,
    /// The path goes deeper than can be counted.
    DepthOverflow,
}

/// How many directories below its start a path stands after its first `count`
/// components: a name leads one down, the parent directory one up.
pub open spec fn depth(parts: Seq<Part>, count: nat) -> int
    decreases count,
{
    if count == 0 {
        0
    } else {
        depth(parts, (count - 1) as nat) + match parts[count - 1] {
            Part::Normal => 1int,
            Part::ParentDir => -1int,
            _ => 0int,
        }
    }
}

/// What is wrong with component `index` of a path, if anything: it is a drive
/// or the root, it leads up from the directory the path started in, or it
/// leads deeper than can be counted.
pub open spec fn fault_at(parts: Seq<Part>, index: int) -> Option<PathError> {
    match parts[index] {
        Part::Prefix => Some(PathError::Prefix),
        Part::RootDir => Some(PathError::RootDir),
        Part::CurDir => None,
        Part::ParentDir => if depth(parts, index as nat) == 0 {
            Some(PathError::AboveOutPath)
        } else {
            None
        },
        Part::Normal => if depth(parts, index as nat) == u32::MAX {
            Some(PathError::DepthOverflow)
        } else {
            None
        },
    }
}

/// Whether nothing is wrong with the first `count` components of a path.
pub open spec fn sound_up_to(parts: Seq<Part>, count: int) -> bool {
    forall|i: int| 0 <= i < count ==> (#[trigger] fault_at(parts, i)) is None
}

/// Check the components of a file name, in their order. A name with which
/// nothing is wrong yields the depth at which it ends. Otherwise what is
/// wrong with the first component that is not in order is reported.
pub fn check_path(parts: &[Part]) -> (r: Result<u32, PathError>)
    ensures
        match r {
            Ok(end) => sound_up_to(parts@, parts@.len() as int) && end == depth(
                parts@,
                parts@.len(),
            ),
            Err(error) => exists|i: int|
                0 <= i < parts@.len() && sound_up_to(parts@, i) && #[trigger] fault_at(parts@, i)
                    == Some(error),
        },
{
    let mut level: u32 = 0;
    let mut index: usize = 0;
    while index < parts.len()
        invariant
            index <= parts@.len(),
            level == depth(parts@, index as nat),
            sound_up_to(parts@, index as int),
        decreases parts@.len() - index,
    {
        match parts[index] {
            Part::Prefix => {
                assert(fault_at(parts@, index as int) == Some(PathError::Prefix));
                return Err(PathError::Prefix);
            },
            Part::RootDir => {
                assert(fault_at(parts@, index as int) == Some(PathError::RootDir));
                return Err(PathError::RootDir);
            },
            Part::CurDir => {},
            Part::ParentDir => {
                if level == 0 {
                    assert(fault_at(parts@, index as int) == Some(PathError::AboveOutPath));
                    return Err(PathError::AboveOutPath);
                }
                level = level - 1;
            },
            Part::Normal => {
                if level == u32::MAX {
                    assert(fault_at(parts@, index as int) == Some(PathError::DepthOverflow));
                    return Err(PathError::DepthOverflow);
                }
                level = level + 1;
            },
        }
        assert(fault_at(parts@, index as int) is None);
        index = index + 1;
    }
    Ok(level)
}

/// A path with which nothing is wrong never stands above the directory it
/// started in: after each of its components its depth is not negative.
pub proof fn lemma_sound_path_stays_below(parts: Seq<Part>, count: nat)
    requires
        count <= parts.len(),
        sound_up_to(parts, count as int),
    ensures
        0 <= depth(parts, count) <= count,
    decreases count,
{
    if count > 0 {
        lemma_sound_path_stays_below(parts, (count - 1) as nat);
        assert(fault_at(parts, count - 1) is None);
    }
}

} // verus!
