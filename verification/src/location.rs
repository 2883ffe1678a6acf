//! Sides of the comparison and side-tagged paths.

use std::path::PathBuf;
use vstd::prelude::*;

verus! {

/// `std::path::PathBuf`, carried through the library as an opaque value: the
/// library moves paths around and never looks inside one.
#[verifier::external_type_specification]
#[verifier::external_body]
pub struct ExPathBuf(std::path::PathBuf);

/// `PathBuf::clone`: the copy equals the path it was made from.
pub assume_specification[ <std::path::PathBuf as std::clone::Clone>::clone ](
    path: &std::path::PathBuf,
) -> (copy: std::path::PathBuf)
    ensures
        copy == *path,
;

/// Which comparison group a path belongs to.
#[derive(Clone, Copy, Debug, PartialEq, Eq, Structural)]
pub enum Side {
    Left,
    Right,
}

/// A path together with the side it was found on.
#[derive(Clone, Debug)]
pub enum PathLocation {
    Left(PathBuf),
    Right(PathBuf),
}

impl PathLocation {
    /// The side this location is tagged with.
    pub open spec fn side_of(self) -> Side {
        match self {
            PathLocation::Left(_) => Side::Left,
            PathLocation::Right(_) => Side::Right,
        }
    }

    /// The path this location holds.
    pub open spec fn path_of(self) -> PathBuf {
        match self {
            PathLocation::Left(p) => p,
            PathLocation::Right(p) => p,
        }
    }

    /// The location of `path` on `side`.
    pub open spec fn on(side: Side, path: PathBuf) -> PathLocation {
        match side {
            Side::Left => PathLocation::Left(path),
            Side::Right => PathLocation::Right(path),
        }
    }

    /// Tags `path` as belonging to the left side.
    pub fn new_left(path: PathBuf) -> (loc: PathLocation)
        ensures
            loc == PathLocation::Left(path),
    {
        PathLocation::Left(path)
    }

    /// Tags `path` as belonging to the right side.
    pub fn new_right(path: PathBuf) -> (loc: PathLocation)
        ensures
            loc == PathLocation::Right(path),
    {
        PathLocation::Right(path)
    }

    /// Tags `path` with the given side.
    pub fn new_on(side: Side, path: PathBuf) -> (loc: PathLocation)
        ensures
            loc == PathLocation::on(side, path),
    {
        match side {
            Side::Left => PathLocation::Left(path),
            Side::Right => PathLocation::Right(path),
        }
    }

    /// Tags `path` with the side of `other`.
    pub fn new_same_side(other: &PathLocation, path: PathBuf) -> (loc: PathLocation)
        ensures
            loc == PathLocation::on(other.side_of(), path),
    {
        match other {
            PathLocation::Left(_) => PathLocation::Left(path),
            PathLocation::Right(_) => PathLocation::Right(path),
        }
    }

    /// The path, without its tag.
    pub fn path(&self) -> (p: &PathBuf)
        ensures
            *p == self.path_of(),
    {
        match self {
            PathLocation::Left(path) => path,
            PathLocation::Right(path) => path,
        }
    }

    /// The side, without the path.
    pub fn side(&self) -> (s: Side)
        ensures
            s == self.side_of(),
    {
        match self {
            PathLocation::Left(_) => Side::Left,
            PathLocation::Right(_) => Side::Right,
        }
    }

    /// Takes the path out of the location.
    pub fn into_path(self) -> (p: PathBuf)
        ensures
            p == self.path_of(),
    {
        match self {
            PathLocation::Left(path) => path,
            PathLocation::Right(path) => path,
        }
    }

    /// A copy of this location: same side, equal path.
    pub fn duplicate(&self) -> (copy: PathLocation)
        ensures
            copy == *self,
    {
        match self {
            PathLocation::Left(path) => PathLocation::Left(path.clone()),
            PathLocation::Right(path) => PathLocation::Right(path.clone()),
        }
    }
}

} // verus!
