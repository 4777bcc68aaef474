//! The twelve record families and their tag bytes.

use crate::error::ErrorKind;
use vstd::prelude::*;

verus! {

/// A category of persisted data with a key layout of its own.
#[derive(Clone, Copy, Debug, PartialEq, Eq, Structural)]
pub enum Family {
    Property,
    TermIndex,
    Acl,
    Blob,
    Config,
    LookupValue,
    LookupCounter,
    Directory,
    Queue,
    Index,
    Bitmap,
    Log,
}

impl Family {
    /// The byte that stands for this family in a snapshot.
    pub open spec fn tag_spec(self) -> u8 {
        match self {
            Family::Property => 0,
            Family::TermIndex => 1,
            Family::Acl => 2,
            Family::Blob => 3,
            Family::Config => 4,
            Family::LookupValue => 5,
            Family::LookupCounter => 6,
            Family::Directory => 7,
            Family::Queue => 8,
            Family::Index => 9,
            Family::Bitmap => 10,
            Family::Log => 11,
        }
    }

    /// The family that a tag byte stands for.
    pub open spec fn from_tag(tag: u8) -> Option<Family> {
        if tag == 0 {
            Some(Family::Property)
        } else if tag == 1 {
            Some(Family::TermIndex)
        } else if tag == 2 {
            Some(Family::Acl)
        } else if tag == 3 {
            Some(Family::Blob)
        } else if tag == 4 {
            Some(Family::Config)
        } else if tag == 5 {
            Some(Family::LookupValue)
        } else if tag == 6 {
            Some(Family::LookupCounter)
        } else if tag == 7 {
            Some(Family::Directory)
        } else if tag == 8 {
            Some(Family::Queue)
        } else if tag == 9 {
            Some(Family::Index)
        } else if tag == 10 {
            Some(Family::Bitmap)
        } else if tag == 11 {
            Some(Family::Log)
        } else {
            None
        }
    }

    /// The byte that stands for this family in a snapshot.
    pub fn tag(self) -> (t: u8)
        ensures
            t == self.tag_spec(),
    {
        match self {
            Family::Property => 0,
            Family::TermIndex => 1,
            Family::Acl => 2,
            Family::Blob => 3,
            Family::Config => 4,
            Family::LookupValue => 5,
            Family::LookupCounter => 6,
            Family::Directory => 7,
            Family::Queue => 8,
            Family::Index => 9,
            Family::Bitmap => 10,
            Family::Log => 11,
        }
    }

    /// Reads a family from its tag byte; any byte above 11 is refused with
    /// `UnknownFamily`.
    pub fn try_from(value: u8) -> (r: Result<Family, ErrorKind>)
        ensures
            match Family::from_tag(value) {
                Some(f) => r == Ok::<Family, ErrorKind>(f),
                None => r == Err::<Family, ErrorKind>(ErrorKind::UnknownFamily(value)),
            },
    {
        match value {
            0 => Ok(Family::Property),
            1 => Ok(Family::TermIndex),
            2 => Ok(Family::Acl),
            3 => Ok(Family::Blob),
            4 => Ok(Family::Config),
            5 => Ok(Family::LookupValue),
            6 => Ok(Family::LookupCounter),
            7 => Ok(Family::Directory),
            8 => Ok(Family::Queue),
            9 => Ok(Family::Index),
            10 => Ok(Family::Bitmap),
            11 => Ok(Family::Log),
            other => Err(ErrorKind::UnknownFamily(other)),
        }
    }
}

/// Every family is read back from its own tag, and a byte stands for at most
/// one family: the tag of whatever it is read as is that byte.
pub proof fn lemma_family_tag_round_trip(f: Family, tag: u8)
    ensures
        Family::from_tag(f.tag_spec()) == Some(f),
        f.tag_spec() <= 11,
        Family::from_tag(tag) matches Some(g) ==> g.tag_spec() == tag,
        Family::from_tag(tag) is Some <==> tag <= 11,
{
}

} // verus!
