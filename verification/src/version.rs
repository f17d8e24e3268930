//! The one-byte tag that tells which revision of the format a file follows.

use vstd::prelude::*;
use vstd::string::StringExecFns;
use crate::error::Error;

verus! {

/// A revision of the container format.
///
/// A later revision adds a variant; the bytes of the earlier ones keep their
/// meaning.
#[derive(Clone, Copy, Debug, PartialEq, Eq, Structural)]
pub enum Version {
    /// The first revision, stored as the byte `0`.
    V0,
}

impl Version {
    /// The byte that stands for this revision.
    pub open spec fn tag(self) -> u8 {
        match self {
            Version::V0 => 0,
        }
    }

    /// The revision that `raw` stands for, if it stands for one.
    pub open spec fn of_tag(raw: u8) -> Option<Version> {
        if raw == 0 {
            Some(Version::V0)
        } else {
            None
        }
    }

    /// What reading a revision from the front of `bytes` gives: an early end
    /// of the stream if there is no byte, a corrupt file if the byte stands
    /// for no revision.
    pub open spec fn parse(bytes: Seq<u8>) -> Result<Version, Error> {
        if bytes.len() < 1 {
            Err(Error::truncated())
        } else {
            match Version::of_tag(bytes[0]) {
                Some(version) => Ok(version),
                None => Err(Error::CorruptFile),
            }
        }
    }

    /// The name under which a revision is shown.
    pub open spec fn name(self) -> Seq<char> {
        match self {
            Version::V0 => "v0"@,
        }
    }

    /// Every revision is recovered from its own tag.
    pub proof fn lemma_tag_round_trip(self)
        ensures
            Version::of_tag(self.tag()) == Some(self),
    {
    }

    /// Reads the revision from the first byte of `bytes`.
    pub fn read_from_bytes(bytes: &[u8]) -> (result: Result<Version, Error>)
        ensures
            result == Version::parse(bytes@),
    {
        if bytes.len() < 1 {
            return Err(Error::Io(std::io::ErrorKind::UnexpectedEof));
        }
        match bytes[0] {
            0 => Ok(Version::V0),
            _ => Err(Error::CorruptFile),
        }
    }

    /// Appends the tag of this revision to `out`.
    pub fn write_to_bytes(&self, out: &mut Vec<u8>)
        ensures
            final(out)@ == old(out)@.push(self.tag()),
    {
        let raw: u8 = match self {
            Version::V0 => 0,
        };
        out.push(raw);
    }

    /// The name of this revision, as shown to a person.
    pub fn to_string(&self) -> (name: String)
        ensures
            name@ == self.name(),
    {
        match self {
            Version::V0 => String::from_str("v0"),
        }
    }
}

} // verus!
