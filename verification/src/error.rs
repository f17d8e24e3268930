//! The failures that reading, writing and merging can report.

use vstd::prelude::*;
use vstd::string::StringExecFns;
use vstd::string::to_string_from_display_ensures;

verus! {

/// `std::io::ErrorKind`, the category of an I/O failure. Declared so that a
/// failure of the underlying stream can be carried through unchanged.
#[verifier::external_type_specification]
pub struct ExErrorKind(std::io::ErrorKind);

/// Why an operation on a dataset failed.
#[derive(Debug, PartialEq, Eq)]
pub enum Error {
    /// The byte stream failed or ended early.
    Io(std::io::ErrorKind),
    /// The bytes do not follow the container format.
    CorruptFile,
    /// Two operands differ in image width, height or bit depth.
    IncompatibleDimensions,
    /// The class table would grow past 65,535 entries.
    ClassLimitExceeded,
    /// A class name is longer than 65,534 bytes.
    ClassLengthLimitExceeded,
}

impl Clone for Error {
    fn clone(&self) -> (copy: Self)
        ensures
            copy == *self,
    {
        match self {
            Error::Io(kind) => Error::Io(*kind),
            Error::CorruptFile => Error::CorruptFile,
            Error::IncompatibleDimensions => Error::IncompatibleDimensions,
            Error::ClassLimitExceeded => Error::ClassLimitExceeded,
            Error::ClassLengthLimitExceeded => Error::ClassLengthLimitExceeded,
        }
    }
}

impl Error {
    /// The failure of a stream that ended before the expected bytes.
    pub open spec fn truncated() -> Error {
        Error::Io(std::io::ErrorKind::UnexpectedEof)
    }

    /// What `text` must be to describe this failure.
    pub open spec fn described_by(self, text: Seq<char>) -> bool {
        match self {
            Error::Io(kind) => exists|shown: String|
                #[trigger] to_string_from_display_ensures::<std::io::ErrorKind>(&kind, shown)
                    && text == "Encountered IO error: "@ + shown@ + "."@,
            Error::CorruptFile => text == "Failed to parse corrupted file."@,
            Error::IncompatibleDimensions => text
                == "Failed to merge due to incompatible dimensions."@,
            Error::ClassLimitExceeded => text
                == "The number of classes in a dataset cannot exceed 65,535."@,
            Error::ClassLengthLimitExceeded => text
                == "The number of bytes in a class name cannot exceed 65,534."@,
        }
    }

    /// A sentence for a person to read.
    pub fn message(&self) -> (text: String)
        ensures
            self.described_by(text@),
    {
        match self {
            Error::Io(kind) => {
                let shown = kind.to_string();
                let mut text = String::from_str("Encountered IO error: ");
                text.append(shown.as_str());
                text.append(".");
                text
            },
            Error::CorruptFile => String::from_str("Failed to parse corrupted file."),
            Error::IncompatibleDimensions => String::from_str(
                "Failed to merge due to incompatible dimensions.",
            ),
            Error::ClassLimitExceeded => String::from_str(
                "The number of classes in a dataset cannot exceed 65,535.",
            ),
            Error::ClassLengthLimitExceeded => String::from_str(
                "The number of bytes in a class name cannot exceed 65,534.",
            ),
        }
    }
}

} // verus!
