//! The error kinds that the library reports.
use vstd::prelude::*;
use vstd::string::*;

verus! {

/// What went wrong.
///
/// Failures of the file system, of the network and of the parsers of
/// outside formats are not part of this enum: the library itself never
/// touches any of them.
#[derive(Clone, Debug, PartialEq, Eq)]
pub enum ErrorKind {
    /// The requested SDK is not present locally.
    UnknownSdk,
    /// The architecture name is not a known one.
    UnknownArchitecture(String),
    /// The object holds no slice for the architecture.
    MissingArchitecture(String),
    /// The header of a memdb file names a version other than the supported one.
    UnsupportedMemDbVersion,
    /// A bound or an invariant of a memdb file is violated.
    BadMemDb,
    /// The data cannot be held by the memdb format: it does not fit into
    /// the fixed-width fields, or a name holds the zero byte that ends
    /// names in the file.
    MemDbLimit,
    /// The compression of a memdb failed.
    CompressionFailed,
    /// A configuration key holds a value that cannot be used.
    BadConfigKey(&'static str, &'static str),
    /// A required configuration key is absent.
    MissingConfigKey(&'static str),
    /// An environment variable holds a value that cannot be used.
    BadEnvVar(&'static str, &'static str),
    /// The object store could not be reached.
    S3Unavailable(String),
}

impl ErrorKind {
    /// A short, fixed description of the kind of error.
    pub fn description(&self) -> (r: &'static str)
        ensures
            r@ == self.spec_description(),
    {
        match self {
            ErrorKind::UnknownSdk => "unknown SDK",
            ErrorKind::UnknownArchitecture(_) => "unknown architecture",
            ErrorKind::MissingArchitecture(_) => "missing architecture",
            ErrorKind::UnsupportedMemDbVersion => "unsupported memdb version",
            ErrorKind::BadMemDb => "bad memdb file",
            ErrorKind::MemDbLimit => "data exceeds the limits of the memdb format",
            ErrorKind::CompressionFailed => "failed to compress the memdb",
            ErrorKind::BadConfigKey(_, _) => "encountered a bad config key",
            ErrorKind::MissingConfigKey(_) => "encountered a missing config key",
            ErrorKind::BadEnvVar(_, _) => "bad environment variable",
            ErrorKind::S3Unavailable(_) => "S3 is unavailable",
        }
    }

    /// The text that `description` returns.
    pub open spec fn spec_description(&self) -> Seq<char> {
        match self {
            ErrorKind::UnknownSdk => "unknown SDK"@,
            ErrorKind::UnknownArchitecture(_) => "unknown architecture"@,
            ErrorKind::MissingArchitecture(_) => "missing architecture"@,
            ErrorKind::UnsupportedMemDbVersion => "unsupported memdb version"@,
            ErrorKind::BadMemDb => "bad memdb file"@,
            ErrorKind::MemDbLimit => "data exceeds the limits of the memdb format"@,
            ErrorKind::CompressionFailed => "failed to compress the memdb"@,
            ErrorKind::BadConfigKey(_, _) => "encountered a bad config key"@,
            ErrorKind::MissingConfigKey(_) => "encountered a missing config key"@,
            ErrorKind::BadEnvVar(_, _) => "bad environment variable"@,
            ErrorKind::S3Unavailable(_) => "S3 is unavailable"@,
        }
    }

    /// The message shown to a user: the description, followed by the
    /// detail that the error carries.
    pub open spec fn spec_message(&self) -> Seq<char> {
        match self {
            ErrorKind::UnknownArchitecture(arch) => "unknown architecture: '"@ + arch@ + "'"@,
            ErrorKind::MissingArchitecture(arch) => "missing architecture: '"@ + arch@ + "'"@,
            ErrorKind::BadConfigKey(path, msg) => "config key '"@ + path@ + "' has a bad value: "@
                + msg@,
            ErrorKind::MissingConfigKey(path) => "encountered missing config key '"@ + path@ + "'"@,
            ErrorKind::BadEnvVar(path, msg) => "bad environment variable '"@ + path@ + "': "@
                + msg@,
            ErrorKind::S3Unavailable(msg) => "S3 is unavailable: "@ + msg@,
            _ => self.spec_description(),
        }
    }

    /// The message shown to a user.
    pub fn message(&self) -> (r: String)
        ensures
            r@ == self.spec_message(),
    {
        match self {
            ErrorKind::UnknownArchitecture(arch) => {
                let mut s = String::from_str("unknown architecture: '");
                s.append(arch.as_str());
                s.append("'");
                s
            },
            ErrorKind::MissingArchitecture(arch) => {
                let mut s = String::from_str("missing architecture: '");
                s.append(arch.as_str());
                s.append("'");
                s
            },
            ErrorKind::BadConfigKey(path, msg) => {
                let mut s = String::from_str("config key '");
                s.append(path);
                s.append("' has a bad value: ");
                s.append(msg);
                s
            },
            ErrorKind::MissingConfigKey(path) => {
                let mut s = String::from_str("encountered missing config key '");
                s.append(path);
                s.append("'");
                s
            },
            ErrorKind::BadEnvVar(path, msg) => {
                let mut s = String::from_str("bad environment variable '");
                s.append(path);
                s.append("': ");
                s.append(msg);
                s
            },
            ErrorKind::S3Unavailable(msg) => {
                let mut s = String::from_str("S3 is unavailable: ");
                s.append(msg.as_str());
                s
            },
            _ => String::from_str(self.description()),
        }
    }
}

} // verus!
