//! The library's error type and its messages.

use vstd::prelude::*;
use vstd::string::StringExecFns;

verus! {

/// Everything that can stop a build. I/O and template failures carry the
/// text of the underlying error, which the caller that met them supplies.
#[derive(Debug)]
pub enum MangoError {
    Io(String),
    IoPath { path: String, message: String },
    Frontmatter(String),
    General(String),
    Template(String),
    Config(String),
}

impl MangoError {
    /// The text shown to the user for this error.
    pub open spec fn display(&self) -> Seq<char> {
        match self {
            MangoError::Io(m) => "Mango I/O Error: "@ + m@,
            MangoError::IoPath { path, message } =>
                "Mango I/O Error at '"@ + path@ + "': "@ + message@,
            MangoError::Frontmatter(m) => "Mango Frontmatter Error: "@ + m@,
            MangoError::General(m) => "Mango Error: "@ + m@,
            MangoError::Template(m) => "Mango Template Error: "@ + m@,
            MangoError::Config(m) => "Mango Config Error: "@ + m@,
        }
    }

    /// An I/O error tied to the file or folder it happened on.
    pub fn io_at(path: &str, message: &str) -> (r: MangoError)
        ensures
            r matches MangoError::IoPath { path: p, message: m } && p@ == path@ && m@ == message@,
    {
        MangoError::IoPath { path: String::from_str(path), message: String::from_str(message) }
    }

    /// The text shown to the user for this error.
    pub fn to_string(&self) -> (r: String)
        ensures
            r@ == self.display(),
    {
        match self {
            MangoError::Io(m) => String::from_str("Mango I/O Error: ").concat(m.as_str()),
            MangoError::IoPath { path, message } => {
                let r = String::from_str("Mango I/O Error at '").concat(path.as_str());
                r.concat("': ").concat(message.as_str())
            },
            MangoError::Frontmatter(m) => String::from_str("Mango Frontmatter Error: ").concat(
                m.as_str(),
            ),
            MangoError::General(m) => String::from_str("Mango Error: ").concat(m.as_str()),
            MangoError::Template(m) => String::from_str("Mango Template Error: ").concat(
                m.as_str(),
            ),
            MangoError::Config(m) => String::from_str("Mango Config Error: ").concat(m.as_str()),
        }
    }

    /// A frontmatter error met while reading `file` names the file in front of
    /// its message; every other error is returned unchanged.
    pub fn in_file(self, file: &str) -> (r: MangoError)
        ensures
            match self {
                MangoError::Frontmatter(m) => r matches MangoError::Frontmatter(n) && n@ == file@
                    + ": "@ + m@,
                _ => r == self,
            },
    {
        match self {
            MangoError::Frontmatter(m) => MangoError::Frontmatter(
                String::from_str(file).concat(": ").concat(m.as_str()),
            ),
            other => other,
        }
    }
}

/// The error for a command that exists but does nothing yet.
pub fn not_implemented(command: &str) -> (r: MangoError)
    ensures
        r matches MangoError::General(m) && m@ == "the '"@ + command@
            + "' command is not implemented yet"@,
{
    MangoError::General(
        String::from_str("the '").concat(command).concat("' command is not implemented yet"),
    )
}

} // verus!
