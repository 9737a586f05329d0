use vstd::prelude::*;

verus! {

/// The ways in which a request on the host list can fail.
#[derive(Debug)]
pub enum HopError {
    HostNotFound(String),
    HostExists(String),
    Config(String),
    /// A failed read or write, with the system's own message.
    Io(String),
    /// A configuration text that could not be read, with the reader's message.
    TomlParse(String),
    /// A configuration that could not be written out, with the writer's message.
    TomlSerialize(String),
    InvalidPort(String),
    SshFailed,
}

/// What an error holds, as text.
pub enum HopErrorView {
    HostNotFound(Seq<char>),
    HostExists(Seq<char>),
    Config(Seq<char>),
    Io(Seq<char>),
    TomlParse(Seq<char>),
    TomlSerialize(Seq<char>),
    InvalidPort(Seq<char>),
    SshFailed,
}

impl View for HopError {
    type V = HopErrorView;

    open spec fn view(&self) -> HopErrorView {
        match self {
            HopError::HostNotFound(s) => HopErrorView::HostNotFound(s@),
            HopError::HostExists(s) => HopErrorView::HostExists(s@),
            HopError::Config(s) => HopErrorView::Config(s@),
            HopError::Io(s) => HopErrorView::Io(s@),
            HopError::TomlParse(s) => HopErrorView::TomlParse(s@),
            HopError::TomlSerialize(s) => HopErrorView::TomlSerialize(s@),
            HopError::InvalidPort(s) => HopErrorView::InvalidPort(s@),
            HopError::SshFailed => HopErrorView::SshFailed,
        }
    }
}

impl HopErrorView {
    /// The message shown to the user for this error.
    pub open spec fn message(self) -> Seq<char> {
        match self {
            HopErrorView::HostNotFound(s) => "Host '"@ + s + "' not found"@,
            HopErrorView::HostExists(s) => "Host '"@ + s + "' already exists"@,
            HopErrorView::Config(s) => "Config error: "@ + s,
            HopErrorView::Io(s) => "IO error: "@ + s,
            HopErrorView::TomlParse(s) => "TOML parse error: "@ + s,
            HopErrorView::TomlSerialize(s) => "TOML serialize error: "@ + s,
            HopErrorView::InvalidPort(s) => "Invalid port number: "@ + s,
            HopErrorView::SshFailed => "SSH command failed"@,
        }
    }
}

fn framed(prefix: &str, s: &String, suffix: &str) -> (r: String)
    ensures
        r@ == prefix@ + s@ + suffix@,
{
    let mut r = String::from_str(prefix);
    r.append(s.as_str());
    r.append(suffix);
    r
}

impl HopError {
    /// The message shown to the user for this error.
    pub fn message(&self) -> (m: String)
        ensures
            m@ == self@.message(),
    {
        proof { reveal_strlit(""); }
        match self {
            HopError::HostNotFound(s) => framed("Host '", s, "' not found"),
            HopError::HostExists(s) => framed("Host '", s, "' already exists"),
            HopError::Config(s) => framed("Config error: ", s, ""),
            HopError::Io(s) => framed("IO error: ", s, ""),
            HopError::TomlParse(s) => framed("TOML parse error: ", s, ""),
            HopError::TomlSerialize(s) => framed("TOML serialize error: ", s, ""),
            HopError::InvalidPort(s) => framed("Invalid port number: ", s, ""),
            HopError::SshFailed => String::from_str("SSH command failed"),
        }
    }
}

} // verus!
