use vstd::prelude::*;

verus! {

/// The closed taxonomy of failures.  Failure origins that arise outside the
/// library (transport, templating, command exit) carry a plain message so the
/// surrounding program can report them through the same type.
#[derive(Debug, PartialEq, Eq)]
pub enum HelmError {
    /// A file or stream operation failed.
    Io(String),
    /// The connection-config template could not be rendered.
    FailedToCreateKubeConfig(String),
    /// A transport-level call to the cluster failed.
    Net(String),
    /// A package-manager command exited with a failure; holds the command.
    CmdFailed(String),
    /// The cluster URL could not be parsed.
    UrlParse(String),
    /// No TLS trust material was given and verification was not explicitly
    /// disabled; connecting insecurely by default is refused.
    NoCaData,
    /// The cluster's listing had an unexpected shape; holds the listing text.
    WrongKubeApiFormat(String),
    /// A desired set named the same release twice; holds the release name.
    DuplicateRelease(String),
}

/// The description of a failure, one line per variant.
pub open spec fn message_spec(e: &HelmError) -> Seq<char> {
    match e {
        HelmError::Io(m) => m@,
        HelmError::FailedToCreateKubeConfig(m) => m@,
        HelmError::Net(m) => m@,
        HelmError::CmdFailed(cmd) => "could not run command `"@ + cmd@ + "`"@,
        HelmError::UrlParse(m) => m@,
        HelmError::NoCaData => "No ca data given and skip_tls_verify = false"@,
        HelmError::WrongKubeApiFormat(_) => "could not parse the cluster's listing"@,
        HelmError::DuplicateRelease(k) => "duplicate release `"@ + k@ + "`"@,
    }
}

impl HelmError {
    /// Renders the failure for a log line or an exit message.
    pub fn message(&self) -> (r: String)
        ensures
            r@ == message_spec(self),
    {
        let mut r = String::new();
        match self {
            HelmError::Io(m) => {
                r.append(m.as_str());
            },
            HelmError::FailedToCreateKubeConfig(m) => {
                r.append(m.as_str());
            },
            HelmError::Net(m) => {
                r.append(m.as_str());
            },
            HelmError::CmdFailed(cmd) => {
                r.append("could not run command `");
                r.append(cmd.as_str());
                r.append("`");
            },
            HelmError::UrlParse(m) => {
                r.append(m.as_str());
            },
            HelmError::NoCaData => {
                r.append("No ca data given and skip_tls_verify = false");
            },
            HelmError::WrongKubeApiFormat(_) => {
                r.append("could not parse the cluster's listing");
            },
            HelmError::DuplicateRelease(k) => {
                r.append("duplicate release `");
                r.append(k.as_str());
                r.append("`");
            },
        }
        proof {
            assert(r@ =~= message_spec(self));
        }
        r
    }
}

} // verus!
