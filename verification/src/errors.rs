//! The failure taxonomy: parse errors, whitelist violations, duplicate
//! address-family conflicts, and invariant-guard violations. Every one of
//! them is fatal for the run; nothing is persisted once one occurs.
use vstd::prelude::*;

use crate::ip::HostsPartFamily;

verus! {

/// A fatal error of a run.
#[derive(Debug)]
pub enum HostsError {
    /// The input text does not match the grammar; holds the unparsed
    /// remainder.
    Parse(String),
    /// An action targeted a hostname that is not whitelisted.
    NotWhitelisted(String),
    /// A define would give one hostname two addresses of the same family.
    DuplicateFamily(String, HostsPartFamily),
    /// A protected mapping's line was structurally altered.
    UntouchableChanged,
    /// A protected mapping appeared or disappeared over the run.
    ProtectedMembershipChanged,
}

/// The text that describes an error: each variant names its cause, and the
/// variants carrying a hostname or remainder embed it verbatim.
pub open spec fn spec_message(e: HostsError) -> Seq<char> {
    match e {
        HostsError::Parse(remainder) => "unable to parse hosts file, remainder: "@ + remainder@,
        HostsError::NotWhitelisted(host) => "HOST \""@ + host@ + "\" not whitelisted!"@,
        HostsError::DuplicateFamily(host, HostsPartFamily::IPv4) => "duplicate entry for host \""@
            + host@ + "\" IPv4"@,
        HostsError::DuplicateFamily(host, HostsPartFamily::IPv6) => "duplicate entry for host \""@
            + host@ + "\" IPv6"@,
        HostsError::UntouchableChanged => "untouchable entry was changed!"@,
        HostsError::ProtectedMembershipChanged => "protected mapping presence changed over the run"@,
    }
}

impl HostsError {
    /// A human-readable description of the error.
    pub fn message(&self) -> (r: String)
        ensures
            r@ == spec_message(*self),
    {
        let mut out = String::new();
        match self {
            HostsError::Parse(remainder) => {
                out.append("unable to parse hosts file, remainder: ");
                out.append(remainder.as_str());
            },
            HostsError::NotWhitelisted(host) => {
                out.append("HOST \"");
                out.append(host.as_str());
                out.append("\" not whitelisted!");
            },
            HostsError::DuplicateFamily(host, family) => {
                out.append("duplicate entry for host \"");
                out.append(host.as_str());
                match family {
                    HostsPartFamily::IPv4 => out.append("\" IPv4"),
                    HostsPartFamily::IPv6 => out.append("\" IPv6"),
                }
            },
            HostsError::UntouchableChanged => {
                out.append("untouchable entry was changed!");
            },
            HostsError::ProtectedMembershipChanged => {
                out.append("protected mapping presence changed over the run");
            },
        }
        proof {
            assert(out@ =~= spec_message(*self));
        }
        out
    }
}

} // verus!
