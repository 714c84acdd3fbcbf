//! The command line of the adapter and the checks on the configuration it
//! names.
use crate::config::Config;
use vstd::prelude::*;

verus! {

#[verifier::external_type_specification]
#[verifier::external_body]
pub struct ExPathBuf(std::path::PathBuf);

#[verifier::external_type_specification]
#[verifier::external_body]
pub struct ExIoError(std::io::Error);

/// Why the configuration could not be had.
pub enum CliError {
    /// The configuration file could not be read.
    Io(std::io::Error),
    /// The configuration file is not a valid configuration.
    Deserialize(String),
    /// The configuration breaks a rule.
    Validation(String),
}

/// The command line: the path of the configuration file.
pub struct Cli {
    pub config: std::path::PathBuf,
}

/// For a URL, whether it parses, and then whether it has a scheme, a host
/// and a port.
pub uninterp spec fn uri_parts_of(s: Seq<char>) -> Option<(bool, bool, bool)>;

/// Relies on `http::Uri`'s `FromStr`, `scheme`, `host` and `port`: whether
/// `s` parses as a URI and which of the three parts it has; a function of
/// `s` alone.
#[verifier::external_body]
fn uri_parts(s: &str) -> (r: Option<(bool, bool, bool)>)
    ensures
        r == uri_parts_of(s@),
{
    match s.parse::<http::Uri>() {
        Ok(u) => Some((u.scheme().is_some(), u.host().is_some(), u.port().is_some())),
        Err(_) => None,
    }
}

/// Whether the configuration passes the checks: a SOCKS proxy, where one is
/// set, is a URL with a scheme, a host and a port.
pub open spec fn config_valid(config: Config) -> bool {
    match config.socks_proxy {
        None => true,
        Some(p) => uri_parts_of(p@) matches Some(parts) && parts.0 && parts.1 && parts.2,
    }
}

impl Cli {
    /// Checks a loaded configuration, and hands it back where it passes.
    pub fn check_config(config: Config) -> (r: Result<Config, CliError>)
        ensures
            match r {
                Ok(c) => c == config && config_valid(config),
                Err(CliError::Validation(m)) => {
                    &&& !config_valid(config)
                    &&& config.socks_proxy matches Some(p) && if uri_parts_of(p@) is None {
                        m@ == "Failed to parse socks_proxy url"@
                    } else {
                        m@ == "Make sure socks proxy url contains (scheme,host,port)"@
                    }
                },
                Err(_) => false,
            },
    {
        let verdict = match &config.socks_proxy {
            None => None,
            Some(proxy) => match uri_parts(proxy.as_str()) {
                None => Some("Failed to parse socks_proxy url"),
                Some((scheme, host, port)) => if scheme && host && port {
                    None
                } else {
                    Some("Make sure socks proxy url contains (scheme,host,port)")
                },
            },
        };
        match verdict {
            None => Ok(config),
            Some(message) => Err(CliError::Validation(message.to_owned())),
        }
    }
}

} // verus!
