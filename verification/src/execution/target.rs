//! Target addressing: which execution backend a target specification
//! selects, and the checks each backend imposes on it.  The URL itself is
//! parsed by an outside crate; everything the selection logic reads is
//! carried over as plain values and the decisions are verified on those.

use vstd::prelude::*;

use crate::error::Error;
use crate::text::str_eq;

verus! {

/// The plain parts of a parsed target URL that target selection reads.
#[derive(Debug)]
pub struct UrlParts {
    pub scheme: String,
    pub host: Option<String>,
    pub username: String,
    pub port: Option<u16>,
}

/// Relies on url::Url::parse and its accessors scheme, host_str, username
/// and port: parsing yields the URL's components as plain strings, or a
/// message saying why the text is not a URL.  A parsed URL always carries a
/// scheme.
#[verifier::external_body]
pub fn parse_target_url(s: &str) -> (r: Result<UrlParts, Error>)
    ensures
        r matches Ok(p) ==> p.scheme@.len() > 0,
{
    match url::Url::parse(s) {
        Ok(u) => Ok(UrlParts {
            scheme: u.scheme().to_string(),
            host: u.host_str().map(|h| h.to_string()),
            username: u.username().to_string(),
            port: u.port(),
        }),
        Err(e) => Err(Error::new(e.to_string())),
    }
}

/// The execution backend a target specification selects.
#[derive(Debug)]
pub enum TargetKind {
    Local,
    Ssh,
    Adapter(String),
}

/// The adapter-name option as character sequences.
pub open spec fn spec_name_view(a: Option<String>) -> Option<Seq<char>> {
    match a {
        Some(n) => Some(n@),
        None => None,
    }
}

/// The backend name a target specification selects: an explicit adapter
/// name wins; otherwise the URL's scheme; with neither, `local`.
pub open spec fn spec_selected_name(
    url: Option<UrlParts>,
    adapter_name: Option<Seq<char>>,
) -> Seq<char> {
    match adapter_name {
        Some(n) => n,
        None => match url {
            None => "local"@,
            Some(p) => p.scheme@,
        },
    }
}

/// Selects the execution backend: the names `local` and `ssh` select the
/// built-in backends, any other name a delegate adapter of that name.
pub fn select_target_kind(url: &Option<UrlParts>, adapter_name: &Option<String>) -> (r:
    TargetKind)
    ensures
        ({
            let name = spec_selected_name(*url, spec_name_view(*adapter_name));
            &&& r is Local <==> name == "local"@
            &&& r is Ssh <==> name == "ssh"@
            &&& r matches TargetKind::Adapter(n) ==> n@ == name
        }),
{
    let name: String = match adapter_name {
        Some(n) => n.clone(),
        None => match url {
            None => String::from_str("local"),
            Some(p) => p.scheme.clone(),
        },
    };
    let ghost name_spec = spec_selected_name(*url, spec_name_view(*adapter_name));
    proof {
        reveal_strlit("local");
        reveal_strlit("ssh");
        assert(name@ == name_spec);
    }
    if str_eq(name.as_str(), "local") {
        TargetKind::Local
    } else if str_eq(name.as_str(), "ssh") {
        TargetKind::Ssh
    } else {
        TargetKind::Adapter(name)
    }
}

/// The host named by an optional target URL, if any.
pub open spec fn spec_url_host(url: Option<UrlParts>) -> Option<Seq<char>> {
    match url {
        None => None,
        Some(p) => match p.host {
            None => None,
            Some(h) => Some(h@),
        },
    }
}

/// Local execution accepts only an unscoped target or the host
/// `localhost`.
pub open spec fn spec_local_host_ok(host: Option<Seq<char>>) -> bool {
    match host {
        None => true,
        Some(h) => h == "localhost"@,
    }
}

/// Validates a local target: a URL scoping to any host but `localhost` is
/// rejected.
pub fn check_local_host(url: &Option<UrlParts>) -> (r: Result<(), Error>)
    ensures
        r is Ok <==> spec_local_host_ok(spec_url_host(*url)),
        r matches Err(e) ==> e.msg@ == "Can not operate on host: "@ + spec_url_host(
            *url,
        )->Some_0,
{
    match url {
        None => Ok(()),
        Some(p) => match &p.host {
            None => Ok(()),
            Some(h) => {
                if str_eq(h.as_str(), "localhost") {
                    Ok(())
                } else {
                    let mut msg = String::from_str("Can not operate on host: ");
                    msg.append(h.as_str());
                    Err(Error::new(msg))
                }
            },
        },
    }
}

/// A remote target must name the user to authenticate as.
pub fn ssh_username(url: &Option<UrlParts>) -> (r: Result<String, Error>)
    ensures
        match r {
            Ok(u) => {
                &&& *url matches Some(p) && p.username@ == u@
                &&& u@.len() > 0
            },
            Err(_) => match *url {
                None => true,
                Some(p) => p.username@.len() == 0,
            },
        },
{
    match url {
        None => Err(Error::new(String::from_str("Target URL must be provided for SSH"))),
        Some(p) => {
            if p.username.as_str().unicode_len() == 0 {
                Err(Error::new(String::from_str("Target must specify a username")))
            } else {
                Ok(p.username.clone())
            }
        },
    }
}

} // verus!
