//! What this host calls itself.

use vstd::prelude::*;

verus! {

/// Calls `nix::unistd::gethostname`, and hands on the name it gives when that
/// is text. The name is whatever the machine says it is, so nothing is claimed
/// of it: it may be any text, and it may be missing.
#[verifier::external_body]
fn system_name() -> (name: Option<String>) {
    nix::unistd::gethostname().ok().and_then(|h| h.into_string().ok())
}

/// The configured name, or the system's own, or the last resort when neither
/// is there.
pub open spec fn name_among(
    configured: Option<Seq<char>>,
    system: Option<Seq<char>>,
    otherwise: Seq<char>,
) -> Seq<char> {
    match configured {
        Some(n) => n,
        None => match system {
            Some(n) => n,
            None => otherwise,
        },
    }
}

/// The characters of a string that may be missing.
pub open spec fn text_of(s: Option<String>) -> Option<Seq<char>> {
    match s {
        Some(t) => Some(t@),
        None => None,
    }
}

/// Picks the configured name, or the system's own, or the last resort.
pub fn pick_name(configured: &Option<String>, system: Option<String>, otherwise: &str) -> (r: String)
    ensures
        r@ == name_among(text_of(*configured), text_of(system), otherwise@),
{
    match configured {
        Some(n) => n.clone(),
        None => match system {
            Some(n) => n,
            None => otherwise.to_owned(),
        },
    }
}

/// The configured name, or the system's own, or the last resort. What the
/// system says is not known beforehand, and a name that is configured wins
/// over it.
pub fn name_or(configured: &Option<String>, otherwise: &str) -> (r: String)
    ensures
        configured matches Some(n) ==> r@ == n@,
{
    let system = system_name();
    pick_name(configured, system, otherwise)
}

/// A configured name wins; without one the system's own counts, and without
/// either the last resort.
pub proof fn law_a_configured_name_wins(
    configured: Option<String>,
    system: Option<String>,
    otherwise: Seq<char>,
)
    ensures
        configured matches Some(n) ==> name_among(text_of(configured), text_of(system), otherwise)
            == n@,
        configured is None && system is Some ==> name_among(
            text_of(configured),
            text_of(system),
            otherwise,
        ) == (system->0)@,
        configured is None && system is None ==> name_among(
            text_of(configured),
            text_of(system),
            otherwise,
        ) == otherwise,
{
}

} // verus!
