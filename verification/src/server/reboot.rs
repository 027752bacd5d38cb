//! The switch that says whether the server may reboot its host.

use vstd::prelude::*;
use crate::config::ServerConfig;

verus! {

/// What the server is allowed to do about a reboot.
#[derive(Clone, Copy, Debug)]
pub struct RebootService {
    enabled: bool,
    auth_required: bool,
}

impl RebootService {
    /// Whether a reboot may be asked for.
    pub closed spec fn spec_is_enabled(&self) -> bool {
        self.enabled
    }

    /// Whether the caller must prove who they are.
    pub closed spec fn spec_requires_auth(&self) -> bool {
        self.auth_required
    }

    /// The switch as the settings have it.
    pub fn new(config: &ServerConfig) -> (service: RebootService)
        ensures
            service.is_enabled() == config.allow_reboot(),
            service.requires_auth() == config.requires_auth(),
    {
        RebootService { enabled: config.allow_reboot(), auth_required: config.requires_auth() }
    }

    /// Whether a reboot may be asked for.
    #[verifier::when_used_as_spec(spec_is_enabled)]
    pub fn is_enabled(&self) -> (enabled: bool)
        ensures
            enabled == self.spec_is_enabled(),
    {
        self.enabled
    }

    /// Whether the caller must prove who they are.
    #[verifier::when_used_as_spec(spec_requires_auth)]
    pub fn requires_auth(&self) -> (required: bool)
        ensures
            required == self.spec_requires_auth(),
    {
        self.auth_required
    }
}

} // verus!
