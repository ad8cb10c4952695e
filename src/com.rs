use vstd::prelude::*;

verus! {

/// Where the proxy listens and the token its clients must present.
#[derive(Debug, Clone, PartialEq, Eq)]
pub struct ProxyConfig {
    pub proxy_ip: String,
    pub proxy_port: String,
    pub redis_auth: String,
}

/// One backend master; the position of a slice in the topology is its shard index.
#[derive(Debug, Clone, PartialEq, Eq)]
pub struct SliceConfig {
    pub master: String,
}

/// The static sharding topology.
#[derive(Debug, Clone, PartialEq, Eq)]
pub struct Config {
    pub proxy: ProxyConfig,
    pub slice: Vec<SliceConfig>,
}

impl Config {
    /// A topology routes only when it names at least one slice.
    pub open spec fn wf(&self) -> bool {
        self.slice@.len() > 0
    }

    pub fn is_routable(&self) -> (r: bool)
        ensures
            r == self.wf(),
    {
        self.slice.len() > 0
    }
}

} // verus!
