//! Configuration of an ISP gateway daemon.

use vstd::prelude::*;

verus! {

/// Top Level Ispgwd Configuration Object
#[derive(Debug, Clone)]
pub struct IspgwdConfig {
    /// ISP configs
    pub isp_configs: Vec<IspConfig>,
    /// Simulate operations
    pub simulation: bool,
    /// Standard Polling duration
    pub poll_duration_ms: u64,
}

/// ISP Configuration
#[derive(Debug, Clone)]
pub struct IspConfig {
    /// ISP name
    pub name: String,
    /// ISP interface
    pub interface: String,
    /// ISP priority
    pub priority: u32,
}

impl Default for IspgwdConfig {
    fn default() -> (r: Self)
        ensures
            r.isp_configs@.len() == 0,
            !r.simulation,
            r.poll_duration_ms == 0,
    {
        IspgwdConfig { isp_configs: Vec::new(), simulation: false, poll_duration_ms: 0 }
    }
}

} // verus!
