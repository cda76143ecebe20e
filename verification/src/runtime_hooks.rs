//! The workers of a server: how often they run, and what is said of them.

use vstd::prelude::*;
use vstd::string::*;

use crate::config::BigtableStorageConfig;
use crate::text::{cat6, decimal, u64_text};

verus! {

/// How often the workers run, in seconds.
#[derive(Clone, Copy, Debug, PartialEq, Eq)]
pub struct Cadences {
    pub ttl_scan: u64,
    pub sweeper: u64,
    pub gsi_reconcile: u64,
}

fn at_least_one(n: u64) -> (r: u64)
    ensures
        r == if n < 1 {
            1
        } else {
            n
        },
{
    if n < 1 {
        1
    } else {
        n
    }
}

/// The workers of a server.
#[derive(Debug, PartialEq, Eq)]
pub struct BigtableRuntimeHooks {
    pub config: BigtableStorageConfig,
}

impl BigtableRuntimeHooks {
    /// How often the workers run: once a second at most.
    pub fn spawn_workers(&self) -> (r: Cadences)
        ensures
            r.ttl_scan == (if self.config.ttl_scan_cadence_secs < 1 {
                1
            } else {
                self.config.ttl_scan_cadence_secs
            }),
            r.sweeper == (if self.config.sweeper_cadence_secs < 1 {
                1
            } else {
                self.config.sweeper_cadence_secs
            }),
            r.gsi_reconcile == (if self.config.gsi_reconcile_cadence_secs < 1 {
                1
            } else {
                self.config.gsi_reconcile_cadence_secs
            }),
    {
        Cadences {
            ttl_scan: at_least_one(self.config.ttl_scan_cadence_secs),
            sweeper: at_least_one(self.config.sweeper_cadence_secs),
            gsi_reconcile: at_least_one(self.config.gsi_reconcile_cadence_secs),
        }
    }

    /// How often the workers are to run, in words.
    pub fn backend_info(&self) -> (r: String)
        ensures
            r@ == "ttl_scan_cadence_secs="@ + decimal(self.config.ttl_scan_cadence_secs as nat)
                + ", gsi_reconcile_cadence_secs="@ + decimal(
                self.config.gsi_reconcile_cadence_secs as nat,
            ) + ", sweeper_cadence_secs="@ + decimal(self.config.sweeper_cadence_secs as nat),
    {
        let a = u64_text(self.config.ttl_scan_cadence_secs);
        let b = u64_text(self.config.gsi_reconcile_cadence_secs);
        let c = u64_text(self.config.sweeper_cadence_secs);
        cat6(
            "ttl_scan_cadence_secs=",
            a.as_str(),
            ", gsi_reconcile_cadence_secs=",
            b.as_str(),
            ", sweeper_cadence_secs=",
            c.as_str(),
        )
    }
}

} // verus!
