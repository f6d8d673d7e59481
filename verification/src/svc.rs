//! Service-load configuration items from the supervisor's command surface:
//! the bulk-load argument carrier and the configuration defaults.
use vstd::prelude::*;

verus! {

/// Arguments for loading services from service config files found under the
/// given paths.
pub struct BulkLoad {
    /// Paths to files or directories of service config files.
    pub svc_config_paths: Vec<std::path::PathBuf>,
}

/// Relies on `std::path::PathBuf` as an opaque path value, carried but never
/// inspected here; vstd gives the type no specification.
#[verifier::external_type_specification]
#[verifier::external_body]
pub struct ExPathBuf(std::path::PathBuf);

/// The default service group.
#[allow(non_camel_case_types)]
pub struct GROUP_DEFAULT;

impl GROUP_DEFAULT {
    /// The name of the default service group.
    pub fn get() -> (r: String)
        ensures
            r@ == "default"@,
    {
        "default".to_owned()
    }
}

/// The default interval, in seconds, between service health checks.
pub fn health_check_interval_default() -> (r: u64)
    ensures
        r == 30,
{
    30
}

} // verus!
