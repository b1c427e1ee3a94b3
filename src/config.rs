use vstd::prelude::*;

use std::path::PathBuf;

verus! {

#[verifier::external_type_specification]
#[verifier::external_body]
pub struct ExPathBuf(PathBuf);

/// Settings of the service.
pub struct Config {
    /// Where the alias store is kept on disk.
    pub link_data_path: PathBuf,
    /// The address the server listens on.
    pub bind_address: String,
    /// The address under which visitors reach the server.
    pub server_base_url: String,
    /// Aliases that may not be chosen by hand.
    pub key_blacklist: Vec<String>,
}

} // verus!
