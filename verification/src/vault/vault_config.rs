//! The settings of a vault (`.okf/config.toml`).

use vstd::prelude::*;

use crate::table::Table;

verus! {

/// Where the settings stand below the root of a vault.
pub const VAULT_CONFIG_RELATIVE_PATH: &'static str = ".okf/config.toml";

/// The bits of the temperature that is used unless another one is set: 0.2 in single
/// precision.
pub const DEFAULT_TEMPERATURE_BITS: u32 = 0x3e4c_cccd;

/// How many tokens an answer may have unless another number is set.
pub fn default_max_tokens() -> (r: u32)
    ensures
        r == 4096,
{
    4096
}

/// The bits of the temperature that is used unless another one is set.
pub fn default_temperature_bits() -> (r: u32)
    ensures
        r == DEFAULT_TEMPERATURE_BITS,
{
    DEFAULT_TEMPERATURE_BITS
}

/// How sources are compiled.
#[derive(Debug)]
pub struct CompilerConfig {
    pub default_model: Option<String>,
    /// The bits of a number in single precision.
    pub temperature_bits: u32,
    pub max_tokens: u32,
}

impl Default for CompilerConfig {
    fn default() -> (r: CompilerConfig)
        ensures
            r.default_model is None,
            r.temperature_bits == DEFAULT_TEMPERATURE_BITS,
            r.max_tokens == 4096,
    {
        CompilerConfig {
            default_model: None,
            temperature_bits: default_temperature_bits(),
            max_tokens: default_max_tokens(),
        }
    }
}

/// How a provider is reached from a vault: the name of the environment variable with
/// its key, never the key itself, and its address.
#[derive(Debug)]
pub struct ProviderConfig {
    pub api_key_env: Option<String>,
    pub base_url: Option<String>,
}

/// The settings of a vault.
#[derive(Debug)]
pub struct OkfVaultConfig {
    pub compiler: CompilerConfig,
    pub providers: Table<ProviderConfig>,
}

impl Default for OkfVaultConfig {
    fn default() -> (r: OkfVaultConfig)
        ensures
            r.compiler.default_model is None,
            r.compiler.temperature_bits == DEFAULT_TEMPERATURE_BITS,
            r.compiler.max_tokens == 4096,
            r.providers@ == Map::<Seq<char>, ProviderConfig>::empty(),
    {
        OkfVaultConfig { compiler: CompilerConfig::default(), providers: Table::new() }
    }
}

} // verus!
