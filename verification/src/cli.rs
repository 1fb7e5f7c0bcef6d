//! Command-line configuration overrides.

use vstd::prelude::*;

verus! {

/// Raw `-c key=value` overrides given on a command line.
#[derive(Debug)]
pub struct CliConfigOverrides {
    pub raw_overrides: Vec<String>,
}

/// Prepend root-level overrides so they have lower precedence than
/// CLI-specific ones specified after the subcommand (if any).
pub fn prepend_config_flags(subcommand_config_overrides: &mut CliConfigOverrides, cli_config_overrides: CliConfigOverrides)
    ensures
        final(subcommand_config_overrides).raw_overrides@ == cli_config_overrides.raw_overrides@ + old(
            subcommand_config_overrides,
        ).raw_overrides@,
{
    let mut merged = cli_config_overrides.raw_overrides;
    merged.append(&mut subcommand_config_overrides.raw_overrides);
    subcommand_config_overrides.raw_overrides = merged;
}

} // verus!
