//! The command-line surface, as plain data.
//!
//! These types carry the parsed arguments of each subcommand.  The
//! argument-parser derives and path types live with the binary, which
//! converts into these plain forms; the library only ever sees values.

use vstd::prelude::*;

verus! {

/// The subcommands.
pub enum CliCommands {
    Configure(CliConfigure),
    Data(CliData),
    Example(CliExample),
    License,
    List(CliList),
    Readme,
    Run(CliRun),
    Upgrade(CliUpgrade),
}

/// Download source data, or list the download URLs.
pub enum CliData {
    Download { dl_folder: String },
    Examine { file: Option<String> },
}

/// Print an example configuration.
pub struct CliExample {
    pub year: CliExampleYear,
}

/// The year an example configuration is for.
#[derive(PartialEq, Eq, Structural, Debug, Clone, Copy)]
pub enum CliExampleYear {
    TwentySixteen,
    TwentyNineteen,
}

/// Upgrade older data files.
pub enum CliUpgrade {
    Prefs(CliUpgradePrefs),
    Sa1s(CliUpgradeSa1s),
}

/// Upgrade a preference file to the current format.
pub struct CliUpgradePrefs {
    pub suffix: String,
    pub filter: String,
    pub candidates: String,
    pub input: String,
    pub output: String,
}

/// Convert an SA1s-to-districts file between geography editions.
pub struct CliUpgradeSa1s {
    pub no_infile_headers: bool,
    pub correspondence_file: String,
    pub input: String,
    pub output: String,
}

/// Generate a configuration file interactively.
pub struct CliConfigure {
    pub year: Option<String>,
    pub state: Option<String>,
    pub polling_places: Option<String>,
    pub sa1s_breakdown: Option<String>,
    pub output_dir: Option<String>,
    pub from: Option<String>,
    pub party_details: Option<String>,
    pub candidates: String,
    pub configfile: String,
}

/// List scenarios from a configuration file.
pub struct CliList {
    pub configfile: String,
}

/// Run scenarios from a configuration file.
pub struct CliRun {
    pub phase: CliRunPhase,
    pub js: bool,
    pub scenario: Option<Vec<String>>,
    pub configfile: String,
}

/// Which phases of analysis to run.
#[derive(PartialEq, Eq, Structural, Debug, Clone, Copy)]
pub enum CliRunPhase {
    All,
    Distribute,
    Project,
    Combine,
}

/// Options already known before interactive configuration begins.
pub struct KnownConfigOptions {
    pub sa1s_dists: Option<String>,
    pub prefs_path: Option<String>,
    pub output_dir: Option<String>,
    pub party_details: Option<String>,
    pub polling_places: Option<String>,
    pub sa1s_breakdown: Option<String>,
    pub year: Option<String>,
    pub state: Option<crate::utils::StateAb>,
}

} // verus!
