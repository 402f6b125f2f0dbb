//! Command-line settings of the capture tool and the log level they select.

use vstd::prelude::*;

verus! {

/// How datagrams are received. Only unicast reception is used so far.
#[derive(Debug, Copy, Clone)]
pub enum Mode {
    Unicast,
    Multicast,
}

/// How captured lines are printed.
#[derive(Debug, Copy, Clone)]
pub enum OutputStyle {
    /// One JSON object per line; multi-line when `pretty`.
    Json { pretty: bool },
    /// The line after its reception time.
    Timestamped,
    /// The line alone.
    Plain,
}

/// Settings of the capture tool, as given on its command line.
#[derive(Debug, Clone)]
pub struct Cli {
    /// UDP address (`IP:PORT`) that the socket binds to.
    pub bind: String,
    /// Reception mode.
    pub mode: Mode,
    /// Print a timestamp before each line.
    pub timestamp: bool,
    /// How many times `-v` was given.
    pub verbose: u8,
    /// Whether `-q` was given.
    pub quiet: bool,
    /// Publish each captured line to DDS.
    pub dds: bool,
    /// DDS domain id.
    pub dds_domain: u16,
    /// DDS topic that receives the raw lines.
    pub dds_topic_raw: String,
    /// Print NDJSON instead of plain text.
    pub json: bool,
    /// Pretty-print the JSON objects.
    pub json_pretty: bool,
}

/// The log level selected by the `-q` flag and the count of `-v` flags:
/// quiet wins and gives `warn`; otherwise no `-v` gives `info`, one gives
/// `debug`, and more give `trace`.
pub open spec fn log_level_name(quiet: bool, verbose: u8) -> Seq<char> {
    if quiet {
        "warn"@
    } else if verbose == 0 {
        "info"@
    } else if verbose == 1 {
        "debug"@
    } else {
        "trace"@
    }
}

/// `-q` overrides any number of `-v`: a quiet run logs at `warn`.
pub proof fn lemma_quiet_wins(verbose: u8)
    ensures
        log_level_name(true, verbose) == "warn"@,
{
}

/// Without `-q`, no `-v` logs at `info`, one at `debug`, and every count
/// of two or more at `trace`.
pub proof fn lemma_verbosity_levels(verbose: u8)
    ensures
        verbose == 0 ==> log_level_name(false, verbose) == "info"@,
        verbose == 1 ==> log_level_name(false, verbose) == "debug"@,
        verbose >= 2 ==> log_level_name(false, verbose) == "trace"@,
{
}

impl Cli {
    /// How lines are printed: JSON when `--json` is given (pretty with
    /// `--json-pretty`), else with a timestamp when `--timestamp` is given,
    /// else the bare line.
    pub fn output_style(&self) -> (style: OutputStyle)
        ensures
            match style {
                OutputStyle::Json { pretty } => self.json && pretty == self.json_pretty,
                OutputStyle::Timestamped => !self.json && self.timestamp,
                OutputStyle::Plain => !self.json && !self.timestamp,
            },
    {
        if self.json {
            OutputStyle::Json { pretty: self.json_pretty }
        } else if self.timestamp {
            OutputStyle::Timestamped
        } else {
            OutputStyle::Plain
        }
    }

    /// The name of the log level that these settings select.
    pub fn log_level(&self) -> (level: String)
        ensures
            level@ == log_level_name(self.quiet, self.verbose),
    {
        if self.quiet {
            "warn".to_owned()
        } else if self.verbose == 0 {
            "info".to_owned()
        } else if self.verbose == 1 {
            "debug".to_owned()
        } else {
            "trace".to_owned()
        }
    }
}

} // verus!
