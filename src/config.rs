//! Compile settings and their conversion into program metadata.
use vstd::prelude::*;
use chrono::Timelike;
use crate::ir::{IRMetadata, MINUTES_PER_DAY};
use crate::optimizer::views;
use crate::scheduler::{mode_named, ScheduleMode};
use crate::text::{lower_of, str_eq, to_lower};

verus! {

/// What `chrono::NaiveTime::parse_from_str(s, fmt)` yields, as hour and minute.
pub uninterp spec fn clock_parse(s: Seq<char>, fmt: Seq<char>) -> Option<(u32, u32)>;

/// Relies on `chrono::NaiveTime::parse_from_str` and `Timelike::{hour, minute}`:
/// the parse depends on the text and the format alone, and a parsed time has
/// an hour below 24 and a minute below 60.
#[verifier::external_body]
fn parse_clock(s: &str, fmt: &str) -> (r: Option<(u32, u32)>)
    ensures
        r == clock_parse(s@, fmt@),
        r matches Some((h, m)) ==> h < 24 && m < 60,
{
    match chrono::NaiveTime::parse_from_str(s, fmt) {
        Ok(t) => Some((t.hour(), t.minute())),
        Err(_) => None,
    }
}

/// A time of day read as `HH:MM`, or else as `H:MM`, in minutes past midnight.
pub open spec fn time_of(s: Seq<char>) -> Option<u64> {
    match clock_parse(s, "%H:%M"@) {
        Some((h, m)) => Some((h * 60 + m) as u64),
        None => match clock_parse(s, "%-H:%M"@) {
            Some((h, m)) => Some((h * 60 + m) as u64),
            None => None,
        },
    }
}

/// Reads a time of day, `HH:MM` or `H:MM`, as minutes past midnight.
pub fn parse_time(time_str: &str) -> (r: Option<u64>)
    ensures
        r == time_of(time_str@),
        r matches Some(t) ==> t < MINUTES_PER_DAY,
{
    match parse_clock(time_str, "%H:%M") {
        Some((h, m)) => Some(h as u64 * 60 + m as u64),
        None => match parse_clock(time_str, "%-H:%M") {
            Some((h, m)) => Some(h as u64 * 60 + m as u64),
            None => None,
        },
    }
}

/// The kinds of output a plan can be rendered to.
#[derive(Clone, Copy, Debug, PartialEq, Eq, Structural)]
pub enum OutputFormat {
    Shell,
    Markdown,
    Json,
    Calendar,
}

/// The format that an already lower-cased name selects.
pub open spec fn format_named(l: Seq<char>) -> Option<OutputFormat> {
    if l == "shell"@ {
        Some(OutputFormat::Shell)
    } else if l == "markdown"@ {
        Some(OutputFormat::Markdown)
    } else if l == "json"@ {
        Some(OutputFormat::Json)
    } else if l == "calendar"@ {
        Some(OutputFormat::Calendar)
    } else {
        None
    }
}

impl OutputFormat {
    /// Parses a format name, ignoring case.
    pub fn from_str(s: &str) -> (r: Option<OutputFormat>)
        ensures
            r == format_named(lower_of(s@)),
    {
        let l = to_lower(s);
        format_from_lowered(l.as_str())
    }
}

/// Reads a format from a name that is already in lower case.
pub fn format_from_lowered(l: &str) -> (r: Option<OutputFormat>)
    ensures
        r == format_named(l@),
{
    if str_eq(l, "shell") {
        Some(OutputFormat::Shell)
    } else if str_eq(l, "markdown") {
        Some(OutputFormat::Markdown)
    } else if str_eq(l, "json") {
        Some(OutputFormat::Json)
    } else if str_eq(l, "calendar") {
        Some(OutputFormat::Calendar)
    } else {
        None
    }
}

/// A configuration value that cannot be used.
#[derive(Clone, Debug, PartialEq)]
pub enum ConfigError {
    InvalidOutputFormat(String),
    InvalidScheduleMode(String),
    InvalidTime(String),
}

/// Settings of one compile.
#[derive(Clone, Debug)]
pub struct Config {
    pub output_format: String,
    pub output_file: Option<String>,
    pub workday_start: String,
    pub workday_end: String,
    pub schedule_mode: String,
    pub optimization_level: u8,
    pub focus_tags: Vec<String>,
    pub max_parallel: usize,
    pub deepwork_tag: String,
    pub dry_run: bool,
    pub show_ir: bool,
    pub visualize_schedule: bool,
}

impl Default for Config {
    /// Markdown output, a 09:00 to 17:00 workday, naive scheduling, level 1,
    /// one task at a time, and `deepwork` as the deepwork tag.
    fn default() -> (r: Config)
        ensures
            r.output_format@ == "markdown"@,
            r.output_file is None,
            r.workday_start@ == "09:00"@,
            r.workday_end@ == "17:00"@,
            r.schedule_mode@ == "naive"@,
            r.optimization_level == 1,
            r.focus_tags@.len() == 0,
            r.max_parallel == 1,
            r.deepwork_tag@ == "deepwork"@,
            !r.dry_run && !r.show_ir && !r.visualize_schedule,
    {
        Config {
            output_format: String::from_str("markdown"),
            output_file: None,
            workday_start: String::from_str("09:00"),
            workday_end: String::from_str("17:00"),
            schedule_mode: String::from_str("naive"),
            optimization_level: 1,
            focus_tags: Vec::new(),
            max_parallel: 1,
            deepwork_tag: String::from_str("deepwork"),
            dry_run: false,
            show_ir: false,
            visualize_schedule: false,
        }
    }
}

/// `m` is the program metadata that `config` describes.
pub open spec fn metadata_of(config: Config, m: IRMetadata) -> bool {
    &&& m.wf()
    &&& time_of(config.workday_start@) == Some(m.workday_start)
    &&& time_of(config.workday_end@) == Some(m.workday_end)
    &&& m.max_parallel == config.max_parallel
    &&& views(m.focus_tags@) == views(config.focus_tags@)
    &&& m.optimization_level == config.optimization_level
}

impl Config {
    /// The program metadata these settings describe, stamped with the local
    /// UTC offset; fails on a workday bound that is not a time of day.
    pub fn to_ir_metadata(&self) -> (r: Result<IRMetadata, ConfigError>)
        ensures
            match (time_of(self.workday_start@), time_of(self.workday_end@)) {
                (Some(s), Some(e)) => r is Ok && metadata_of(*self, r->Ok_0),
                (None, _) => r matches Err(ConfigError::InvalidTime(t)) && t@ == self.workday_start@,
                (_, None) => r matches Err(ConfigError::InvalidTime(t)) && t@ == self.workday_end@,
            },
    {
        self.metadata_with_timezone(crate::ir::local_utc_offset())
    }

    /// The program metadata these settings describe, with the given time zone.
    pub fn metadata_with_timezone(&self, timezone: String) -> (r: Result<IRMetadata, ConfigError>)
        ensures
            match (time_of(self.workday_start@), time_of(self.workday_end@)) {
                (Some(s), Some(e)) => r is Ok && metadata_of(*self, r->Ok_0) && r->Ok_0.timezone == timezone,
                (None, _) => r matches Err(ConfigError::InvalidTime(t)) && t@ == self.workday_start@,
                (_, None) => r matches Err(ConfigError::InvalidTime(t)) && t@ == self.workday_end@,
            },
    {
        let start = match parse_time(self.workday_start.as_str()) {
            Some(t) => t,
            None => return Err(ConfigError::InvalidTime(self.workday_start.clone())),
        };
        let end = match parse_time(self.workday_end.as_str()) {
            Some(t) => t,
            None => return Err(ConfigError::InvalidTime(self.workday_end.clone())),
        };
        Ok(IRMetadata {
            timezone,
            workday_start: start,
            workday_end: end,
            max_parallel: self.max_parallel,
            focus_tags: crate::ir::copy_strings(&self.focus_tags),
            optimization_level: self.optimization_level,
        })
    }

    pub fn get_output_format(&self) -> (r: Result<OutputFormat, ConfigError>)
        ensures
            match format_named(lower_of(self.output_format@)) {
                Some(f) => r == Ok::<OutputFormat, ConfigError>(f),
                None => r matches Err(ConfigError::InvalidOutputFormat(t)) && t@ == self.output_format@,
            },
    {
        match OutputFormat::from_str(self.output_format.as_str()) {
            Some(f) => Ok(f),
            None => Err(ConfigError::InvalidOutputFormat(self.output_format.clone())),
        }
    }

    pub fn get_schedule_mode(&self) -> (r: Result<ScheduleMode, ConfigError>)
        ensures
            match mode_named(lower_of(self.schedule_mode@)) {
                Some(m) => r == Ok::<ScheduleMode, ConfigError>(m),
                None => r matches Err(ConfigError::InvalidScheduleMode(t)) && t@ == self.schedule_mode@,
            },
    {
        match ScheduleMode::from_str(self.schedule_mode.as_str()) {
            Some(m) => Ok(m),
            None => Err(ConfigError::InvalidScheduleMode(self.schedule_mode.clone())),
        }
    }
}

} // verus!
