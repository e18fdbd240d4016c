use vstd::prelude::*;

verus! {

#[verifier::external_type_specification]
#[verifier::external_body]
pub struct ExIoError(std::io::Error);

/// Maximum severity of the records that are kept.
#[derive(Clone, Copy, Debug, PartialEq, Eq, Structural)]
pub enum LogLevel {
    Off,
    Error,
    Warn,
    Info,
    Debug,
    Trace,
}

/// Settings that control where log records are written and how verbose the
/// output is.
#[derive(Clone, Debug)]
pub struct LogConfig {
    /// Maximum severity that is recorded; less severe records are discarded.
    pub level: LogLevel,
    /// Directory that holds the log file.
    pub directory: String,
    /// Name of the log file created inside `directory`.
    pub file_name: String,
}

impl Default for LogConfig {
    /// An `Info`-level configuration that writes to `logs/irongolem.log`.
    fn default() -> (r: Self)
        ensures
            r.level == LogLevel::Info,
            r.directory@ == "logs"@,
            r.file_name@ == "irongolem.log"@,
    {
        LogConfig {
            level: LogLevel::Info,
            directory: String::from_str("logs"),
            file_name: String::from_str("irongolem.log"),
        }
    }
}

impl LogConfig {
    /// A configuration from a verbosity level and a target directory, with the
    /// default file name.
    pub fn new(level: LogLevel, directory: String) -> (r: Self)
        ensures
            r.level == level,
            r.directory@ == directory@,
            r.file_name@ == "irongolem.log"@,
    {
        LogConfig { level, directory, file_name: String::from_str("irongolem.log") }
    }
}

/// Error returned when the logger cannot be installed.
#[derive(Debug)]
pub enum LogError {
    /// The log directory or file could not be created or opened.
    Io(std::io::Error),
    /// A global logger was already installed for this process.
    AlreadyInitialized,
}

/// Calls `to_string` on the I/O error, which renders it with `Display`. The
/// text of an operating-system error comes from the system and may follow its
/// locale, so nothing is claimed of it.
#[verifier::external_body]
fn render_io_error(err: &std::io::Error) -> String {
    err.to_string()
}

impl LogError {
    /// The text shown for this error. For an I/O error it is a fixed prefix
    /// followed by the error's own text.
    pub fn text(&self) -> (r: String)
        ensures
            match self {
                LogError::Io(_) => exists|t: Seq<char>| r@ == "failed to set up log file: "@ + t,
                LogError::AlreadyInitialized => r@ == "a global logger is already installed"@,
            },
    {
        match self {
            LogError::Io(err) => {
                let mut s = String::from_str("failed to set up log file: ");
                let ghost prefix = s@;
                let e = render_io_error(err);
                s.append(e.as_str());
                proof {
                    assert(s@ == prefix + e@);
                }
                s
            },
            LogError::AlreadyInitialized => String::from_str("a global logger is already installed"),
        }
    }
}

} // verus!
