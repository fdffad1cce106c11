//! Where logs go: the directory and the file prefix, and the name of the shared log file
//! that several processes append to.
use vstd::prelude::*;

verus! {

/// Where logs are written.
#[derive(Debug)]
pub struct LogConfig {
    /// The log directory.
    pub log_dir: String,
    /// The prefix of the log files.
    pub file_prefix: String,
}

impl LogConfig {
    /// Logs under the prefix `file_prefix`, in the directory `logs`.
    pub fn new(file_prefix: String) -> (c: LogConfig)
        ensures
            c.log_dir@ == "logs"@,
            c.file_prefix@ == file_prefix@,
    {
        LogConfig { log_dir: String::from_str("logs"), file_prefix }
    }

    /// The same configuration with another directory.
    pub fn with_log_dir(self, log_dir: String) -> (c: LogConfig)
        ensures
            c.log_dir@ == log_dir@,
            c.file_prefix@ == self.file_prefix@,
    {
        LogConfig { log_dir, file_prefix: self.file_prefix }
    }
}

/// The name of the file that several processes share: the prefix, a dot, the date, and
/// `.log`.
pub open spec fn shared_log_name(prefix: Seq<char>, date: Seq<char>) -> Seq<char> {
    prefix + "."@ + date + ".log"@
}

/// The file name of the shared log for `date` (`YYYY-MM-DD`).
pub fn shared_log_file_name(config: &LogConfig, date: &str) -> (r: String)
    ensures
        r@ == shared_log_name(config.file_prefix@, date@),
{
    let mut r = config.file_prefix.clone();
    r.append(".");
    r.append(date);
    r.append(".log");
    r
}

} // verus!
