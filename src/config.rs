//! The server's settings, checked for consistency.
use vstd::prelude::*;

use crate::ignore_filter::IgnoreFilter;

verus! {

/// The listening port when none is given.
pub const DEFAULT_PORT: i32 = 5928;

/// The server's settings.
#[derive(Debug)]
pub struct Config {
    pub port: i32,
    pub storage_dir: String,
    pub sync_dir: Option<String>,
    pub sync_write: bool,
    pub sync_ignore: IgnoreFilter,
    pub daemon: bool,
    pub pidfile: Option<String>,
    pub log_filename: Option<String>,
}

/// Why settings were refused.
#[derive(Debug, Clone, Copy, PartialEq, Eq)]
pub enum ConfigError {
    /// The storage directory is not a directory.
    StorageDirNotDirectory,
    /// The mirror directory is not a directory.
    SyncDirNotDirectory,
    /// Writing to the mirror was asked for without a mirror directory.
    SyncWriteWithoutSyncDir,
    /// A PID file was given without running as a daemon.
    PidfileWithoutDaemon,
}

/// Settings that the options given leave out or ignore.
#[derive(Debug, Clone, Copy, PartialEq, Eq)]
pub struct ConfigNotes {
    /// A log file was given without `daemon`, and is ignored.
    pub log_filename_ignored: bool,
}

/// The options as given on the command line, with what the caller found
/// on disk about the two directories.
pub struct Options {
    pub storage_dir: String,
    pub storage_dir_is_dir: bool,
    pub port: Option<i32>,
    pub sync_dir: Option<String>,
    pub sync_dir_is_dir: bool,
    pub sync_write: bool,
    pub daemon: bool,
    pub pidfile: Option<String>,
    pub log_filename: Option<String>,
}

impl Config {
    /// Checks the options and builds the settings: the storage directory
    /// must be a directory, so must the mirror directory where one is
    /// given, `sync_write` needs a mirror directory, and a PID file needs
    /// `daemon`. The port defaults to 5928.
    pub fn try_from_options(value: Options, sync_ignore: IgnoreFilter) -> (r: Result<(Config, ConfigNotes), ConfigError>)
        ensures
            !value.storage_dir_is_dir ==> r == Err::<(Config, ConfigNotes), ConfigError>(ConfigError::StorageDirNotDirectory),
            value.storage_dir_is_dir && value.sync_dir is Some && !value.sync_dir_is_dir ==> r == Err::<(Config, ConfigNotes), ConfigError>(ConfigError::SyncDirNotDirectory),
            value.storage_dir_is_dir && (value.sync_dir is None || value.sync_dir_is_dir) && value.sync_write && value.sync_dir is None ==> r == Err::<(Config, ConfigNotes), ConfigError>(ConfigError::SyncWriteWithoutSyncDir),
            value.storage_dir_is_dir && (value.sync_dir is None || value.sync_dir_is_dir) && !(value.sync_write && value.sync_dir is None) && value.pidfile is Some && !value.daemon ==> r == Err::<(Config, ConfigNotes), ConfigError>(ConfigError::PidfileWithoutDaemon),
            value.storage_dir_is_dir && (value.sync_dir is None || value.sync_dir_is_dir) && !(value.sync_write && value.sync_dir is None) && !(value.pidfile is Some && !value.daemon) ==> (r matches Ok((c, notes)) && {
                &&& c.port == match value.port {
                    Some(p) => p,
                    None => DEFAULT_PORT,
                }
                &&& c.storage_dir == value.storage_dir
                &&& c.sync_dir == value.sync_dir
                &&& c.sync_write == value.sync_write
                &&& c.daemon == value.daemon
                &&& c.pidfile == value.pidfile
                &&& c.log_filename == value.log_filename
                &&& c.sync_ignore == sync_ignore
                &&& notes.log_filename_ignored == (value.log_filename is Some && !value.daemon)
            }),
    {
        if !value.storage_dir_is_dir {
            return Err(ConfigError::StorageDirNotDirectory);
        }
        if value.sync_dir.is_some() && !value.sync_dir_is_dir {
            return Err(ConfigError::SyncDirNotDirectory);
        }
        if value.sync_write && value.sync_dir.is_none() {
            return Err(ConfigError::SyncWriteWithoutSyncDir);
        }
        if value.pidfile.is_some() && !value.daemon {
            return Err(ConfigError::PidfileWithoutDaemon);
        }
        let notes = ConfigNotes {
            log_filename_ignored: value.log_filename.is_some() && !value.daemon,
        };
        let port = match value.port {
            Some(p) => p,
            None => DEFAULT_PORT,
        };
        Ok(
            (
                Config {
                    port,
                    storage_dir: value.storage_dir,
                    sync_dir: value.sync_dir,
                    sync_write: value.sync_write,
                    sync_ignore,
                    daemon: value.daemon,
                    pidfile: value.pidfile,
                    log_filename: value.log_filename,
                },
                notes,
            ),
        )
    }
}

} // verus!
