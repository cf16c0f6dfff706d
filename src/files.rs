//! How a plugin's state maps to the name of its file and back.
use vstd::prelude::*;
use vstd::string::StringExecFns;

use crate::plugin::{Plugin, PluginStatus};

verus! {

/// The last extension of a plugin file.
#[derive(Clone, Copy, Debug, PartialEq, Eq, Structural)]
pub enum FileExtension {
    /// `.jar`: enabled.
    Jar,
    /// `.disabled`: locked disabled by the user.
    Disabled,
    /// `.tempdisabled`: disabled by an earlier session.
    TempDisabled,
}

/// What a plugin file's name said when it was found.
#[derive(Clone, Copy, Debug, PartialEq, Eq, Structural)]
pub enum FileStatus {
    Enabled,
    ForceDisabled,
    Disabled,
}

/// The name a plugin file should carry.
#[derive(Clone, Copy, Debug, PartialEq, Eq, Structural)]
pub enum FileSuffix {
    /// `.jar`
    Jar,
    /// `.jar.tempdisabled`
    TempDisabled,
    /// `.jar.disabled`
    Disabled,
}

impl FileExtension {
    /// Reads an extension; any other is not a plugin file.
    pub fn parse(ext: &str) -> (r: Option<FileExtension>)
        ensures
            r == if ext@ == "jar"@ {
                Some(FileExtension::Jar)
            } else if ext@ == "disabled"@ {
                Some(FileExtension::Disabled)
            } else if ext@ == "tempdisabled"@ {
                Some(FileExtension::TempDisabled)
            } else {
                None
            },
    {
        let e = ext.to_owned();
        if e == String::from_str("jar") {
            Some(FileExtension::Jar)
        } else if e == String::from_str("disabled") {
            Some(FileExtension::Disabled)
        } else if e == String::from_str("tempdisabled") {
            Some(FileExtension::TempDisabled)
        } else {
            None
        }
    }
}

impl FileStatus {
    /// The lock a file found in this state puts on its plugin.
    pub fn forced(&self) -> (r: Option<bool>)
        ensures
            r == if *self == FileStatus::ForceDisabled {
                Some(false)
            } else {
                None
            },
    {
        match self {
            FileStatus::ForceDisabled => Some(false),
            _ => None,
        }
    }

    /// The status a file found in this state gives its plugin.
    pub fn status(&self) -> (r: PluginStatus)
        ensures
            r == if *self == FileStatus::Enabled {
                PluginStatus::Enabled
            } else {
                PluginStatus::Disabled
            },
    {
        match self {
            FileStatus::Enabled => PluginStatus::Enabled,
            _ => PluginStatus::Disabled,
        }
    }
}

impl Plugin {
    /// The name the plugin's file should carry: a lock decides if there is
    /// one, otherwise only enabled plugins keep `.jar`.
    pub fn file_suffix(&self) -> (r: FileSuffix)
        ensures
            r == match self.forced_status {
                Some(true) => FileSuffix::Jar,
                Some(false) => FileSuffix::Disabled,
                None => if self.status == PluginStatus::Enabled {
                    FileSuffix::Jar
                } else {
                    FileSuffix::TempDisabled
                },
            },
    {
        match self.forced_status {
            None => match self.status {
                PluginStatus::Enabled => FileSuffix::Jar,
                PluginStatus::NotTheProblem | PluginStatus::Disabled => FileSuffix::TempDisabled,
            },
            Some(value) => if value {
                FileSuffix::Jar
            } else {
                FileSuffix::Disabled
            },
        }
    }
}

} // verus!
