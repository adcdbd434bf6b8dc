//! The errors of configuration and provisioning.
use vstd::prelude::*;

verus! {

/// A configuration that cannot be used.
#[derive(Debug, PartialEq, Eq)]
pub enum ConfigError {
    /// The workspace declares the section under `key`, and not as a table.
    WorkspaceSectionNotTable { key: String },
    /// Package `package` declares the section under `key`, and not as a table.
    SectionNotTable { key: String, package: String },
    /// The entry of artifact `name` is not a table.
    EntryNotTable { key: String, name: String },
    /// The entry of artifact `name` has no `source`.
    MissingSource { key: String, name: String },
    /// Field `field` of the entry of artifact `name` holds a value of the
    /// wrong kind, `found`.
    UnexpectedType { key: String, name: String, field: String, found: String },
}

/// The mathematical form of a `ConfigError`.
pub enum ConfigFault {
    WorkspaceSectionNotTable { key: Seq<char> },
    SectionNotTable { key: Seq<char>, package: Seq<char> },
    EntryNotTable { key: Seq<char>, name: Seq<char> },
    MissingSource { key: Seq<char>, name: Seq<char> },
    UnexpectedType { key: Seq<char>, name: Seq<char>, field: Seq<char>, found: Seq<char> },
}

impl View for ConfigError {
    type V = ConfigFault;

    open spec fn view(&self) -> ConfigFault {
        match self {
            ConfigError::WorkspaceSectionNotTable { key } => ConfigFault::WorkspaceSectionNotTable {
                key: key@,
            },
            ConfigError::SectionNotTable { key, package } => ConfigFault::SectionNotTable {
                key: key@,
                package: package@,
            },
            ConfigError::EntryNotTable { key, name } => ConfigFault::EntryNotTable {
                key: key@,
                name: name@,
            },
            ConfigError::MissingSource { key, name } => ConfigFault::MissingSource {
                key: key@,
                name: name@,
            },
            ConfigError::UnexpectedType { key, name, field, found } => ConfigFault::UnexpectedType {
                key: key@,
                name: name@,
                field: field@,
                found: found@,
            },
        }
    }
}

/// The text that describes a configuration error.
pub open spec fn config_error_text(e: ConfigFault) -> Seq<char> {
    match e {
        ConfigFault::WorkspaceSectionNotTable { key } => "workspace.metadata."@ + key
            + " not a table"@,
        ConfigFault::SectionNotTable { key, package } => "package.metadata."@ + key
            + " not a table in "@ + package,
        ConfigFault::EntryNotTable { key, name } => "package.metadata."@ + key + "."@ + name
            + " not a table"@,
        ConfigFault::MissingSource { key, name } => "No source in package.metadata."@ + key
            + "."@ + name,
        ConfigFault::UnexpectedType { key, name, field, found } => "Unexpected key package.metadata."@
            + key + "."@ + name + "."@ + field + " type "@ + found,
    }
}

impl ConfigError {
    /// The text that describes this error.
    pub fn description(&self) -> (r: String)
        ensures
            r@ == config_error_text(self@),
    {
        match self {
            ConfigError::WorkspaceSectionNotTable { key } => {
                let mut s = String::from_str("workspace.metadata.");
                s.append(key.as_str());
                s.append(" not a table");
                s
            },
            ConfigError::SectionNotTable { key, package } => {
                let mut s = String::from_str("package.metadata.");
                s.append(key.as_str());
                s.append(" not a table in ");
                s.append(package.as_str());
                s
            },
            ConfigError::EntryNotTable { key, name } => {
                let mut s = String::from_str("package.metadata.");
                s.append(key.as_str());
                s.append(".");
                s.append(name.as_str());
                s.append(" not a table");
                s
            },
            ConfigError::MissingSource { key, name } => {
                let mut s = String::from_str("No source in package.metadata.");
                s.append(key.as_str());
                s.append(".");
                s.append(name.as_str());
                s
            },
            ConfigError::UnexpectedType { key, name, field, found } => {
                let mut s = String::from_str("Unexpected key package.metadata.");
                s.append(key.as_str());
                s.append(".");
                s.append(name.as_str());
                s.append(".");
                s.append(field.as_str());
                s.append(" type ");
                s.append(found.as_str());
                s
            },
        }
    }
}


/// A provisioning step that cannot be carried out.
#[derive(Debug, PartialEq, Eq)]
pub enum ProvisionError {
    /// The target path of an artifact exists and is a regular file.
    CacheIo { path: String },
    /// The source names no archive kind that is known, and is no local
    /// directory; `suffix` is what follows its last dot.
    UnsupportedFormat { source: String, suffix: String },
    /// The local file at `path` could not be read.
    Open { path: String, reason: String },
    /// The bytes of `source` could not be downloaded.
    Fetch { source: String, reason: String },
    /// An archive could not be decoded.
    Extract { reason: String },
}

/// The mathematical form of a `ProvisionError`.
pub enum ProvisionFault {
    CacheIo { path: Seq<char> },
    UnsupportedFormat { source: Seq<char>, suffix: Seq<char> },
    Open { path: Seq<char>, reason: Seq<char> },
    Fetch { source: Seq<char>, reason: Seq<char> },
    Extract { reason: Seq<char> },
}

impl View for ProvisionError {
    type V = ProvisionFault;

    open spec fn view(&self) -> ProvisionFault {
        match self {
            ProvisionError::CacheIo { path } => ProvisionFault::CacheIo { path: path@ },
            ProvisionError::UnsupportedFormat { source, suffix } => ProvisionFault::UnsupportedFormat {
                source: source@,
                suffix: suffix@,
            },
            ProvisionError::Open { path, reason } => ProvisionFault::Open {
                path: path@,
                reason: reason@,
            },
            ProvisionError::Fetch { source, reason } => ProvisionFault::Fetch {
                source: source@,
                reason: reason@,
            },
            ProvisionError::Extract { reason } => ProvisionFault::Extract { reason: reason@ },
        }
    }
}

/// The text that describes a provisioning error.
pub open spec fn provision_error_text(e: ProvisionFault) -> Seq<char> {
    match e {
        ProvisionFault::CacheIo { path } => "The target directory is a file "@ + path,
        ProvisionFault::UnsupportedFormat { source, suffix } => "Unsupported binary extension "@
            + suffix + " of "@ + source,
        ProvisionFault::Open { path, reason } => "Error opening "@ + path + ": "@ + reason,
        ProvisionFault::Fetch { source, reason } => "Download error for "@ + source + ": "@
            + reason,
        ProvisionFault::Extract { reason } => "Extraction error: "@ + reason,
    }
}

impl ProvisionError {
    /// The text that describes this error.
    pub fn description(&self) -> (r: String)
        ensures
            r@ == provision_error_text(self@),
    {
        match self {
            ProvisionError::CacheIo { path } => {
                let mut s = String::from_str("The target directory is a file ");
                s.append(path.as_str());
                s
            },
            ProvisionError::UnsupportedFormat { source, suffix } => {
                let mut s = String::from_str("Unsupported binary extension ");
                s.append(suffix.as_str());
                s.append(" of ");
                s.append(source.as_str());
                s
            },
            ProvisionError::Open { path, reason } => {
                let mut s = String::from_str("Error opening ");
                s.append(path.as_str());
                s.append(": ");
                s.append(reason.as_str());
                s
            },
            ProvisionError::Fetch { source, reason } => {
                let mut s = String::from_str("Download error for ");
                s.append(source.as_str());
                s.append(": ");
                s.append(reason.as_str());
                s
            },
            ProvisionError::Extract { reason } => {
                let mut s = String::from_str("Extraction error: ");
                s.append(reason.as_str());
                s
            },
        }
    }
}

} // verus!
