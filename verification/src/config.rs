//! Configuration of the storage layer: which payload kinds are captured and
//! the per-kind size limit, in whole megabytes, above which a payload is
//! silently dropped. Reading and writing the configuration file is left to
//! the surrounding application; this module holds the plain values.

use vstd::prelude::*;
use vstd::string::StringExecFns;

verus! {

/// The whole configuration: application preferences and per-kind store rules.
pub struct Config {
    pub app: ConfigApp,
    pub stores: Stores,
}

/// Application-level preferences.
pub struct ConfigApp {
    pub logging: bool,
    pub query_return_limit: usize,
    pub timedate_format: String,
    pub hide_when_deleted: bool,
    pub always_on_top: bool,
}

/// The per-kind capture rules.
pub struct Stores {
    pub text: StoreTypeText,
    pub image: StoreTypeImage,
    pub file: StoreTypeFile,
}

/// Capture rule for text payloads; `max_size` is in whole megabytes.
pub struct StoreTypeText {
    pub enabled: bool,
    pub max_size: usize,
}

/// Capture rule for image payloads; `max_size` is in whole megabytes.
pub struct StoreTypeImage {
    pub enabled: bool,
    pub max_size: usize,
}

/// Capture rule for file payloads (reserved, inactive).
pub struct StoreTypeFile {
    pub enabled: bool,
    pub max_size: usize,
}

impl Default for ConfigApp {
    fn default() -> (c: Self)
        ensures
            c.logging == true,
            c.query_return_limit == 25,
            c.timedate_format@ == "%b %e %Y, %l:%M:%S %p"@,
            c.hide_when_deleted == false,
            c.always_on_top == false,
    {
        ConfigApp {
            logging: true,
            query_return_limit: 25,
            timedate_format: String::from_str("%b %e %Y, %l:%M:%S %p"),
            hide_when_deleted: false,
            always_on_top: false,
        }
    }
}

impl Default for StoreTypeText {
    fn default() -> (c: Self)
        ensures
            c.enabled == true,
            c.max_size == 5120,
    {
        StoreTypeText { enabled: true, max_size: 5120 }
    }
}

impl Default for StoreTypeImage {
    fn default() -> (c: Self)
        ensures
            c.enabled == false,
            c.max_size == 5120,
    {
        StoreTypeImage { enabled: false, max_size: 5120 }
    }
}

impl Default for StoreTypeFile {
    fn default() -> (c: Self)
        ensures
            c.enabled == false,
            c.max_size == 5120,
    {
        StoreTypeFile { enabled: false, max_size: 5120 }
    }
}

impl Default for Stores {
    fn default() -> (c: Self)
        ensures
            c.text.enabled == true && c.text.max_size == 5120,
            c.image.enabled == false && c.image.max_size == 5120,
            c.file.enabled == false && c.file.max_size == 5120,
    {
        Stores {
            text: StoreTypeText::default(),
            image: StoreTypeImage::default(),
            file: StoreTypeFile::default(),
        }
    }
}

impl Default for Config {
    fn default() -> (c: Self)
        ensures
            c.app.logging == true,
            c.app.query_return_limit == 25,
            c.app.timedate_format@ == "%b %e %Y, %l:%M:%S %p"@,
            c.app.hide_when_deleted == false,
            c.app.always_on_top == false,
            c.stores.text.enabled == true && c.stores.text.max_size == 5120,
            c.stores.image.enabled == false && c.stores.image.max_size == 5120,
            c.stores.file.enabled == false && c.stores.file.max_size == 5120,
    {
        Config { app: ConfigApp::default(), stores: Stores::default() }
    }
}

} // verus!
