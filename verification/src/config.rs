//! Application configuration and its defaults.

use crate::models::Platform;
use vstd::prelude::*;

verus! {

/// The built-in legacy filename template.
pub const DEFAULT_TEMPLATE: &'static str = "{primary_creator} - {year} - {title} -- {item_key}";

/// The whole configuration file.
#[derive(Debug, Clone)]
pub struct Config {
    pub app: AppConfig,
    pub zotero: ZoteroConfig,
    pub search: SearchConfig,
    pub mirror: MirrorConfig,
    pub maintenance: MaintenanceConfig,
    pub storage: StorageConfig,
}

#[derive(Debug, Clone)]
pub struct AppConfig {
    pub poll_interval_seconds: u64,
    pub start_at_login: bool,
    pub log_level: String,
}

#[derive(Debug, Clone)]
pub struct ZoteroConfig {
    pub api_base: String,
    pub request_timeout_seconds: u64,
    pub include_user_library: bool,
    /// "all" or "none".
    pub group_mode: String,
}

#[derive(Debug, Clone)]
pub struct SearchConfig {
    pub default_limit: u32,
    pub maximum_limit: u32,
    pub index_abstract: bool,
    pub index_extra: bool,
    pub store_raw_json: bool,
    pub short_query_fallback: bool,
}

#[derive(Debug, Clone)]
pub struct MirrorConfig {
    pub windows: MirrorPlatformConfig,
    pub macos: MirrorPlatformConfig,
}

#[derive(Debug, Clone)]
pub struct MirrorPlatformConfig {
    pub enabled: bool,
    pub directory: String,
    pub template: String,
}

/// Custom index database location; empty means the default location.
#[derive(Debug, Clone)]
pub struct StorageConfig {
    pub database: String,
}

#[derive(Debug, Clone)]
pub struct MaintenanceConfig {
    pub optimize_after_updates: u64,
    pub retain_logs_days: u32,
}

impl AppConfig {
    pub open spec fn is_default(self) -> bool {
        &&& self.poll_interval_seconds == 15
        &&& self.start_at_login
        &&& self.log_level@ == "info"@
    }
}

impl Default for AppConfig {
    fn default() -> (res: Self)
        ensures
            res.is_default(),
    {
        AppConfig { poll_interval_seconds: 15, start_at_login: true, log_level: "info".to_owned() }
    }
}

impl ZoteroConfig {
    pub open spec fn is_default(self) -> bool {
        &&& self.api_base@ == "http://localhost:23119/api"@
        &&& self.request_timeout_seconds == 10
        &&& self.include_user_library
        &&& self.group_mode@ == "all"@
    }
}

impl Default for ZoteroConfig {
    fn default() -> (res: Self)
        ensures
            res.is_default(),
    {
        ZoteroConfig {
            api_base: "http://localhost:23119/api".to_owned(),
            request_timeout_seconds: 10,
            include_user_library: true,
            group_mode: "all".to_owned(),
        }
    }
}

impl SearchConfig {
    pub open spec fn is_default(self) -> bool {
        &&& self.default_limit == 30
        &&& self.maximum_limit == 100
        &&& self.index_abstract
        &&& self.index_extra
        &&& self.store_raw_json
        &&& self.short_query_fallback
    }
}

impl Default for SearchConfig {
    fn default() -> (res: Self)
        ensures
            res.is_default(),
    {
        SearchConfig {
            default_limit: 30,
            maximum_limit: 100,
            index_abstract: true,
            index_extra: true,
            store_raw_json: true,
            short_query_fallback: true,
        }
    }
}

impl MirrorPlatformConfig {
    pub open spec fn is_default(self) -> bool {
        &&& !self.enabled
        &&& self.directory@.len() == 0
        &&& self.template@ == DEFAULT_TEMPLATE@
    }
}

impl Default for MirrorPlatformConfig {
    fn default() -> (res: Self)
        ensures
            res.is_default(),
    {
        MirrorPlatformConfig {
            enabled: false,
            directory: String::new(),
            template: DEFAULT_TEMPLATE.to_owned(),
        }
    }
}

impl MirrorConfig {
    /// Windows mirroring is on, in the per-user local data directory; macOS
    /// mirroring is off, in `~/Zotero Links`; both use the default template.
    pub open spec fn is_default(self) -> bool {
        &&& self.windows.enabled
        &&& self.windows.directory@ == "%LOCALAPPDATA%/ZoteroSearchBridge/mirrors/windows"@
        &&& self.windows.template@ == DEFAULT_TEMPLATE@
        &&& !self.macos.enabled
        &&& self.macos.directory@ == "~/Zotero Links"@
        &&& self.macos.template@ == DEFAULT_TEMPLATE@
    }
}

impl Default for MirrorConfig {
    fn default() -> (res: Self)
        ensures
            res.is_default(),
    {
        MirrorConfig {
            windows: MirrorPlatformConfig {
                enabled: true,
                directory: "%LOCALAPPDATA%/ZoteroSearchBridge/mirrors/windows".to_owned(),
                template: DEFAULT_TEMPLATE.to_owned(),
            },
            macos: MirrorPlatformConfig {
                enabled: false,
                directory: "~/Zotero Links".to_owned(),
                template: DEFAULT_TEMPLATE.to_owned(),
            },
        }
    }
}

impl Default for StorageConfig {
    fn default() -> (res: Self)
        ensures
            res.database@.len() == 0,
    {
        StorageConfig { database: String::new() }
    }
}

impl MaintenanceConfig {
    pub open spec fn is_default(self) -> bool {
        &&& self.optimize_after_updates == 5000
        &&& self.retain_logs_days == 14
    }
}

impl Default for MaintenanceConfig {
    fn default() -> (res: Self)
        ensures
            res.is_default(),
    {
        MaintenanceConfig { optimize_after_updates: 5000, retain_logs_days: 14 }
    }
}

impl Config {
    pub open spec fn is_default(self) -> bool {
        &&& self.app.is_default()
        &&& self.zotero.is_default()
        &&& self.search.is_default()
        &&& self.mirror.is_default()
        &&& self.maintenance.is_default()
        &&& self.storage.database@.len() == 0
    }

    pub open spec fn mirror_spec(self, platform: Platform) -> MirrorPlatformConfig {
        match platform {
            Platform::Windows => self.mirror.windows,
            Platform::Macos => self.mirror.macos,
        }
    }

    /// The mirror settings of one platform.
    pub fn mirror_for(&self, platform: Platform) -> (res: &MirrorPlatformConfig)
        ensures
            *res == self.mirror_spec(platform),
    {
        match platform {
            Platform::Windows => &self.mirror.windows,
            Platform::Macos => &self.mirror.macos,
        }
    }
}

impl Default for Config {
    fn default() -> (res: Self)
        ensures
            res.is_default(),
    {
        Config {
            app: AppConfig::default(),
            zotero: ZoteroConfig::default(),
            search: SearchConfig::default(),
            mirror: MirrorConfig::default(),
            maintenance: MaintenanceConfig::default(),
            storage: StorageConfig::default(),
        }
    }
}

} // verus!
