//! Application configuration: the singleton settings record and the
//! soft-read policy that substitutes documented defaults when the stored
//! file is absent or unparsable.

use vstd::prelude::*;

verus! {

/// The application's singleton configuration record.
///
/// `data_path` names the relocatable data directory; every other field is a
/// display or startup preference. The record is stored as one JSON object in
/// a fixed configuration directory that is never part of a data move.
pub struct AppConfig {
    pub data_path: String,
    pub language: String,
    pub theme: String,
    pub font_family: String,
    pub font_size: u32,
    pub text_color_light: String,
    pub text_color_dark: String,
    pub launch_at_login: bool,
}

/// The documented default configuration, given the platform's application
/// data directory as the default data path.
pub open spec fn is_default_config(c: AppConfig, data_path: Seq<char>) -> bool {
    &&& c.data_path@ == data_path
    &&& c.language@ == "zh-CN"@
    &&& c.theme@ == "light"@
    &&& c.font_family@ == "Arial"@
    &&& c.font_size == 14u32
    &&& c.text_color_light@ == "#333333"@
    &&& c.text_color_dark@ == "#e5e5e5"@
    &&& c.launch_at_login == false
}

/// Builds the default configuration for the given default data path.
pub fn default_app_config(data_path: String) -> (c: AppConfig)
    ensures
        is_default_config(c, data_path@),
{
    AppConfig {
        data_path,
        language: String::from_str("zh-CN"),
        theme: String::from_str("light"),
        font_family: String::from_str("Arial"),
        font_size: 14,
        text_color_light: String::from_str("#333333"),
        text_color_dark: String::from_str("#e5e5e5"),
        launch_at_login: false,
    }
}

/// The soft-read policy for configuration: a successfully parsed record is
/// returned as it is, and a missing or unparsable file (`None`) is replaced
/// by the defaults, never by an error.
pub fn config_or_default(parsed: Option<AppConfig>, default_data_path: String) -> (c: AppConfig)
    ensures
        match parsed {
            Some(p) => c == p,
            None => is_default_config(c, default_data_path@),
        },
{
    match parsed {
        Some(p) => p,
        None => default_app_config(default_data_path),
    }
}

} // verus!
