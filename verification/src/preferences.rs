//! The user's backup preferences.
use vstd::prelude::*;

verus! {

/// What to back up, where to, and over which network.
#[derive(Clone, Debug)]
pub struct BackupPreferences {
    pub enabled: bool,
    pub target_chat_id: Option<i64>,
    pub target_folder_id: Option<i64>,
    /// `"wifi"`, `"cellular"` or `"charging"`.
    pub network_type: String,
    pub sources_photos: bool,
    pub sources_videos: bool,
    pub sources_screenshots: bool,
    pub sources_downloads: bool,
    pub sources_whatsapp: bool,
}

/// The preferences before the user changes anything: disabled, no target,
/// Wi-Fi only, photos only.
pub open spec fn is_default_preferences(p: BackupPreferences) -> bool {
    &&& !p.enabled
    &&& p.target_chat_id is None
    &&& p.target_folder_id is None
    &&& p.network_type@ == "wifi"@
    &&& p.sources_photos
    &&& !p.sources_videos
    &&& !p.sources_screenshots
    &&& !p.sources_downloads
    &&& !p.sources_whatsapp
}

impl Default for BackupPreferences {
    fn default() -> (r: Self)
        ensures
            is_default_preferences(r),
    {
        BackupPreferences {
            enabled: false,
            target_chat_id: None,
            target_folder_id: None,
            network_type: String::from_str("wifi"),
            sources_photos: true,
            sources_videos: false,
            sources_screenshots: false,
            sources_downloads: false,
            sources_whatsapp: false,
        }
    }
}

/// The preferences in effect: the stored ones when a stored value was read
/// and understood, the defaults otherwise.
pub fn preferences_or_default(stored: Option<BackupPreferences>) -> (r: BackupPreferences)
    ensures
        match stored {
            Some(p) => r == p,
            None => is_default_preferences(r),
        },
{
    match stored {
        Some(p) => p,
        None => BackupPreferences::default(),
    }
}

} // verus!
