//! The settings of the application.

use crate::checksum::ChecksumAlgo;
use crate::split::{SplitConfig, DEFAULT_CHUNK_SIZE};
use crate::text::same_text;
use vstd::prelude::*;

verus! {

/// The settings of the application.
#[derive(Debug, Clone)]
pub struct AppSettings {
    /// The size of the copy buffer in MiB.
    pub buffer_size: usize,
    /// The checksum to verify copies with: `crc32`, `xxhash` or `sha256`.
    pub checksum: String,
    /// How often a chunk is tried.
    pub max_retries: u32,
    /// Whether games are split: `split`, `nosplit` or `auto`.
    pub split_mode: String,
}

/// What [`AppSettings`] hold.
#[verifier::ext_equal]
pub struct SettingsView {
    pub buffer_size: usize,
    pub checksum: Seq<char>,
    pub max_retries: u32,
    pub split_mode: Seq<char>,
}

impl View for AppSettings {
    type V = SettingsView;

    open spec fn view(&self) -> SettingsView {
        SettingsView {
            buffer_size: self.buffer_size,
            checksum: self.checksum@,
            max_retries: self.max_retries,
            split_mode: self.split_mode@,
        }
    }
}

impl Default for AppSettings {
    fn default() -> (settings: Self)
        ensures
            settings@ == (SettingsView {
                buffer_size: 8,
                checksum: "crc32"@,
                max_retries: 3,
                split_mode: "auto"@,
            }),
    {
        AppSettings {
            buffer_size: 8,
            checksum: "crc32".to_owned(),
            max_retries: 3,
            split_mode: "auto".to_owned(),
        }
    }
}

/// The checksum of this name; CRC-32 for an unknown name.
pub open spec fn algo_named(name: Seq<char>) -> ChecksumAlgo {
    if name == "sha256"@ {
        ChecksumAlgo::Sha256
    } else if name == "xxhash"@ {
        ChecksumAlgo::Xxhash
    } else {
        ChecksumAlgo::Crc32
    }
}

impl AppSettings {
    /// How images are copied under these settings.
    pub fn to_split_config(&self) -> (config: SplitConfig)
        requires
            self@.buffer_size * 1024 * 1024 <= usize::MAX,
        ensures
            config == (SplitConfig {
                chunk_size: DEFAULT_CHUNK_SIZE,
                buffer_size: (self@.buffer_size * 1024 * 1024) as usize,
                checksum_algo: algo_named(self@.checksum),
                max_retries: self@.max_retries,
            }),
    {
        proof {
            reveal_strlit("sha256");
            reveal_strlit("xxhash");
        }
        let checksum_algo = if same_text(self.checksum.as_str(), "sha256") {
            ChecksumAlgo::Sha256
        } else if same_text(self.checksum.as_str(), "xxhash") {
            ChecksumAlgo::Xxhash
        } else {
            ChecksumAlgo::Crc32
        };
        SplitConfig {
            chunk_size: DEFAULT_CHUNK_SIZE,
            buffer_size: self.buffer_size * 1024 * 1024,
            checksum_algo,
            max_retries: self.max_retries,
        }
    }

    /// Settings that hold the same.
    pub fn duplicate(&self) -> (settings: AppSettings)
        ensures
            settings@ == self@,
    {
        AppSettings {
            buffer_size: self.buffer_size,
            checksum: self.checksum.clone(),
            max_retries: self.max_retries,
            split_mode: self.split_mode.clone(),
        }
    }
}

/// The state that the commands share.
#[derive(Debug)]
pub struct AppState {
    pub settings: AppSettings,
}

/// The settings in use.
pub fn get_settings(state: &AppState) -> (settings: AppSettings)
    ensures
        settings@ == state.settings@,
{
    state.settings.duplicate()
}

/// Puts other settings in use.
pub fn save_settings(settings: AppSettings, state: &mut AppState)
    ensures
        final(state).settings == settings,
{
    state.settings = settings;
}

/// The words for the ways to take a checksum; any other word is for CRC-32.
pub proof fn law_algo_named(name: Seq<char>)
    ensures
        algo_named("sha256"@) == ChecksumAlgo::Sha256,
        algo_named("xxhash"@) == ChecksumAlgo::Xxhash,
        name != "sha256"@ && name != "xxhash"@ ==> algo_named(name) == ChecksumAlgo::Crc32,
{
    reveal_strlit("sha256");
    reveal_strlit("xxhash");
    assert("sha256"@[0] == 's' && "xxhash"@[0] == 'x');
}

/// The model of a [`AppSettings`] has all that it holds.
pub proof fn law_model_of_app_settings(settings: AppSettings)
    ensures
        settings@.buffer_size == settings.buffer_size,
        settings@.checksum == settings.checksum@,
        settings@.max_retries == settings.max_retries,
        settings@.split_mode == settings.split_mode@,
{
}

} // verus!
