//! In-memory configuration: what the server reads its behaviour from.
//! Loading and saving the configuration on disk is the surrounding
//! program's business; here the values are held, inspected and updated.

use vstd::prelude::*;
use crate::formatting::{default_formatting, FormattingConfig};

verus! {

/// Completion behaviour.
#[derive(Clone, Copy, Debug, PartialEq, Eq, Structural)]
pub struct CmpConfig {
    pub enabled: bool,
    pub max_distance: u8,
}

/// The whole configuration.
#[derive(Debug)]
pub struct Config {
    pub formatting: FormattingConfig,
    pub dictionary_path: Option<String>,
    pub completion: CmpConfig,
    pub freq_path: Option<String>,
}

/// Whether a configuration holds the default values.
pub open spec fn is_default_config(c: Config) -> bool {
    &&& c.formatting@ == default_formatting()
    &&& c.dictionary_path is None
    &&& c.freq_path is None
    &&& c.completion == (CmpConfig { enabled: true, max_distance: 3u8 })
}

impl Default for Config {
    /// The built-in defaults: formatting defaults, no paths, completion on.
    fn default() -> (r: Config)
        ensures
            is_default_config(r),
    {
        Config {
            formatting: FormattingConfig::default(),
            dictionary_path: None,
            freq_path: None,
            completion: CmpConfig { enabled: true, max_distance: 3 },
        }
    }
}

impl Config {
    /// A copy of the current configuration.
    pub fn get(&self) -> (r: Config)
        ensures
            r == *self,
    {
        let formatting = FormattingConfig {
            word_format: self.formatting.word_format.clone(),
            part_of_speech_format: self.formatting.part_of_speech_format.clone(),
            definition_format: self.formatting.definition_format.clone(),
            example_format: self.formatting.example_format.clone(),
            add_spacing: self.formatting.add_spacing,
        };
        let dictionary_path = match &self.dictionary_path {
            Some(p) => Some(p.clone()),
            None => None,
        };
        let freq_path = match &self.freq_path {
            Some(p) => Some(p.clone()),
            None => None,
        };
        let r = Config { formatting, dictionary_path, completion: self.completion, freq_path };
        proof {
            assert(r == *self);
        }
        r
    }

    /// Applies an update to the configuration in place.
    pub fn update<F: FnOnce(Config) -> Config>(&mut self, update_fn: F)
        requires
            call_requires(update_fn, (*old(self),)),
        ensures
            call_ensures(update_fn, (*old(self),), *final(self)),
    {
        let cur = self.get();
        let updated = update_fn(cur);
        *self = updated;
    }

    /// Whether a dictionary path names a SQLite database, by its extension.
    pub fn is_sqlite(path: Option<&str>) -> (r: bool)
        ensures
            r == (match path {
                Some(p) => p@.len() >= 3 && p@.subrange(p@.len() - 3, p@.len() as int) == ".db"@,
                None => false,
            }),
    {
        match path {
            None => false,
            Some(p) => {
                let ch = crate::text::str_to_chars(p);
                let n: usize = ch.len();
                if n < 3 {
                    return false;
                }
                let hit = ch[n - 3] == '.' && ch[n - 2] == 'd' && ch[n - 1] == 'b';
                proof {
                    reveal_strlit(".db");
                    if hit {
                        assert(p@.subrange(p@.len() - 3, p@.len() as int) =~= ".db"@);
                    } else {
                        assert(p@.subrange(p@.len() - 3, p@.len() as int) != ".db"@) by {
                            if p@.subrange(p@.len() - 3, p@.len() as int) == ".db"@ {
                                assert(p@[p@.len() - 3] == ".db"@[0]);
                                assert(p@[p@.len() - 2] == ".db"@[1]);
                                assert(p@[p@.len() - 1] == ".db"@[2]);
                            }
                        }
                    }
                }
                hit
            },
        }
    }
}

/// Holds the shared in-memory configuration.
pub struct ConfigManager {
    config: Config,
}

impl ConfigManager {
    /// The configuration currently held.
    pub closed spec fn model(&self) -> Config {
        self.config
    }

    /// A manager holding the built-in defaults.  Loading a configuration
    /// from disk is the surrounding program's business; it installs what it
    /// read through [`ConfigManager::update_config`].
    pub fn new() -> (r: ConfigManager)
        ensures
            is_default_config(r.model()),
    {
        ConfigManager { config: Config::default() }
    }

    /// A copy of the configuration currently held.
    pub fn get_config(&self) -> (r: Config)
        ensures
            r == self.model(),
    {
        self.config.get()
    }

    /// Applies an update to the held configuration and returns a copy of
    /// the result.
    pub fn update_config<F: FnOnce(Config) -> Config>(&mut self, update_fn: F) -> (r: Config)
        requires
            call_requires(update_fn, (old(self).model(),)),
        ensures
            call_ensures(update_fn, (old(self).model(),), final(self).model()),
            r == final(self).model(),
    {
        let cur = self.config.get();
        let updated = update_fn(cur);
        self.config = updated;
        self.config.get()
    }
}

} // verus!
