//! The store's configuration, persisted in the repository's own
//! key/value configuration under the `adr.` keys.

use vstd::prelude::*;
use crate::Error;
use crate::git::{Git, GitView, kv_get, kv_set, kv_unset, lemma_kv_set_get, lemma_kv_set_other};
use crate::text::{
    all_digits, chars_of, dec_str, dec_val, format_u32, lemma_dec_str_val, parse_u32_chars,
    str_eq, string_of,
};
use crate::date::format_padded;

verus! {

/// The store's configuration.
#[derive(Debug, Clone)]
pub struct AdrConfig {
    /// Prefix of record ids.
    pub prefix: String,
    /// Number of digits in a record id's numeric part.
    pub digits: u8,
    /// Default template name.
    pub template: String,
    /// Default body format name.
    pub format: String,
    /// Whether the repository has been initialized for records.
    pub initialized: bool,
}

/// The mathematical image of the configuration.
#[verifier::ext_equal]
pub struct ConfigView {
    pub prefix: Seq<char>,
    pub digits: u8,
    pub template: Seq<char>,
    pub format: Seq<char>,
    pub initialized: bool,
}

impl View for AdrConfig {
    type V = ConfigView;

    open spec fn view(&self) -> ConfigView {
        ConfigView {
            prefix: self.prefix@,
            digits: self.digits,
            template: self.template@,
            format: self.format@,
            initialized: self.initialized,
        }
    }
}

/// The configuration every repository starts from.
pub open spec fn default_config() -> ConfigView {
    ConfigView {
        prefix: "ADR-"@,
        digits: 4,
        template: "default"@,
        format: "nygard"@,
        initialized: false,
    }
}

impl Default for AdrConfig {
    /// The default configuration.
    fn default() -> (r: Self)
        ensures
            r@ == default_config(),
    {
        AdrConfig {
            prefix: String::from_str("ADR-"),
            digits: 4,
            template: String::from_str("default"),
            format: String::from_str("nygard"),
            initialized: false,
        }
    }
}

/// The digits value a stored string denotes, when it is a plain decimal
/// number that fits; anything else keeps the default.
pub open spec fn digits_of(v: Seq<char>, dflt: u8) -> u8 {
    if v.len() >= 1 && all_digits(v) && dec_val(v) <= 255 {
        dec_val(v) as u8
    } else {
        dflt
    }
}

/// The configuration a key/value store denotes.
pub open spec fn config_of(cfg: Seq<(Seq<char>, Seq<char>)>) -> ConfigView {
    ConfigView {
        initialized: kv_get(cfg, "adr.initialized"@) == Some("true"@),
        prefix: match kv_get(cfg, "adr.prefix"@) {
            Some(v) => v,
            None => "ADR-"@,
        },
        digits: match kv_get(cfg, "adr.digits"@) {
            Some(v) => digits_of(v, 4),
            None => 4,
        },
        template: match kv_get(cfg, "adr.template"@) {
            Some(v) => v,
            None => "default"@,
        },
        format: match kv_get(cfg, "adr.format"@) {
            Some(v) => v,
            None => "nygard"@,
        },
    }
}

/// The key/value store after the five configuration keys are written.
pub open spec fn saved_config(
    base: Seq<(Seq<char>, Seq<char>)>,
    c: ConfigView,
) -> Seq<(Seq<char>, Seq<char>)> {
    let s1 = kv_set(base, "adr.initialized"@, if c.initialized {
        "true"@
    } else {
        "false"@
    });
    let s2 = kv_set(s1, "adr.prefix"@, c.prefix);
    let s3 = kv_set(s2, "adr.digits"@, dec_str(c.digits as int));
    let s4 = kv_set(s3, "adr.template"@, c.template);
    kv_set(s4, "adr.format"@, c.format)
}

/// Manager for the store's configuration.
#[derive(Debug)]
pub struct ConfigManager {
    git: Git,
}

impl ConfigManager {
    /// The image of the repository state the manager is bound to.
    pub closed spec fn gitv(&self) -> GitView {
        self.git@
    }

    /// Bind a manager to a repository state.
    pub fn new(git: Git) -> (r: ConfigManager)
        ensures
            r.gitv() == git@,
    {
        ConfigManager { git }
    }

    /// The repository state the manager is bound to.
    pub fn git(&self) -> (r: &Git)
        ensures
            r@ == self.gitv(),
    {
        &self.git
    }

    /// Load the configuration from the repository's key/value store.
    pub fn load(&self) -> (r: Result<AdrConfig, Error>)
        ensures
            r matches Ok(c) && c@ == config_of(self.gitv().config),
    {
        let mut config = AdrConfig::default();
        match self.git.config_get("adr.initialized") {
            Ok(Some(v)) => {
                config.initialized = str_eq(v.as_str(), "true");
            },
            Ok(None) => {
                proof {
                    assert(!config_of(self.gitv().config).initialized);
                }
            },
            Err(_) => {},
        }
        match self.git.config_get("adr.prefix") {
            Ok(Some(v)) => {
                config.prefix = v;
            },
            Ok(None) => {},
            Err(_) => {},
        }
        match self.git.config_get("adr.digits") {
            Ok(Some(v)) => {
                let cv = chars_of(v.as_str());
                match parse_u32_chars(&cv) {
                    Some(n) => {
                        if n <= 255 {
                            config.digits = n as u8;
                        }
                    },
                    None => {},
                }
            },
            Ok(None) => {},
            Err(_) => {},
        }
        match self.git.config_get("adr.template") {
            Ok(Some(v)) => {
                config.template = v;
            },
            Ok(None) => {},
            Err(_) => {},
        }
        match self.git.config_get("adr.format") {
            Ok(Some(v)) => {
                config.format = v;
            },
            Ok(None) => {},
            Err(_) => {},
        }
        proof {
            assert(config@ =~~= config_of(self.gitv().config));
        }
        Ok(config)
    }

    /// Save a configuration into the repository's key/value store.
    /// Only the five configuration keys change; in a repository the
    /// write always succeeds.
    pub fn save(&mut self, config: &AdrConfig) -> (r: Result<(), Error>)
        ensures
            match r {
                Ok(()) => old(self).gitv().repo && config_of(final(self).gitv().config) == (ConfigView {
                    digits: digits_of(dec_str(config@.digits as int), 4),
                    ..config@
                }) && final(self).gitv() == (GitView {
                    config: saved_config(old(self).gitv().config, config@),
                    ..old(self).gitv()
                }),
                Err(e) => !old(self).gitv().repo && e is Git && *final(self) == *old(self),
            },
            old(self).gitv().repo ==> r is Ok,
    {
        let init_val = if config.initialized {
            "true"
        } else {
            "false"
        };
        match self.git.config_set("adr.initialized", init_val) {
            Ok(()) => {},
            Err(e) => {
                return Err(e);
            },
        }
        let r = self.git.config_set("adr.prefix", config.prefix.as_str());
        proof {
            assert(self.git@.repo);
        }
        match r {
            Ok(()) => {},
            Err(_) => {
                proof {
                    assert(false);
                }
            },
        }
        let digits_chars = format_u32(config.digits as u32);
        let digits_str = string_of(&digits_chars);
        let r2 = self.git.config_set("adr.digits", digits_str.as_str());
        match r2 {
            Ok(()) => {},
            Err(_) => {
                proof {
                    assert(false);
                }
            },
        }
        let r3 = self.git.config_set("adr.template", config.template.as_str());
        match r3 {
            Ok(()) => {},
            Err(_) => {
                proof {
                    assert(false);
                }
            },
        }
        let r4 = self.git.config_set("adr.format", config.format.as_str());
        match r4 {
            Ok(()) => {},
            Err(_) => {
                proof {
                    assert(false);
                }
            },
        }
        proof {
            lemma_config_roundtrip(old(self).git@.config, config@);
        }
        Ok(())
    }

    /// Initialize the repository for records: save the configuration
    /// with the initialized flag set. Outside a repository nothing is
    /// written and the typed error comes back.
    pub fn initialize(&mut self, config: &AdrConfig) -> (r: Result<(), Error>)
        ensures
            match r {
                Ok(()) => old(self).gitv().repo && config_of(final(self).gitv().config) == (ConfigView {
                    digits: digits_of(dec_str(config@.digits as int), 4),
                    initialized: true,
                    ..config@
                }) && final(self).gitv() == (GitView {
                    config: saved_config(
                        old(self).gitv().config,
                        ConfigView { initialized: true, ..config@ },
                    ),
                    ..old(self).gitv()
                }),
                Err(e) => !old(self).gitv().repo && e is NotARepository && *final(self) == *old(
                    self,
                ),
            },
            old(self).gitv().repo ==> r is Ok,
    {
        match self.git.check_repository() {
            Ok(()) => {},
            Err(e) => {
                return Err(e);
            },
        }
        let init_config = AdrConfig {
            prefix: config.prefix.clone(),
            digits: config.digits,
            template: config.template.clone(),
            format: config.format.clone(),
            initialized: true,
        };
        proof {
            assert(init_config@ =~~= (ConfigView { initialized: true, ..config@ }));
        }
        self.save(&init_config)
    }

    /// Whether the repository has been initialized for records.
    pub fn is_initialized(&self) -> (r: Result<bool, Error>)
        ensures
            r matches Ok(b) && b == config_of(self.gitv().config).initialized,
    {
        match self.load() {
            Ok(c) => Ok(c.initialized),
            Err(_) => Ok(false),
        }
    }

    /// Read one configuration value under the store's key prefix.
    pub fn get(&self, key: &str) -> (r: Result<Option<String>, Error>)
        ensures
            match r {
                Ok(Some(v)) => kv_get(self.gitv().config, "adr."@ + key@) == Some(v@),
                Ok(None) => kv_get(self.gitv().config, "adr."@ + key@) is None,
                Err(_) => false,
            },
    {
        let full = Self::prefixed(key);
        self.git.config_get(full.as_str())
    }

    /// Write one configuration value under the store's key prefix.
    pub fn set(&mut self, key: &str, value: &str) -> (r: Result<(), Error>)
        ensures
            match r {
                Ok(()) => old(self).gitv().repo && final(self).gitv() == (GitView {
                    config: kv_set(old(self).gitv().config, "adr."@ + key@, value@),
                    ..old(self).gitv()
                }),
                Err(e) => !old(self).gitv().repo && e is Git,
            },
    {
        let full = Self::prefixed(key);
        self.git.config_set(full.as_str(), value)
    }

    /// The full configuration key of a short name.
    fn prefixed(key: &str) -> (r: String)
        ensures
            r@ == "adr."@ + key@,
    {
        let mut v = chars_of("adr.");
        let kv = chars_of(key);
        crate::text::extend_chars(&mut v, &kv);
        string_of(&v)
    }
}

/// Saving then loading gives back the saved values, except that the
/// digit count travels through its decimal string.
proof fn lemma_config_roundtrip(base: Seq<(Seq<char>, Seq<char>)>, c: ConfigView)
    ensures
        ({
            let s1 = kv_set(base, "adr.initialized"@, if c.initialized { "true"@ } else { "false"@ });
            let s2 = kv_set(s1, "adr.prefix"@, c.prefix);
            let s3 = kv_set(s2, "adr.digits"@, dec_str(c.digits as int));
            let s4 = kv_set(s3, "adr.template"@, c.template);
            let s5 = kv_set(s4, "adr.format"@, c.format);
            config_of(s5) == (ConfigView {
                digits: digits_of(dec_str(c.digits as int), 4),
                ..c
            })
        }),
{
    reveal_strlit("adr.initialized");
    reveal_strlit("adr.prefix");
    reveal_strlit("adr.digits");
    reveal_strlit("adr.template");
    reveal_strlit("adr.format");
    reveal_strlit("true");
    reveal_strlit("false");
    assert("adr.prefix"@ != "adr.initialized"@) by {
        assert("adr.prefix"@.len() != "adr.initialized"@.len());
    }
    assert("adr.digits"@ != "adr.initialized"@) by {
        assert("adr.digits"@.len() != "adr.initialized"@.len());
    }
    assert("adr.template"@ != "adr.initialized"@) by {
        assert("adr.template"@.len() != "adr.initialized"@.len());
    }
    assert("adr.format"@ != "adr.initialized"@) by {
        assert("adr.format"@.len() != "adr.initialized"@.len());
    }
    assert("adr.digits"@ != "adr.prefix"@) by {
        assert("adr.digits"@[4] != "adr.prefix"@[4]);
    }
    assert("adr.template"@ != "adr.prefix"@) by {
        assert("adr.template"@.len() != "adr.prefix"@.len());
    }
    assert("adr.format"@ != "adr.prefix"@) by {
        assert("adr.format"@[4] != "adr.prefix"@[4]);
    }
    assert("adr.template"@ != "adr.digits"@) by {
        assert("adr.template"@.len() != "adr.digits"@.len());
    }
    assert("adr.format"@ != "adr.digits"@) by {
        assert("adr.format"@[4] != "adr.digits"@[4]);
    }
    assert("adr.format"@ != "adr.template"@) by {
        assert("adr.format"@.len() != "adr.template"@.len());
    }
    let iv = if c.initialized {
        "true"@
    } else {
        "false"@
    };
    let s1 = kv_set(base, "adr.initialized"@, iv);
    let s2 = kv_set(s1, "adr.prefix"@, c.prefix);
    let s3 = kv_set(s2, "adr.digits"@, dec_str(c.digits as int));
    let s4 = kv_set(s3, "adr.template"@, c.template);
    let s5 = kv_set(s4, "adr.format"@, c.format);
    lemma_kv_set_get(base, "adr.initialized"@, iv);
    lemma_kv_set_other(s1, "adr.prefix"@, c.prefix, "adr.initialized"@);
    lemma_kv_set_other(s2, "adr.digits"@, dec_str(c.digits as int), "adr.initialized"@);
    lemma_kv_set_other(s3, "adr.template"@, c.template, "adr.initialized"@);
    lemma_kv_set_other(s4, "adr.format"@, c.format, "adr.initialized"@);
    lemma_kv_set_get(s1, "adr.prefix"@, c.prefix);
    lemma_kv_set_other(s2, "adr.digits"@, dec_str(c.digits as int), "adr.prefix"@);
    lemma_kv_set_other(s3, "adr.template"@, c.template, "adr.prefix"@);
    lemma_kv_set_other(s4, "adr.format"@, c.format, "adr.prefix"@);
    lemma_kv_set_get(s2, "adr.digits"@, dec_str(c.digits as int));
    lemma_kv_set_other(s3, "adr.template"@, c.template, "adr.digits"@);
    lemma_kv_set_other(s4, "adr.format"@, c.format, "adr.digits"@);
    lemma_kv_set_get(s3, "adr.template"@, c.template);
    lemma_kv_set_other(s4, "adr.format"@, c.format, "adr.template"@);
    lemma_kv_set_get(s4, "adr.format"@, c.format);
    if c.initialized {
        assert(kv_get(s5, "adr.initialized"@) == Some("true"@));
    } else {
        assert(kv_get(s5, "adr.initialized"@) == Some("false"@));
        assert("false"@ != "true"@) by {
            assert("false"@.len() != "true"@.len());
        }
    }
    assert(config_of(s5) =~~= (ConfigView {
        digits: digits_of(dec_str(c.digits as int), 4),
        ..c
    }));
}

} // verus!
