//! Session configuration and its validation rules.

use vstd::prelude::*;

use crate::response::{severity, Level, Response};
use crate::strings::{join_strs, join_with};

verus! {

/// How the session advances through its words.
#[derive(Debug, Clone, Copy, PartialEq, Eq, Structural)]
pub enum GameMode {
    /// A fixed list of generated words.
    Words,
    /// A quote split into words, line breaks kept as newline sentinels.
    Quote,
    /// Free transcription with no preset target.
    Zen,
}

/// Languages with a word list available.
#[derive(Debug, Clone, Copy, PartialEq, Eq, Structural)]
pub enum WordsLanguages {
    En,
}

impl WordsLanguages {
    /// The language code used to locate its resources.
    pub fn as_str(&self) -> (r: &'static str)
        ensures
            r@ == "en"@,
    {
        "en"
    }
}

/// Languages with quote files available.
#[derive(Debug, Clone, Copy, PartialEq, Eq, Structural)]
pub enum QuotesLanguages {
    En,
}

impl QuotesLanguages {
    /// The language code used to locate its resources.
    pub fn as_str(&self) -> (r: &'static str)
        ensures
            r@ == "en"@,
    {
        "en"
    }
}

/// The content language, tied to the kind of content it can supply.
#[derive(Debug, Clone, Copy, PartialEq, Eq, Structural)]
pub enum Language {
    Words(WordsLanguages),
    Quotes(QuotesLanguages),
}

/// What a session is asked to be.
#[derive(Debug, Clone)]
pub struct Config {
    pub mode: GameMode,
    pub language: Language,
    /// A user-supplied content file, if any.
    pub file: Option<String>,
    pub word_count: usize,
    /// Seconds before the host ends the session, if bounded.
    pub time_limit: Option<u32>,
    pub punctuation: bool,
    pub numbers: bool,
    /// Whether Backspace may move back into the previous word.
    pub backtrack: bool,
    /// Whether the first mistake ends the session.
    pub death: bool,
}

/// Mathematical model of a [`Config`].
#[verifier::ext_equal]
pub struct ConfigV {
    pub mode: GameMode,
    pub language: Language,
    pub file: Option<Seq<char>>,
    pub word_count: usize,
    pub time_limit: Option<u32>,
    pub punctuation: bool,
    pub numbers: bool,
    pub backtrack: bool,
    pub death: bool,
}

impl View for Config {
    type V = ConfigV;

    open spec fn view(&self) -> ConfigV {
        ConfigV {
            mode: self.mode,
            language: self.language,
            file: match self.file {
                Some(s) => Some(s@),
                None => None,
            },
            word_count: self.word_count,
            time_limit: self.time_limit,
            punctuation: self.punctuation,
            numbers: self.numbers,
            backtrack: self.backtrack,
            death: self.death,
        }
    }
}

impl Default for Config {
    /// Twenty-five English words, backtracking on, everything else off.
    fn default() -> (r: Config)
        ensures
            r.mode == GameMode::Words,
            r.language == Language::Words(WordsLanguages::En),
            r.file is None,
            r.word_count == 25,
            r.time_limit is None,
            !r.punctuation,
            !r.numbers,
            r.backtrack,
            !r.death,
    {
        Config {
            mode: GameMode::Words,
            language: Language::Words(WordsLanguages::En),
            file: None,
            word_count: 25,
            time_limit: None,
            punctuation: false,
            numbers: false,
            backtrack: true,
            death: false,
        }
    }
}

/// A validated configuration with the notes explaining what was adjusted.
pub type ConfigResponse = Response<Config>;

/// The outcome [`validate_config`] is held to: the adjusted configuration,
/// the notes in the order they arise, and the severity of the worst finding.
pub struct Validation {
    pub config: ConfigV,
    pub notes: Seq<Seq<char>>,
    pub level: Level,
}

/// Clamp the settings a mode ignores (word count, punctuation, numbers),
/// noting each adjustment.
pub open spec fn clamp_extras(
    c: ConfigV,
    notes: Seq<Seq<char>>,
    msg_count: Seq<char>,
    msg_punct: Seq<char>,
    msg_num: Seq<char>,
) -> (ConfigV, Seq<Seq<char>>) {
    let (c1, n1) = if c.word_count != 25 {
        (ConfigV { word_count: 25, ..c }, notes.push(msg_count))
    } else {
        (c, notes)
    };
    let (c2, n2) = if c1.punctuation {
        (ConfigV { punctuation: false, ..c1 }, n1.push(msg_punct))
    } else {
        (c1, n1)
    };
    if c2.numbers {
        (ConfigV { numbers: false, ..c2 }, n2.push(msg_num))
    } else {
        (c2, n2)
    }
}

/// What validation does to a configuration, step by step:
/// a zero word count becomes 30; a zero time limit is disabled; a custom file
/// in Zen mode is an error; a language of the wrong kind falls back (Quote
/// mode falls all the way back to Words mode); Quote and Zen modes drop the
/// settings they ignore.
pub open spec fn validate_spec(c: ConfigV) -> Validation {
    let wc_bad = c.word_count == 0;
    let c1 = if wc_bad {
        ConfigV { word_count: 30, ..c }
    } else {
        c
    };
    let n1: Seq<Seq<char>> = if wc_bad {
        seq!["invalid word count, set to 30"@]
    } else {
        Seq::empty()
    };
    let tl_bad = c1.time_limit == Some(0u32);
    let c2 = if tl_bad {
        ConfigV { time_limit: None, ..c1 }
    } else {
        c1
    };
    let n2 = if tl_bad {
        n1.push("invalid time limit, disabled"@)
    } else {
        n1
    };
    let file_zen = c2.file is Some && c2.mode is Zen;
    let n3 = if file_zen {
        n2.push("provided custom file, but chosen zen mode"@)
    } else {
        n2
    };
    let (c4, n4) = match c2.mode {
        GameMode::Words => {
            if !(c2.language is Words) {
                (
                    ConfigV { language: Language::Words(WordsLanguages::En), ..c2 },
                    n3.push("invalid language for words mode, fallback to 'en'"@),
                )
            } else {
                (c2, n3)
            }
        }
        GameMode::Quote => {
            if !(c2.language is Quotes) {
                (
                    ConfigV {
                        mode: GameMode::Words,
                        language: Language::Words(WordsLanguages::En),
                        ..c2
                    },
                    n3.push("invalid language for quote mode, fallback to 'words' mode"@),
                )
            } else {
                clamp_extras(
                    c2,
                    n3,
                    "quote mode ignores word count"@,
                    "quote mode ignores punctuation"@,
                    "quote mode ignores numbers"@,
                )
            }
        }
        GameMode::Zen => clamp_extras(
            c2,
            n3,
            "zen mode ignores word count"@,
            "zen mode ignores punctuation"@,
            "zen mode ignores numbers"@,
        ),
    };
    Validation {
        config: c4,
        notes: n4,
        level: if file_zen {
            Level::Error
        } else if n4.len() > 0 {
            Level::Warning
        } else {
            Level::Info
        },
    }
}

/// Check a configuration and adjust whatever is invalid or ignored, reporting
/// every adjustment in one joined message at the severity of the worst
/// finding.
#[verifier::rlimit(50)]
pub fn validate_config(config: Config) -> (r: ConfigResponse)
    ensures
        ({
            let v = validate_spec(config@);
            &&& r.payload@ == v.config
            &&& (v.notes.len() == 0 ==> r.message is None)
            &&& (v.notes.len() > 0 ==> (r.message matches Some((lvl, text)) && lvl == v.level
                && text@ == join_with(v.notes, ", "@)))
        }),
{
    let ghost v = validate_spec(config@);
    let mut config = config;
    let mut notes: Vec<&str> = Vec::new();
    let mut level = Level::Info;
    let ghost pre_mode_config = config@;

    if config.word_count == 0 {
        config.word_count = 30;
        notes.push("invalid word count, set to 30");
        level.escalate(Level::Warning);
    }

    if let Some(limit) = config.time_limit {
        if limit == 0 {
            config.time_limit = None;
            notes.push("invalid time limit, disabled");
            level.escalate(Level::Warning);
        }
    }

    let file_zen = config.file.is_some() && matches!(config.mode, GameMode::Zen);
    if file_zen {
        notes.push("provided custom file, but chosen zen mode");
        level.escalate(Level::Error);
    }

    match config.mode {
        GameMode::Words => {
            if !matches!(config.language, Language::Words(_)) {
                notes.push("invalid language for words mode, fallback to 'en'");
                config.language = Language::Words(WordsLanguages::En);
                level.escalate(Level::Warning);
            }
        }
        GameMode::Quote => {
            if !matches!(config.language, Language::Quotes(_)) {
                notes.push("invalid language for quote mode, fallback to 'words' mode");
                config.mode = GameMode::Words;
                config.language = Language::Words(WordsLanguages::En);
                level.escalate(Level::Warning);
            } else {
                if config.word_count != 25 {
                    config.word_count = 25;
                    notes.push("quote mode ignores word count");
                    level.escalate(Level::Warning);
                }
                if config.punctuation {
                    config.punctuation = false;
                    notes.push("quote mode ignores punctuation");
                    level.escalate(Level::Warning);
                }
                if config.numbers {
                    config.numbers = false;
                    notes.push("quote mode ignores numbers");
                    level.escalate(Level::Warning);
                }
            }
        }
        GameMode::Zen => {
            if config.word_count != 25 {
                config.word_count = 25;
                notes.push("zen mode ignores word count");
                level.escalate(Level::Warning);
            }
            if config.punctuation {
                config.punctuation = false;
                notes.push("zen mode ignores punctuation");
                level.escalate(Level::Warning);
            }
            if config.numbers {
                config.numbers = false;
                notes.push("zen mode ignores numbers");
                level.escalate(Level::Warning);
            }
        }
    }

    proof {
        assert(config@ =~= v.config);
        assert(notes@.map_values(|p: &str| p@) =~= v.notes);
        assert(notes@.len() > 0 ==> level == v.level);
    }

    build_response(config, notes, level)
}

/// Wrap the configuration with the joined notes, or with no message when
/// there is nothing to report.
fn build_response(config: Config, notes: Vec<&str>, level: Level) -> (r: ConfigResponse)
    ensures
        r.payload == config,
        notes@.len() == 0 ==> r.message is None,
        notes@.len() > 0 ==> (r.message matches Some((lvl, text)) && lvl == level && text@
            == join_with(notes@.map_values(|p: &str| p@), ", "@)),
{
    if notes.len() == 0 {
        return Response::plain(config);
    }

    let joined = join_strs(&notes, ", ");
    Response { payload: config, message: Some((level, joined)) }
}

} // verus!
