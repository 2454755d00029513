use typingcore::{validate_config, Config, GameMode, Language, Level, QuotesLanguages, Response,
    WordsLanguages};

#[test]
fn default_config_passes_untouched() {
    let r = validate_config(Config::default());
    assert!(r.message.is_none());
    assert_eq!(r.payload.word_count, 25);
    assert!(r.payload.backtrack);
    assert!(!r.payload.death);
    assert!(matches!(r.payload.mode, GameMode::Words));
}

#[test]
fn zero_word_count_becomes_thirty() {
    let mut c = Config::default();
    c.word_count = 0;
    let r = validate_config(c);
    assert_eq!(r.payload.word_count, 30);
    let (level, msg) = r.message.expect("an adjustment must be reported");
    assert!(matches!(level, Level::Warning));
    assert_eq!(msg, "invalid word count, set to 30");
}

#[test]
fn zero_time_limit_is_disabled() {
    let mut c = Config::default();
    c.time_limit = Some(0);
    let r = validate_config(c);
    assert_eq!(r.payload.time_limit, None);
    let (level, msg) = r.message.unwrap();
    assert!(matches!(level, Level::Warning));
    assert_eq!(msg, "invalid time limit, disabled");
}

#[test]
fn nonzero_time_limit_is_kept() {
    let mut c = Config::default();
    c.time_limit = Some(60);
    let r = validate_config(c);
    assert_eq!(r.payload.time_limit, Some(60));
    assert!(r.message.is_none());
}

#[test]
fn custom_file_with_zen_is_an_error() {
    let mut c = Config::default();
    c.mode = GameMode::Zen;
    c.file = Some("words.txt".to_string());
    let r = validate_config(c);
    let (level, msg) = r.message.unwrap();
    assert!(matches!(level, Level::Error));
    assert!(msg.contains("provided custom file, but chosen zen mode"));
}

#[test]
fn words_mode_with_quote_language_falls_back() {
    let mut c = Config::default();
    c.language = Language::Quotes(QuotesLanguages::En);
    let r = validate_config(c);
    assert!(matches!(r.payload.language, Language::Words(WordsLanguages::En)));
    let (_, msg) = r.message.unwrap();
    assert_eq!(msg, "invalid language for words mode, fallback to 'en'");
}

#[test]
fn quote_mode_with_words_language_falls_back_to_words_mode() {
    let mut c = Config::default();
    c.mode = GameMode::Quote;
    let r = validate_config(c);
    assert!(matches!(r.payload.mode, GameMode::Words));
    assert!(matches!(r.payload.language, Language::Words(WordsLanguages::En)));
    let (_, msg) = r.message.unwrap();
    assert_eq!(msg, "invalid language for quote mode, fallback to 'words' mode");
}

#[test]
fn quote_mode_clamps_ignored_settings() {
    let mut c = Config::default();
    c.mode = GameMode::Quote;
    c.language = Language::Quotes(QuotesLanguages::En);
    c.word_count = 50;
    c.punctuation = true;
    c.numbers = true;
    let r = validate_config(c);
    assert_eq!(r.payload.word_count, 25);
    assert!(!r.payload.punctuation);
    assert!(!r.payload.numbers);
    let (level, msg) = r.message.unwrap();
    assert!(matches!(level, Level::Warning));
    assert_eq!(
        msg,
        "quote mode ignores word count, quote mode ignores punctuation, quote mode ignores numbers"
    );
}

#[test]
fn zen_mode_clamps_ignored_settings() {
    let mut c = Config::default();
    c.mode = GameMode::Zen;
    c.word_count = 10;
    let r = validate_config(c);
    assert_eq!(r.payload.word_count, 25);
    let (_, msg) = r.message.unwrap();
    assert_eq!(msg, "zen mode ignores word count");
}

#[test]
fn messages_join_in_order_and_error_wins() {
    let mut c = Config::default();
    c.mode = GameMode::Zen;
    c.word_count = 0;
    c.file = Some("f".to_string());
    let r = validate_config(c);
    let (level, msg) = r.message.unwrap();
    assert!(matches!(level, Level::Error));
    assert_eq!(
        msg,
        "invalid word count, set to 30, provided custom file, but chosen zen mode, \
         zen mode ignores word count"
    );
    // The zero count first became 30, and Zen then clamped it to 25.
    assert_eq!(r.payload.word_count, 25);
}

#[test]
fn escalate_never_lowers() {
    let mut level = Level::Info;
    level.escalate(Level::Warning);
    assert!(matches!(level, Level::Warning));
    level.escalate(Level::Info);
    assert!(matches!(level, Level::Warning));
    level.escalate(Level::Error);
    assert!(matches!(level, Level::Error));
    level.escalate(Level::Warning);
    assert!(matches!(level, Level::Error));
}

#[test]
fn response_constructors_carry_level() {
    let plain: Response<u32> = Response::plain(7);
    assert!(plain.message.is_none());
    assert_eq!(plain.payload, 7);
    let info: Response<u32> = Response::with_info(1, "fyi");
    assert!(matches!(info.message, Some((Level::Info, _))));
    let warn: Response<u32> = Response::with_warning(2, "careful");
    assert!(matches!(warn.message, Some((Level::Warning, _))));
    let err: Response<u32> = Response::with_error(3, "broken");
    let (level, msg) = err.message.unwrap();
    assert!(matches!(level, Level::Error));
    assert_eq!(msg, "broken");
}

#[test]
fn language_codes() {
    assert_eq!(WordsLanguages::En.as_str(), "en");
    assert_eq!(QuotesLanguages::En.as_str(), "en");
}
