use chaser::i18n::{
    available_locales, get_current_locale, init_i18n_with_locale, is_locale_supported, set_locale,
    t, tf, I18n, Locale,
};

fn locale_of(pairs: &[(&str, &str)]) -> Locale {
    let mut l = Locale::new();
    for (k, v) in pairs {
        l.insert(k.to_string(), v.to_string());
    }
    l
}

#[test]
fn test_locale_struct() {
    let locale = locale_of(&[("key1", "value1"), ("key2", "value2")]);
    assert_eq!(locale.len(), 2);
    assert_eq!(locale.get("key1"), Some("value1".to_string()));
}

#[test]
fn test_i18n_new() {
    let result = I18n::new();
    assert!(result.is_ok());

    let i18n = result.unwrap();
    assert!(!i18n.get_current_locale().is_empty());
    assert!(i18n.is_locale_supported("en"));
    assert!(i18n.is_locale_supported("zh-cn"));
}

#[test]
fn test_set_locale() {
    let mut i18n = I18n {
        current_locale: "en".to_string(),
        locales: vec![
            ("en".to_string(), locale_of(&[("test", "Test")])),
            ("zh-cn".to_string(), locale_of(&[("test", "\u{6d4b}\u{8bd5}")])),
        ],
    };

    let initial_locale = i18n.current_locale.clone();

    i18n.set_locale("zh-cn");
    assert_eq!(i18n.current_locale, "zh-cn");

    i18n.set_locale("invalid");
    assert_eq!(i18n.current_locale, "zh-cn");

    i18n.set_locale(&initial_locale);
    assert_eq!(i18n.current_locale, initial_locale);
}

#[test]
fn test_get_current_locale() {
    let i18n = I18n { current_locale: "zh-cn".to_string(), locales: Vec::new() };
    assert_eq!(i18n.get_current_locale(), "zh-cn");
}

#[test]
fn test_t() {
    let i18n = I18n {
        current_locale: "en".to_string(),
        locales: vec![("en".to_string(), locale_of(&[("existing_key", "Existing Value")]))],
    };

    assert_eq!(i18n.t("existing_key"), "Existing Value");
    assert_eq!(i18n.t("non_existing_key"), "non_existing_key");
}

#[test]
fn test_tf() {
    let i18n = I18n {
        current_locale: "en".to_string(),
        locales: vec![(
            "en".to_string(),
            locale_of(&[("hello", "Hello {0}"), ("multiple", "User {0} has {1} items")]),
        )],
    };

    assert_eq!(i18n.tf("hello", &vec!["World".to_string()]), "Hello World");
    assert_eq!(
        i18n.tf("multiple", &vec!["Alice".to_string(), "5".to_string()]),
        "User Alice has 5 items"
    );
    assert_eq!(i18n.tf("non_existing", &vec!["test".to_string()]), "non_existing");
}

#[test]
fn test_available_locales() {
    let locales = available_locales();
    assert!(!locales.is_empty());
    assert!(locales.contains(&"en".to_string()));
}

#[test]
fn test_is_locale_supported() {
    let i18n = I18n {
        current_locale: "en".to_string(),
        locales: vec![
            ("en".to_string(), Locale::new()),
            ("zh-cn".to_string(), Locale::new()),
        ],
    };

    assert!(i18n.is_locale_supported("en"));
    assert!(i18n.is_locale_supported("zh-cn"));
    assert!(!i18n.is_locale_supported("fr"));
    assert!(!i18n.is_locale_supported("invalid"));
    assert!(!i18n.is_locale_supported(""));
}

#[test]
fn test_global_functions_without_init() {
    let result = t("test_key");
    assert_eq!(result, "test_key");

    let result = tf("test_key", &vec!["param1".to_string(), "param2".to_string()]);
    assert_eq!(result, "test_key");
}

#[test]
fn test_set_global_locale() {
    set_locale("zh-cn");
    set_locale("en");
}

#[test]
fn test_init_i18n_with_locale() {
    let result = init_i18n_with_locale("en");
    if result.is_ok() {
        let message = t("test_key");
        assert!(!message.is_empty());
    }
    let _ = init_i18n_with_locale("en");
}

#[test]
fn test_parameter_replacement() {
    let i18n = I18n { current_locale: "nonexistent".to_string(), locales: Vec::new() };

    let result = i18n.tf(
        "Hello {0}, you have {1} messages",
        &vec!["Alice".to_string(), "5".to_string()],
    );
    assert_eq!(result, "Hello Alice, you have 5 messages");
}

#[test]
fn test_edge_cases() {
    let i18n = I18n { current_locale: "en".to_string(), locales: Vec::new() };

    assert_eq!(i18n.t(""), "");
    assert_eq!(i18n.tf("", &Vec::new()), "");

    assert_eq!(i18n.tf("test", &Vec::new()), "test");

    let mut i18n_empty = i18n.clone();
    i18n_empty.current_locale = String::new();
    assert_eq!(i18n_empty.t("test"), "test");
}

#[test]
fn test_parse_locale() {
    assert_eq!(I18n::parse_locale("zh_CN.UTF-8"), Some("zh-cn".to_string()));
    assert_eq!(I18n::parse_locale("zh-Hans"), Some("zh-cn".to_string()));
    assert_eq!(I18n::parse_locale("en_US.UTF-8"), Some("en".to_string()));
    assert_eq!(I18n::parse_locale("fr_FR.UTF-8"), Some("en".to_string()));
    assert_eq!(I18n::parse_locale("de_DE"), None);
}

#[test]
fn test_global_current_locale() {
    assert_eq!(get_current_locale(), "en");
    assert!(!is_locale_supported("en"));
}
