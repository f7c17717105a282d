use config_store::{Config, Number};

fn b(s: &str) -> Vec<u8> {
    s.as_bytes().to_vec()
}

fn num(s: &str) -> Number {
    Number::new(b(s)).expect("valid number text")
}

#[test]
fn new_store_is_empty() {
    let mut c = Config::new("settings.conf".to_string());
    assert_eq!(c.path().as_str(), "settings.conf");
    assert_eq!(c.save(), Vec::<u8>::new());
}

#[test]
fn default_materialization_strings() {
    let mut c = Config::new("t".to_string());
    let first = c.get_string(&b("greeting"), &b("hello"));
    assert_eq!(first, b("hello"));
    let second = c.get_string(&b("greeting"), &b("other"));
    assert_eq!(second, b("hello"));
}

#[test]
fn default_materialization_numbers() {
    let mut c = Config::new("t".to_string());
    let first = c.get_number(&b("ratio"), &num("1.5"));
    assert_eq!(first.bytes(), &b("1.5"));
    let second = c.get_number(&b("ratio"), &num("9"));
    assert_eq!(second.bytes(), &b("1.5"));
}

#[test]
fn default_materialization_bools() {
    let mut c = Config::new("t".to_string());
    assert_eq!(c.get_bool(&b("debug"), &true), true);
    assert_eq!(c.get_bool(&b("debug"), &false), true);
}

#[test]
fn set_overrides_default_strings() {
    let mut c = Config::new("t".to_string());
    c.set_string(&b("name"), &b("widget"));
    assert_eq!(c.get_string(&b("name"), &b("fallback")), b("widget"));
}

#[test]
fn set_overrides_default_numbers() {
    let mut c = Config::new("t".to_string());
    c.set_number(&b("retries"), &num("3"));
    assert_eq!(c.get_number(&b("retries"), &num("7")).bytes(), &b("3"));
}

#[test]
fn set_overrides_default_bools() {
    let mut c = Config::new("t".to_string());
    c.set_bool(&b("debug"), &false);
    assert_eq!(c.get_bool(&b("debug"), &true), false);
}

#[test]
fn set_overwrites_earlier_set() {
    let mut c = Config::new("t".to_string());
    c.set_string(&b("name"), &b("first"));
    c.set_string(&b("name"), &b("second"));
    assert_eq!(c.get_string(&b("name"), &b("d")), b("second"));
}

#[test]
fn namespace_independence() {
    let mut c = Config::new("t".to_string());
    c.set_string(&b("a"), &b("1"));
    let n = c.get_number(&b("a"), &num("2"));
    assert_eq!(n.bytes(), &b("2"));
    assert_eq!(c.get_string(&b("a"), &b("x")), b("1"));
    assert_eq!(c.get_number(&b("a"), &num("5")).bytes(), &b("2"));
    assert_eq!(c.get_bool(&b("a"), &true), true);
}

#[test]
fn materialized_default_is_saved() {
    let mut c = Config::new("t".to_string());
    let _ = c.get_string(&b("greeting"), &b("hello"));
    assert_eq!(c.save(), b("greeting = hello\n"));
}

#[test]
fn number_accepts_standard_forms() {
    for text in ["3.14", "-0.5", "1e9", "2E-3", ".5", "5.", "+7", "inf", "-Infinity", "NaN", "0"] {
        assert!(Number::new(b(text)).is_some(), "{} should parse", text);
    }
}

#[test]
fn number_rejects_other_text() {
    for text in ["", "abc", "1.2.3", "e5", "+", "-", "1e", "1e+", "true", "4 ", " 4", "0x10", "1_000"] {
        assert!(Number::new(b(text)).is_none(), "{} should not parse", text);
    }
}
