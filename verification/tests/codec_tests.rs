use config_store::{load, Config, Number};

fn b(s: &str) -> Vec<u8> {
    s.as_bytes().to_vec()
}

fn num(s: &str) -> Number {
    Number::new(b(s)).expect("valid number text")
}

#[test]
fn missing_file_yields_empty_store() {
    let mut c = load("nowhere.conf".to_string(), None);
    assert_eq!(c.path().as_str(), "nowhere.conf");
    assert_eq!(c.get_string(&b("any"), &b("d")), b("d"));
    assert_eq!(c.get_bool(&b("flag"), &false), false);
}

#[test]
fn type_inference_priority() {
    let text = b("flag=true\npi=3.14\nname=hello\ncased=True\n");
    let mut c = load("t".to_string(), Some(text));
    assert_eq!(c.get_bool(&b("flag"), &false), true);
    assert_eq!(c.get_number(&b("pi"), &num("0")).bytes(), &b("3.14"));
    assert_eq!(c.get_string(&b("name"), &b("zz")), b("hello"));
    assert_eq!(c.get_bool(&b("cased"), &false), true);
    // the boolean line landed in no other namespace
    assert_eq!(c.get_string(&b("flag"), &b("absent")), b("absent"));
    assert_eq!(c.get_number(&b("flag"), &num("9")).bytes(), &b("9"));
}

#[test]
fn malformed_lines_are_ignored() {
    let text = b("this line has no separator\nok = 1\n\nanother bad line\n");
    let mut c = load("t".to_string(), Some(text));
    assert_eq!(c.get_number(&b("ok"), &num("9")).bytes(), &b("1"));
    assert_eq!(c.get_string(&b("this line has no separator"), &b("d")), b("d"));
    assert_eq!(c.get_string(&b("another bad line"), &b("d")), b("d"));
}

#[test]
fn whitespace_is_trimmed_around_key_and_value() {
    let text = b("  spaced key  =   some value  \n");
    let mut c = load("t".to_string(), Some(text));
    assert_eq!(c.get_string(&b("spaced key"), &b("d")), b("some value"));
}

#[test]
fn value_keeps_later_separators() {
    let mut c = load("t".to_string(), Some(b("k = a=b\n")));
    assert_eq!(c.get_string(&b("k"), &b("d")), b("a=b"));
}

#[test]
fn empty_value_is_an_empty_string() {
    let mut c = load("t".to_string(), Some(b("k =\n")));
    assert_eq!(c.get_string(&b("k"), &b("d")), b(""));
}

#[test]
fn later_lines_win_within_a_namespace() {
    let mut c = load("t".to_string(), Some(b("a = 1\na = 2\n")));
    assert_eq!(c.get_number(&b("a"), &num("9")).bytes(), &b("2"));
}

#[test]
fn crlf_lines_are_accepted() {
    let mut c = load("t".to_string(), Some(b("a = x\r\nb = y\r\n")));
    assert_eq!(c.get_string(&b("a"), &b("d")), b("x"));
    assert_eq!(c.get_string(&b("b"), &b("d")), b("y"));
}

#[test]
fn save_sorts_lines_lexicographically() {
    let mut c = Config::new("t".to_string());
    c.set_string(&b("zeta"), &b("last"));
    c.set_bool(&b("alpha"), &true);
    c.set_number(&b("mid"), &num("7"));
    assert_eq!(c.save(), b("alpha = true\nmid = 7\nzeta = last\n"));
}

#[test]
fn deterministic_output_regardless_of_insertion_order() {
    let mut c1 = Config::new("t".to_string());
    c1.set_string(&b("a"), &b("1"));
    c1.set_bool(&b("b"), &false);
    c1.set_number(&b("c"), &num("2"));
    let mut c2 = Config::new("t".to_string());
    c2.set_number(&b("c"), &num("2"));
    c2.set_string(&b("a"), &b("old"));
    c2.set_bool(&b("b"), &false);
    c2.set_string(&b("a"), &b("1"));
    assert_eq!(c1.save(), c2.save());
}

#[test]
fn round_trip_reproduces_the_store() {
    let mut c = Config::new("t".to_string());
    c.set_string(&b("name"), &b("widget"));
    c.set_string(&b("motto"), &b("less is more"));
    c.set_number(&b("retries"), &num("3"));
    c.set_number(&b("ratio"), &num("-1.25e2"));
    c.set_bool(&b("debug"), &false);
    c.set_bool(&b("verbose"), &true);
    let saved = c.save();
    let mut r = load("t".to_string(), Some(saved.clone()));
    assert_eq!(r.get_string(&b("name"), &b("zz")), b("widget"));
    assert_eq!(r.get_string(&b("motto"), &b("zz")), b("less is more"));
    assert_eq!(r.get_number(&b("retries"), &num("9")).bytes(), &b("3"));
    assert_eq!(r.get_number(&b("ratio"), &num("9")).bytes(), &b("-1.25e2"));
    assert_eq!(r.get_bool(&b("debug"), &true), false);
    assert_eq!(r.get_bool(&b("verbose"), &false), true);
    // saving the reloaded store reproduces the same bytes
    assert_eq!(r.save(), saved);
}

#[test]
fn end_to_end_scenario() {
    let text = b("retries = 3\ndebug = false\nname = widget\n");
    let c = load("app.conf".to_string(), Some(text));
    assert_eq!(c.save(), b("debug = false\nname = widget\nretries = 3\n"));
}

#[test]
fn final_line_terminator_is_optional() {
    let mut c = load("t".to_string(), Some(b("a = 1\nb = done")));
    assert_eq!(c.get_number(&b("a"), &num("9")).bytes(), &b("1"));
    assert_eq!(c.get_string(&b("b"), &b("d")), b("done"));
}
