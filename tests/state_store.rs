use xtask_engine::state::{configure, unconfigure, GlobalState, State, Symbols};

#[test]
fn overlay_wins_over_persisted_values() {
    let mut st = State::new();
    assert_eq!(st.get("A"), None);
    st.set("A", "1");
    assert_eq!(st.get("A"), Some("1"));
    st.set_temporary("A", "2");
    assert_eq!(st.get("A"), Some("2"));
    st.set("A", "3");
    assert_eq!(st.get("A"), Some("2"));
    let entries = st.iter();
    assert_eq!(entries, vec![("A".to_string(), "2".to_string())]);
}

#[test]
fn iter_lists_overlay_then_unshadowed_items() {
    let mut st = State::new();
    st.set("X", "x");
    st.set("Y", "y");
    st.set_temporary("Y", "t");
    st.set_temporary("Z", "z");
    assert_eq!(
        st.iter(),
        vec![
            ("Y".to_string(), "t".to_string()),
            ("Z".to_string(), "z".to_string()),
            ("X".to_string(), "x".to_string()),
        ]
    );
}

#[test]
fn items_are_saved_in_key_order() {
    let mut st = State::new();
    st.set("b", "2");
    st.set("a", "1");
    st.set("C", "3");
    assert_eq!(st.save_text(&Symbols::empty()), "C=3\na=1\nb=2\n");
}

#[test]
fn set_keeps_place_and_replaces_value() {
    let mut st = State::new();
    st.set("A", "1");
    st.set("B", "2");
    st.set("A", "3");
    let sym = Symbols::empty();
    assert_eq!(st.save_text(&sym), "A=3\nB=2\n");
}

#[test]
fn load_parses_entries_comments_and_blank_lines() {
    let sym = Symbols::with_root("/project");
    let text = "# a comment\n\nWORK_DIR=$<root>/work # trailing\n  VERSION=24  \r\nEMPTY=\n";
    let st = State::load(text, &sym).unwrap();
    assert_eq!(st.get("WORK_DIR"), Some("/project/work"));
    assert_eq!(st.get("VERSION"), Some("24"));
    assert_eq!(st.get("EMPTY"), Some(""));
    assert_eq!(st.get("a comment"), None);
}

#[test]
fn load_later_line_overrides_earlier() {
    let st = State::load("K=1\nK=2\n", &Symbols::empty()).unwrap();
    assert_eq!(st.get("K"), Some("2"));
    assert_eq!(st.iter().len(), 1);
}

#[test]
fn load_rejects_line_without_separator() {
    let e = State::load("A=1\nnot an entry\nB=2\n", &Symbols::empty()).unwrap_err();
    assert_eq!(e.line, 1);
}

#[test]
fn load_rejects_line_with_two_separators() {
    let e = State::load("A=1=2\n", &Symbols::empty()).unwrap_err();
    assert_eq!(e.line, 0);
}

#[test]
fn save_then_load_round_trips_placeholders() {
    let sym = Symbols::with_root("/home/me/project");
    let mut st = State::new();
    st.set("WORK_DIR", "/home/me/project/work");
    st.set("VERSION", "24");
    st.set_temporary("ONLY_NOW", "x");
    let text = st.save_text(&sym);
    assert_eq!(text, "VERSION=24\nWORK_DIR=$<root>/work\n");
    let back = State::load(&text, &sym).unwrap();
    assert_eq!(back.get("WORK_DIR"), Some("/home/me/project/work"));
    assert_eq!(back.get("VERSION"), Some("24"));
    assert_eq!(back.get("ONLY_NOW"), None);
    assert_eq!(back.save_text(&sym), text);
}

#[test]
fn configure_resolves_symbols_then_state_keys() {
    let sym = Symbols::with_root("/r");
    let mut st = State::new();
    st.set("OUT", "out-dir");
    let v = configure("$<root>/$<OUT>/x", &sym, Some(&st));
    assert_eq!(v, "/r/out-dir/x");
    let only_symbols = configure("$<root>/$<OUT>/x", &sym, None);
    assert_eq!(only_symbols, "/r/$<OUT>/x");
    let back = unconfigure("/r/out-dir/x", &sym, Some(&st));
    assert_eq!(back, "$<root>/$<OUT>/x");
}

#[test]
fn environment_with_prefix_is_imported_into_overlay() {
    let sym = Symbols::with_root("/r");
    let mut st = State::new();
    st.set("WORK_DIR", "persisted");
    let vars = vec![
        ("XTASK_WORK_DIR".to_string(), "$<root>/w".to_string()),
        ("PATH".to_string(), "/bin".to_string()),
    ];
    st.import_environment(&vars, &sym);
    assert_eq!(st.get("WORK_DIR"), Some("/r/w"));
    assert_eq!(st.get("PATH"), None);
    assert_eq!(st.save_text(&sym), "WORK_DIR=persisted\n");
}

#[test]
fn global_state_is_one_context() {
    let mut g = GlobalState::open(None, Symbols::with_root("/r")).unwrap();
    g.set("A", "/r/a");
    g.set_temporary("B", "b");
    assert_eq!(g.get("A"), Some("/r/a".to_string()));
    assert_eq!(g.get("B"), Some("b".to_string()));
    assert_eq!(g.configure("$<B>:$<root>"), "b:/r");
    assert_eq!(g.save(), "A=$<root>/a\n");
    g.as_mut().set("C", "c");
    assert_eq!(g.as_ref().get("C"), Some("c"));
    let loaded = GlobalState::open(Some("A=$<root>/a\n"), Symbols::with_root("/r")).unwrap();
    assert_eq!(loaded.get("A"), Some("/r/a".to_string()));
    assert!(GlobalState::open(Some("broken\n"), Symbols::empty()).is_err());
}

#[test]
fn values_with_dollar_signs_round_trip() {
    let sym = Symbols::with_root("/r");
    let mut st = State::new();
    st.set("PRICE", "$5 at /r/shop");
    st.set("REF", "$<OTHER>");
    let text = st.save_text(&sym);
    assert_eq!(text, "PRICE=$5 at $<root>/shop\nREF=$<OTHER>\n");
    let back = State::load(&text, &sym).unwrap();
    assert_eq!(back.get("PRICE"), Some("$5 at /r/shop"));
    assert_eq!(back.get("REF"), Some("$<OTHER>"));
}
