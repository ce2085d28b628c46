use xtask_engine::Action;

#[test]
fn tokens_parse_to_their_actions() {
    assert_eq!(Action::parse_arg("build-plugin"), Ok(Action::BuildPlugin));
    assert_eq!(Action::parse_arg("package-plugin"), Ok(Action::PackagePlugin));
    assert_eq!(Action::parse_arg("build-manual"), Ok(Action::CompileManual));
    assert_eq!(Action::parse_arg("package"), Ok(Action::Package));
    assert_eq!(Action::parse_arg("ci"), Ok(Action::RunCI));
    assert_eq!(Action::parse_arg("all"), Ok(Action::All));
}

#[test]
fn unknown_or_empty_token_is_returned() {
    assert_eq!(Action::parse_arg("stub wasi"), Err("stub wasi".to_string()));
    assert_eq!(Action::parse_arg(""), Err(String::new()));
    assert_eq!(Action::parse_arg("All"), Err("All".to_string()));
}

#[test]
fn every_token_maps_back_to_its_action() {
    for i in 0..15 {
        let a = Action::from_index(i).unwrap();
        assert_eq!(a.index(), i);
        if let Some(t) = a.token() {
            assert_eq!(Action::parse_arg(t), Ok(a));
        }
    }
    assert_eq!(Action::from_index(15), None);
}

#[test]
fn names_and_dependencies_follow_the_table() {
    assert_eq!(Action::EnsureWasi.name(), Some("prepare WASI SDK"));
    assert_eq!(Action::CopyLicense.name(), None);
    assert_eq!(Action::All.name(), None);
    assert_eq!(Action::OptPlugin.dependencies(), vec![Action::EnsureWasmOpt, Action::StubPlugin]);
    assert_eq!(Action::All.dependencies(), vec![Action::Package]);
    assert!(Action::EnsureWasi.dependencies().is_empty());
    assert!(!Action::Package.has_runner());
    assert!(Action::CopyLicense.has_runner());
    assert_eq!(Action::default(), Action::All);
}

#[test]
fn table_graph_matches_declarations() {
    let g = Action::graph();
    assert_eq!(g.nodes.len(), 15);
    let pp = Action::PackagePlugin.index();
    assert_eq!(g.nodes[pp].deps, vec![Action::StubPlugin.index(), Action::OptPlugin.index()]);
    assert!(!g.nodes[pp].runnable);
}
