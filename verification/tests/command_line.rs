use cfa::cli::{zip_codes_from, Action, Arg};

fn args(v: &[&str]) -> Vec<String> {
    v.iter().map(|s| s.to_string()).collect()
}

#[test]
fn too_few_arguments_are_refused() {
    match Arg::new(&args(&["cfa"])) {
        Err(e) => assert_eq!(e, "not enough arguments"),
        Ok(_) => panic!("accepted"),
    }
}

#[test]
fn flags_name_their_steps() {
    let cases = [
        ("-download_cfa_data", Action::DownloadCfaData),
        ("-dcd", Action::DownloadCfaData),
        ("-decide_connections", Action::DecideConnections),
        ("-dc", Action::DecideConnections),
        ("-form_graph", Action::FormGraph),
        ("-fg", Action::FormGraph),
        ("-run_yen", Action::RunYen),
        ("-ry", Action::RunYen),
        ("-test", Action::Test),
        ("-x", Action::Help),
    ];
    for (flag, action) in cases {
        let a = Arg::new(&args(&["cfa", flag, "out.json", "in"])).ok().unwrap();
        assert_eq!(a.action, action);
        assert_eq!(a.output_path, "out.json");
        assert_eq!(a.dir, "in");
        assert!(a.input_two.is_none());
    }
}

#[test]
fn a_fifth_argument_is_the_second_input() {
    let a = Arg::new(&args(&["cfa", "-fg", "edges.json", "conns.json", "sites.json"])).ok().unwrap();
    assert_eq!(a.action, Action::FormGraph);
    assert_eq!(a.input_two.as_deref(), Some("sites.json"));
}

#[test]
fn zip_codes_are_split_at_comma_newline() {
    let contents = args(&["38655,\n38677", "38601"]);
    assert_eq!(zip_codes_from(&contents), args(&["38655", "38677", "38601"]));
}

#[test]
fn zip_codes_keep_empty_pieces() {
    assert_eq!(zip_codes_from(&args(&["1,\n"])), args(&["1", ""]));
    assert_eq!(zip_codes_from(&args(&[])), args(&[""]));
    assert_eq!(zip_codes_from(&args(&["1,2", "3\n"])), args(&["1,2", "3\n"]));
}
