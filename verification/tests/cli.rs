use router::{parse_cli_route, Opt, OptArgKind, OptGroupRules, RouteError, Router, Segment, TreeNode};

fn cli_fixture() -> Router {
    Router {
        tree: vec![
            // 0: path
            TreeNode { child_span: 7, parent: 0 },
            // 1:   a
            TreeNode { child_span: 2, parent: 0 },
            // 2:     a1
            TreeNode { child_span: 0, parent: 1 },
            // 3:     a2
            TreeNode { child_span: 0, parent: 1 },
            // 4:   b
            TreeNode { child_span: 2, parent: 0 },
            // 5:     b1
            TreeNode { child_span: 0, parent: 4 },
            // 6:     b2
            TreeNode { child_span: 0, parent: 4 },
            // 7:   c
            TreeNode { child_span: 0, parent: 0 },
        ],
        segments: vec![
            Segment { operands: 0, opt_groups: 0, name: 3 },
            Segment { operands: 0, opt_groups: 0, name: 4 },
            Segment { operands: 0, opt_groups: 1 << 12, name: 5 },
            Segment { operands: 2, opt_groups: 0, name: 6 },
            Segment { operands: 0, opt_groups: 0, name: 7 },
            Segment { operands: 0, opt_groups: 0, name: 8 },
            Segment { operands: 0, opt_groups: 1 << 12 | 1, name: 9 },
            Segment { operands: 0, opt_groups: 0, name: 10 },
        ],
        short_option_mappers: vec![(0, 'k'), (1, 'm'), (2, 's')],
        names: vec![
            "key-only", "multi1", "single1", "path", "a", "a1", "a2", "b", "b1", "b2", "c",
        ],
        options: vec![
            Opt { kind: OptArgKind::KeyOnly, name: 0 },
            Opt { kind: OptArgKind::Multiple, name: 1 },
            Opt { kind: OptArgKind::Single, name: 2 },
        ],
        opt_group_rules: vec![OptGroupRules::AnyOf as u8, OptGroupRules::Required as u8],
        opt_groups: vec![vec![1, 2], vec![0]],
        help_opt_index: None,
    }
}

fn args(tokens: &[&str]) -> Vec<String> {
    tokens.iter().map(|t| t.to_string()).collect()
}

#[test]
fn should_parse_a_cli_route_with_no_options_or_terminator() {
    let router = cli_fixture();

    let c = parse_cli_route(&router, args(&["c"])).unwrap();
    assert_eq!(c.selected, 7);
}

#[test]
fn should_parse_a_cli_route_with_options() {
    let router = cli_fixture();

    // * An option that expects no option-args
    let c = parse_cli_route(&router, args(&["b", "--key-only", "b1"])).unwrap();
    assert_eq!(c.selected, 5);
    assert_eq!(c.option_occurrences, [1, 0, 0]);

    // * Treat the '=' separator in option names as a regular character
    let c = parse_cli_route(&router, args(&["b", "--cal=val", "b1"])).unwrap();
    assert_eq!(c.selected, 5);
    assert_eq!(c.option_occurrences, [0, 0, 0]);
    assert_eq!(c.saved_args.len(), 0);

    // * Prohibit an option from clustering when it expects an
    // * option-arg
    let c = parse_cli_route(&router, args(&["b", "-skm", "b1"]));
    assert!(c.is_err());

    // * An option that expects an option-arg
    let c = parse_cli_route(&router, args(&["b", "--single1", "val", "b1"])).unwrap();
    assert_eq!(c.selected, 5);
    assert_eq!(c.option_occurrences, [0, 0, 1]);
    assert_eq!(c.saved_args, vec!["val".to_string()]);

    // * An option that expects an option-arg and can occur multiple
    // * times
    let c = parse_cli_route(
        &router,
        args(&["b", "--multi1", "val", "b1", "--single1", "single1-val", "--multi1", "val2"]),
    )
    .unwrap();
    assert_eq!(c.selected, 5);
    assert_eq!(c.option_occurrences, [0, 2, 1]);
    assert_eq!(
        c.saved_args,
        vec!["val".to_string(), "val2".to_string(), "single1-val".to_string()],
    );
    assert_eq!(c.arg_ranges.len(), 1);
    assert_eq!(c.arg_ranges[0].start, 0);
    assert_eq!(c.arg_ranges[0].end, 2);
    assert_eq!(c.option_args, vec![(1, 0), (2, 2)]);

    // * An option that expects an option-arg and replaces its first
    // * occurrence
    let c = parse_cli_route(
        &router,
        args(&["b", "--single1", "single1-val", "b1", "--single1", "single1-val2"]),
    )
    .unwrap();
    assert_eq!(c.selected, 5);
    assert_eq!(c.option_occurrences, [0, 0, 2]);
    assert_eq!(c.saved_args, vec!["single1-val2".to_string()]);
    assert_eq!(c.arg_ranges.len(), 0);
    assert_eq!(c.option_args, vec![(2, 0)]);

    // * Short option aliases
    let c = parse_cli_route(&router, args(&["b", "-s", "val", "b1", "-k", "-k"])).unwrap();
    assert_eq!(c.selected, 5);
    assert_eq!(c.option_occurrences, [2, 0, 1]);
    assert_eq!(c.saved_args, vec!["val".to_string()]);
}

#[test]
fn should_parse_a_cli_route_with_terminator() {
    let router = cli_fixture();

    let c = parse_cli_route(&router, args(&["b", "--", "--single1", "b1"])).unwrap();
    assert_eq!(c.selected, 4);
    assert_eq!(c.option_occurrences, [0, 0, 0]);
    // The terminator marks where operands end and the trailing,
    // unparsed tokens begin: nothing preceded it here.
    assert_eq!(c.operands_end, 0);
    assert_eq!(c.operands, vec!["--single1".to_string(), "b1".to_string()]);
    assert_eq!(
        c.terminated_args(),
        &["--single1".to_string(), "b1".to_string()],
    );
}

#[test]
fn should_parse_a_cli_route_with_operands() {
    let router = cli_fixture();
    let c = parse_cli_route(
        &router,
        args(&[
            "a",
            "--key-only",
            "a2",
            "operand1",
            "operand2",
            "--multi1",
            "some-multi-opt-val",
            "--multi1",
            "another-multi-opt-val",
            "--single1",
            "single-opt-val",
        ]),
    )
    .unwrap();
    assert_eq!(c.selected, 3);
    assert_eq!(
        c.saved_args,
        vec![
            "some-multi-opt-val".to_string(),
            "another-multi-opt-val".to_string(),
            "single-opt-val".to_string(),
        ],
    );
    assert_eq!(c.operands, vec!["operand1".to_string(), "operand2".to_string()]);
}

#[test]
fn should_validate_option_against_option_groups() {
    let router = cli_fixture();
    if parse_cli_route(&router, args(&["a", "a1", "--key-only"])).is_ok() {
        panic!("Can have `single1` or `multi1` options, but not `key-only` option");
    }

    assert!(parse_cli_route(&router, args(&["a", "a1", "--single1", "single-val"])).is_ok());
    assert!(parse_cli_route(&router, args(&["a", "a1"])).is_ok());
    assert!(parse_cli_route(&router, args(&["a"])).is_ok());
    assert!(parse_cli_route(&router, args(&["b", "b2"])).is_err());
    assert!(parse_cli_route(&router, args(&["b", "b2", "--key-only"])).is_ok());
}

#[test]
fn should_record_multi_values_in_encounter_order() {
    let router = cli_fixture();
    let c = parse_cli_route(
        &router,
        args(&["b", "--single1", "x", "-m", "y", "b1", "-m", "z"]),
    )
    .unwrap();
    assert_eq!(c.selected, 5);
    assert_eq!(c.option_occurrences, [0, 2, 1]);
    // single1 holds "x"; multi1 holds ["y", "z"] in encounter order.
    let single_arg = c.opt(&router, 2);
    assert_eq!(
        &c.saved_args[single_arg.start as usize..single_arg.end as usize],
        &["x".to_string()],
    );
    let multi_arg = c.opt(&router, 1);
    assert_eq!(
        &c.saved_args[multi_arg.start as usize..multi_arg.end as usize],
        &["y".to_string(), "z".to_string()],
    );
    // No other option's recorded positions point into multi1's range.
    assert_eq!(c.arg_ranges.len(), 1);
    assert!(single_arg.end <= c.arg_ranges[0].start || c.arg_ranges[0].end <= single_arg.start);
}

#[test]
fn should_read_option_values_through_arg() {
    let router = cli_fixture();
    let c = parse_cli_route(&router, args(&["b", "-m", "y", "b1", "-m", "z"])).unwrap();
    let mut arg = c.opt(&router, 1);
    assert_eq!(arg.value(&c), Some("y".to_string()));
    assert_eq!(arg.value(&c), Some("z".to_string()));
    assert_eq!(arg.value(&c), None);
    let mut none_arg = c.opt(&router, 2);
    assert_eq!(none_arg.value(&c), None);
}

#[test]
fn should_require_a_group_member_when_a_group_is_required() {
    // One group {multi1, single1}, any-of plus required, on a1.
    let mut router = cli_fixture();
    router.opt_group_rules = vec![
        OptGroupRules::AnyOf as u8 | OptGroupRules::Required as u8,
        OptGroupRules::Required as u8,
    ];
    let r = parse_cli_route(&router, args(&["a", "a1"]));
    assert_eq!(r.err(), Some(RouteError::MissingRequiredOption));
    assert!(parse_cli_route(&router, args(&["a", "a1", "--single1", "v"])).is_ok());
}

#[test]
fn should_reject_two_options_of_a_oneof_group() {
    let mut router = cli_fixture();
    router.opt_group_rules = vec![OptGroupRules::OneOf as u8, OptGroupRules::Required as u8];
    let r = parse_cli_route(
        &router,
        args(&["a", "a1", "--single1", "v", "--multi1", "w"]),
    );
    assert!(matches!(r, Err(RouteError::MutuallyExclusiveOptions(_, _))));
}

#[test]
fn should_report_a_missing_option_argument() {
    let router = cli_fixture();
    let r = parse_cli_route(&router, args(&["b", "--single1"]));
    assert_eq!(r.err(), Some(RouteError::MissingOptionArgument));
}

#[test]
fn should_treat_a_lone_hyphen_as_an_operand() {
    let router = cli_fixture();
    // a2 consumes two operands; "-" is the conventional stdin marker.
    let c = parse_cli_route(&router, args(&["a", "a2", "-", "x"])).unwrap();
    assert_eq!(c.selected, 3);
    assert_eq!(c.operands, vec!["-".to_string(), "x".to_string()]);
}

#[test]
fn should_capture_wildcard_path_parameters() {
    let mut router = cli_fixture();
    // Rename segment "a" (name index 4) to a wildcard.
    router.names[4] = ":a";
    let c = parse_cli_route(&router, args(&["anything", "a1"])).unwrap();
    assert_eq!(c.selected, 2);
    assert_eq!(c.path_params, 1);
    assert_eq!(c.path_params(), &["anything".to_string()]);
}

#[test]
fn wf_check_should_accept_the_fixture_and_reject_corruption() {
    let router = cli_fixture();
    assert!(router.wf_check());

    // A span reaching past the tree is rejected.
    let mut bad_span = cli_fixture();
    bad_span.tree[7].child_span = 5;
    assert!(!bad_span.wf_check());

    // An unsorted option table is rejected.
    let mut unsorted = cli_fixture();
    unsorted.options.swap(1, 2);
    assert!(!unsorted.wf_check());

    // A group member outside the option table is rejected.
    let mut bad_member = cli_fixture();
    bad_member.opt_groups[0][0] = 9;
    assert!(!bad_member.wf_check());
}
