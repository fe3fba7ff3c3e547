use router::{
    parse_cli_route, parse_uri_route, parse_uri_scheme_and_authority, Opt, OptArgKind, Router,
    Segment, TreeNode,
};

fn uri_fixture() -> Router {
    Router {
        tree: vec![
            // 0: (root, i.e. URI host)
            TreeNode { child_span: 8, parent: 0 },
            // 1: path
            TreeNode { child_span: 7, parent: 0 },
            // 2:   a
            TreeNode { child_span: 2, parent: 1 },
            // 3:     a1
            TreeNode { child_span: 0, parent: 2 },
            // 4:     a2
            TreeNode { child_span: 0, parent: 2 },
            // 5:   b
            TreeNode { child_span: 2, parent: 1 },
            // 6:     b1
            TreeNode { child_span: 0, parent: 5 },
            // 7:     b2
            TreeNode { child_span: 0, parent: 5 },
            // 8:   c
            TreeNode { child_span: 0, parent: 1 },
        ],
        segments: vec![
            Segment { operands: 0, opt_groups: 0, name: 3 },
            Segment { operands: 0, opt_groups: 0, name: 4 },
            Segment { operands: 0, opt_groups: 0, name: 5 },
            Segment { operands: 0, opt_groups: 0, name: 6 },
            Segment { operands: 0, opt_groups: 0, name: 7 },
            Segment { operands: 0, opt_groups: 0, name: 8 },
            Segment { operands: 0, opt_groups: 0, name: 9 },
            Segment { operands: 0, opt_groups: 0, name: 10 },
            Segment { operands: 0, opt_groups: 0, name: 11 },
        ],
        short_option_mappers: vec![(0, 'k'), (1, 's'), (2, 'm')],
        names: vec![
            "key-only", "single1", "multi1", "root", "path", "a", "a1", "a2", "b", "b1", "b2",
            "c",
        ],
        options: vec![
            Opt { kind: OptArgKind::KeyOnly, name: 0 },
            Opt { kind: OptArgKind::Single, name: 1 },
            Opt { kind: OptArgKind::Multiple, name: 2 },
        ],
        opt_group_rules: vec![],
        opt_groups: vec![],
        help_opt_index: None,
    }
}

fn placeholder_fixture() -> Router {
    Router {
        tree: vec![
            // 0: https://example.com:443
            TreeNode { child_span: 5, parent: 0 },
            // 1: program
            TreeNode { child_span: 4, parent: 0 },
            // 2:   built-in
            TreeNode { child_span: 1, parent: 1 },
            // 3:     fun
            TreeNode { child_span: 0, parent: 2 },
            // 4:   :extension
            TreeNode { child_span: 1, parent: 1 },
            // 5:     fun
            TreeNode { child_span: 0, parent: 4 },
        ],
        segments: vec![
            Segment { operands: 0, opt_groups: 0, name: 3 },
            Segment { operands: 0, opt_groups: 0, name: 4 },
            Segment { operands: 0, opt_groups: 0, name: 5 },
            Segment { operands: 0, opt_groups: 0, name: 6 },
            Segment { operands: 0, opt_groups: 0, name: 7 },
            Segment { operands: 0, opt_groups: 0, name: 6 },
        ],
        options: vec![
            Opt { kind: OptArgKind::KeyOnly, name: 0 },
            Opt { kind: OptArgKind::Single, name: 1 },
            Opt { kind: OptArgKind::Multiple, name: 2 },
        ],
        short_option_mappers: vec![(0, 'a'), (1, 'b'), (2, 'c')],
        names: vec![
            "key-only",
            "single1",
            "multi1",
            "https://example.com:443",
            "program",
            "built-in",
            "fun",
            ":extension",
        ],
        opt_group_rules: vec![],
        opt_groups: vec![],
        help_opt_index: None,
    }
}

#[test]
fn should_parse_uri_route_placeholder_segments() {
    let router = placeholder_fixture();
    let c = parse_uri_route(&router, "https://example.com:443/program/built-in/fun").unwrap();
    assert_eq!(c.selected, 3);

    let c = parse_uri_route(&router, "https://example.com:443/program/extensionA/fun").unwrap();
    assert_eq!(c.selected, 5);
}

#[test]
fn should_parse_a_url_route_with_no_options_or_fragment() {
    let router = uri_fixture();

    // Yes path, no options, no fragment
    let c = parse_uri_route(&router, "https://example.com:443/path/a/a2").unwrap();
    assert_eq!(c.selected, 4);

    // No path, no options, no fragment
    let c = parse_uri_route(&router, "https://example.com:443").unwrap();
    assert_eq!(c.selected, 0);

    // Doesn't exist, `selected` is the last recognized segment
    let c = parse_uri_route(&router, "https://example.com:443/path/b/b3").unwrap();
    assert_eq!(c.selected, 5);
}

#[test]
fn should_parse_a_url_route_with_options() {
    let router = uri_fixture();

    // Yes path, yes options, no fragment
    let c = parse_uri_route(&router, "https://example.com:443/path/a/a2?single1=abc&key-only")
        .unwrap();
    assert_eq!(c.selected, 4);
    assert_eq!(c.option_occurrences, [1, 1, 0]);

    // No path, yes options, no fragment
    let c = parse_uri_route(&router, "https://example.com:443?single1=0").unwrap();
    assert_eq!(c.selected, 0);
    assert_eq!(c.option_occurrences, [0, 1, 0]);
}

#[test]
fn should_parse_a_url_route_with_a_fragment() {
    let router = uri_fixture();

    // URL route with no path, no options, yes fragment
    let c = parse_uri_route(&router, "https://example.com:443?#frag").unwrap();
    assert_eq!(c.selected, 0);
    assert_eq!(c.option_occurrences, [0, 0, 0]);

    // URL route with no path, yes options, yes fragment
    let c = parse_uri_route(&router, "https://example.com:443?key-only#frag").unwrap();
    assert_eq!(c.selected, 0);
    assert_eq!(c.option_occurrences, [1, 0, 0]);

    // URL route with yes path, no options, yes fragment
    let c = parse_uri_route(&router, "https://example.com:443/path/a/a2#frag").unwrap();
    assert_eq!(c.selected, 4);
    assert_eq!(c.option_occurrences, [0, 0, 0]);

    // URL route with yes path, yes options, yes fragment
    let c = parse_uri_route(&router, "https://example.com:443/path/a/a2?key-only#frag").unwrap();
    assert_eq!(c.selected, 4);
    assert_eq!(c.option_occurrences, [1, 0, 0]);
}

#[test]
fn should_parse_a_uri_string() {
    let mut lengths = parse_uri_scheme_and_authority(
        b"https://john.doe@www.example.com:123/forum/questions/?tag=networking&order=newest#top",
    );
    assert_eq!(lengths.scheme_len, 5);
    assert_eq!(lengths.user_len, 8);
    assert_eq!(lengths.host_len, 15);
    assert_eq!(lengths.port_len, 3);

    lengths = parse_uri_scheme_and_authority(b"ldap://[2001:db8::7]/c=GB?objectClass?one");
    assert_eq!(lengths.scheme_len, 4);
    assert_eq!(lengths.user_len, 0);
    assert_eq!(lengths.host_len, 13);
    assert_eq!(lengths.port_len, 0);

    lengths = parse_uri_scheme_and_authority(b"mailto:John.Doe@example.com");
    assert_eq!(lengths.scheme_len, 6);
    assert_eq!(lengths.user_len, 8);
    assert_eq!(lengths.host_len, 11);
    assert_eq!(lengths.port_len, 0);

    lengths = parse_uri_scheme_and_authority(b"news:comp.infosystems.www.servers.unix");
    assert_eq!(lengths.scheme_len, 4);
    assert_eq!(lengths.user_len, 0);
    assert_eq!(lengths.host_len, 0);
    assert_eq!(lengths.port_len, 0);

    lengths = parse_uri_scheme_and_authority(b"tel:+1-816-555-1212");
    assert_eq!(lengths.scheme_len, 3);
    assert_eq!(lengths.user_len, 0);
    assert_eq!(lengths.host_len, 0);
    assert_eq!(lengths.port_len, 0);

    lengths = parse_uri_scheme_and_authority(b"telnet://192.0.2.16:80/");
    assert_eq!(lengths.scheme_len, 6);
    assert_eq!(lengths.user_len, 0);
    assert_eq!(lengths.host_len, 10);
    assert_eq!(lengths.port_len, 2);

    lengths =
        parse_uri_scheme_and_authority(b"urn:oasis:names:specification:docbook:dtd:xml:4.1.2");
    assert_eq!(lengths.scheme_len, 3);
    assert_eq!(lengths.user_len, 0);
    assert_eq!(lengths.host_len, 0);
    assert_eq!(lengths.port_len, 0);

    lengths = parse_uri_scheme_and_authority(
        b"http://[FEDC:BA98:7654:3210:FEDC:BA98:7654:3210]:80/index.html",
    );
    assert_eq!(lengths.scheme_len, 4);
    assert_eq!(lengths.user_len, 0);
    assert_eq!(lengths.host_len, 41);
    assert_eq!(lengths.port_len, 2);

    lengths = parse_uri_scheme_and_authority(b"http://[1080:0:0:0:8:800:200C:417A]/index.html");
    assert_eq!(lengths.scheme_len, 4);
    assert_eq!(lengths.user_len, 0);
    assert_eq!(lengths.host_len, 28);
    assert_eq!(lengths.port_len, 0);

    lengths = parse_uri_scheme_and_authority(b"https://example.com:443?option1=abc");
    assert_eq!(lengths.scheme_len, 5);
    assert_eq!(lengths.user_len, 0);
    assert_eq!(lengths.host_len, 11);
    assert_eq!(lengths.port_len, 3);

    lengths = parse_uri_scheme_and_authority(b"https://example.com:443#frag");
    assert_eq!(lengths.scheme_len, 5);
    assert_eq!(lengths.user_len, 0);
    assert_eq!(lengths.host_len, 11);
    assert_eq!(lengths.port_len, 3);
}

#[test]
fn uri_should_parse_a_uri_string() {
    let mut lengths = parse_uri_scheme_and_authority(
        b"https://john.doe@www.example.com:123/forum/questions/?tag=networking&order=newest#top",
    );
    assert_eq!(lengths.scheme_len, 5);
    assert_eq!(lengths.user_len, 8);
    assert_eq!(lengths.host_len, 15);
    assert_eq!(lengths.port_len, 3);

    lengths = parse_uri_scheme_and_authority(b"ldap://[2001:db8::7]/c=GB?objectClass?one");
    assert_eq!(lengths.scheme_len, 4);
    assert_eq!(lengths.user_len, 0);
    assert_eq!(lengths.host_len, 13);
    assert_eq!(lengths.port_len, 0);

    lengths = parse_uri_scheme_and_authority(b"mailto:John.Doe@example.com");
    assert_eq!(lengths.scheme_len, 6);
    assert_eq!(lengths.user_len, 8);
    assert_eq!(lengths.host_len, 11);
    assert_eq!(lengths.port_len, 0);

    lengths = parse_uri_scheme_and_authority(b"news:comp.infosystems.www.servers.unix");
    assert_eq!(lengths.scheme_len, 4);
    assert_eq!(lengths.user_len, 0);
    assert_eq!(lengths.host_len, 0);
    assert_eq!(lengths.port_len, 0);

    lengths = parse_uri_scheme_and_authority(b"tel:+1-816-555-1212");
    assert_eq!(lengths.scheme_len, 3);
    assert_eq!(lengths.user_len, 0);
    assert_eq!(lengths.host_len, 0);
    assert_eq!(lengths.port_len, 0);

    lengths = parse_uri_scheme_and_authority(b"telnet://192.0.2.16:80/");
    assert_eq!(lengths.scheme_len, 6);
    assert_eq!(lengths.user_len, 0);
    assert_eq!(lengths.host_len, 10);
    assert_eq!(lengths.port_len, 2);

    lengths =
        parse_uri_scheme_and_authority(b"urn:oasis:names:specification:docbook:dtd:xml:4.1.2");
    assert_eq!(lengths.scheme_len, 3);
    assert_eq!(lengths.user_len, 0);
    assert_eq!(lengths.host_len, 0);
    assert_eq!(lengths.port_len, 0);

    lengths = parse_uri_scheme_and_authority(
        b"http://[FEDC:BA98:7654:3210:FEDC:BA98:7654:3210]:80/index.html",
    );
    assert_eq!(lengths.scheme_len, 4);
    assert_eq!(lengths.user_len, 0);
    assert_eq!(lengths.host_len, 41);
    assert_eq!(lengths.port_len, 2);

    lengths = parse_uri_scheme_and_authority(b"http://[1080:0:0:0:8:800:200C:417A]/index.html");
    assert_eq!(lengths.scheme_len, 4);
    assert_eq!(lengths.user_len, 0);
    assert_eq!(lengths.host_len, 28);
    assert_eq!(lengths.port_len, 0);

    lengths = parse_uri_scheme_and_authority(b"https://example.com:443?option1=abc");
    assert_eq!(lengths.scheme_len, 5);
    assert_eq!(lengths.user_len, 0);
    assert_eq!(lengths.host_len, 11);
    assert_eq!(lengths.port_len, 3);

    lengths = parse_uri_scheme_and_authority(b"https://example.com:443#frag");
    assert_eq!(lengths.scheme_len, 5);
    assert_eq!(lengths.user_len, 0);
    assert_eq!(lengths.host_len, 11);
    assert_eq!(lengths.port_len, 3);
}

#[test]
fn should_compute_authority_lengths_for_the_cli_example() {
    let lengths = parse_uri_scheme_and_authority(b"https://example.com:443/x");
    assert_eq!(lengths.scheme_len, 5);
    assert_eq!(lengths.user_len, 0);
    assert_eq!(lengths.host_len, 11);
    assert_eq!(lengths.port_len, 3);
}

#[test]
fn should_select_the_same_segment_as_the_cli_parser() {
    let router = uri_fixture();
    let by_uri = parse_uri_route(&router, "https://example.com:443/path/a/a2").unwrap();
    let by_cli = parse_cli_route(
        &router,
        vec!["path".to_string(), "a".to_string(), "a2".to_string()],
    )
    .unwrap();
    assert_eq!(by_uri.selected, by_cli.selected);
}
