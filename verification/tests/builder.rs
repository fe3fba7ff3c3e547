use router::builder::{OptGroup, Seg};
use router::{parse_cli_route, Opt, OptArgKind, OptGroupRules, Router, Segment, TreeNode};

#[derive(Clone, Copy)]
enum O {
    OptionA,
    OptionB,
    OptionC,
}
impl Into<u16> for O {
    fn into(self) -> u16 {
        self as u16
    }
}

fn deep_tree() -> Seg {
    Seg::new("test").nest(vec![
        Seg::new("config").nest(vec![
            Seg::new("command").nest(vec![
                Seg::new("deep1").options(vec![
                    OptGroup::anyof(vec![O::OptionA as u16]),
                    OptGroup::oneof(vec![O::OptionB as u16, O::OptionC as u16]).required(),
                ]),
                Seg::new("deep2")
                    .options(vec![OptGroup::anyof(vec![O::OptionA as u16, O::OptionB as u16])]),
            ]),
            Seg::new("action"),
        ]),
        Seg::new("add")
            .options(vec![OptGroup::anyof(vec![O::OptionA as u16, O::OptionC as u16]).required()]),
    ])
}

#[test]
fn should_count_all_tree_segments_and_their_opt_groups() {
    let (size, groups) = deep_tree().count();
    assert_eq!(size, 7);
    assert_eq!(groups, 4);
}

#[test]
fn should_encode_a_tree_of_segments_into_a_flat_array() {
    let flattened = deep_tree().flatten(&vec![]);

    let expected_tree = [
        TreeNode { child_span: 6, parent: 0 },
        TreeNode { child_span: 4, parent: 0 },
        TreeNode { child_span: 2, parent: 1 },
        TreeNode { child_span: 0, parent: 2 },
        TreeNode { child_span: 0, parent: 2 },
        TreeNode { child_span: 0, parent: 1 },
        TreeNode { child_span: 0, parent: 0 },
    ];
    let expected_segments = [
        Segment { name: 0, operands: 0, opt_groups: 0 },
        Segment { name: 1, operands: 0, opt_groups: 0 },
        Segment { name: 2, operands: 0, opt_groups: 0 },
        Segment { name: 3, operands: 0, opt_groups: 2 << 12 },
        Segment { name: 4, operands: 0, opt_groups: 1 << 12 | 2 },
        Segment { name: 5, operands: 0, opt_groups: 0 },
        Segment { name: 6, operands: 0, opt_groups: 1 << 12 | 3 },
    ];

    assert_eq!(flattened.tree.len(), expected_tree.len());
    for i in 0..expected_tree.len() {
        assert_eq!(flattened.segments[i].name, expected_segments[i].name);
        assert_eq!(flattened.tree[i].child_span, expected_tree[i].child_span);
        assert_eq!(flattened.tree[i].parent, expected_tree[i].parent);
        assert_eq!(
            flattened.segments[i].opt_groups, expected_segments[i].opt_groups,
            "i: {}, {}", i, flattened.segments[i].opt_groups,
        );
    }

    let op_rules = [
        OptGroupRules::AnyOf as u8,
        OptGroupRules::OneOf as u8 | OptGroupRules::Required as u8,
        OptGroupRules::AnyOf as u8,
        OptGroupRules::AnyOf as u8 | OptGroupRules::Required as u8,
    ];
    assert_eq!(flattened.opt_group_rules, op_rules);

    assert_eq!(flattened.opt_groups[0], vec![O::OptionA as u16]);
    assert_eq!(flattened.opt_groups[1], vec![O::OptionB as u16, O::OptionC as u16]);
    assert_eq!(flattened.opt_groups[2], vec![O::OptionA as u16, O::OptionB as u16]);
    assert_eq!(flattened.opt_groups[3], vec![O::OptionA as u16, O::OptionC as u16]);

    assert_eq!(
        flattened.names,
        vec!["test", "config", "command", "deep1", "deep2", "action", "add"],
    );
}

#[test]
fn should_set_segment_operands_to_zero_when_it_has_children() {
    let parts = Seg::new("path")
        .nest(vec![Seg::new("a").operands(1).nest(vec![Seg::new("a1"), Seg::new("a2")])])
        .flatten(&vec![]);
    assert_eq!(parts.segments[1].operands, 0);
}

#[test]
fn should_hold_the_span_partition_at_every_node() {
    // Each node's child_span equals the sum of its direct children's
    // child_span + 1, and the root's spans the whole tree.
    let parts = deep_tree().flatten(&vec![]);
    let tree = &parts.tree;
    assert_eq!(tree[0].child_span as usize, tree.len() - 1);
    for i in 0..tree.len() {
        let end = i + tree[i].child_span as usize + 1;
        let mut j = i + 1;
        let mut sum: usize = 0;
        while j < end {
            sum += tree[j].child_span as usize + 1;
            j += tree[j].child_span as usize + 1;
        }
        assert_eq!(sum, tree[i].child_span as usize);
    }
}

#[test]
fn should_route_through_a_flattened_tree() {
    // Round trip: flatten {root -> {"a" -> {"a1","a2"}, "b" ->
    // {"b1","b2"}, "c"}} into a router, then parse.
    let tree = Seg::new("root").nest(vec![
        Seg::new("a").nest(vec![Seg::new("a1"), Seg::new("a2")]),
        Seg::new("b").nest(vec![Seg::new("b1"), Seg::new("b2")]),
        Seg::new("c"),
    ]);
    let opt_names = vec!["key-only", "multi1", "single1"];
    let parts = tree.flatten(&opt_names);
    let router = Router {
        tree: parts.tree,
        segments: parts.segments,
        opt_group_rules: parts.opt_group_rules,
        opt_groups: parts.opt_groups,
        options: vec![
            Opt { kind: OptArgKind::KeyOnly, name: 0 },
            Opt { kind: OptArgKind::Multiple, name: 1 },
            Opt { kind: OptArgKind::Single, name: 2 },
        ],
        short_option_mappers: vec![(0, 'k'), (1, 'm'), (2, 's')],
        names: parts.names,
        help_opt_index: None,
    };
    let c = parse_cli_route(&router, vec!["b".to_string(), "b1".to_string()]).unwrap();
    assert_eq!(router.names[router.segments[c.selected as usize].name as usize], "b1");
    let c = parse_cli_route(&router, vec!["c".to_string()]).unwrap();
    assert_eq!(router.names[router.segments[c.selected as usize].name as usize], "c");
}
