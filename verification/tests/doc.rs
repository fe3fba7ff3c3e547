use router::doc::{
    block, single_bit, text, word_bounds, wrap_columns, DocNode, DocNodeWithoutSummary,
    INDENT_SIZE, NEWLINE_AFTER_CHILDREN, STYLE_BG_COLOR, STYLE_BOLD, STYLE_ITALIC,
    STYLE_TEXT_COLOR, STYLE_UNDERLINE,
};

fn plain(t: &'static str) -> DocNode {
    DocNode {
        text: t,
        children: Vec::new(),
        indent: 0,
        column: 0,
        wrapping_sequence: 0,
        wrapper_newlines: 0,
        bg_r: 0,
        bg_g: 0,
        bg_b: 0,
        text_r: 0,
        text_g: 0,
        text_b: 0,
    }
}

#[test]
fn should_check_if_only_a_single_bitset_bit_is_set() {
    assert_eq!(single_bit(STYLE_ITALIC), true);
    assert_eq!(single_bit(STYLE_BOLD), true);
    assert_eq!(single_bit(STYLE_BOLD | STYLE_ITALIC), false);
    assert_eq!(single_bit(STYLE_UNDERLINE), true);
    assert_eq!(single_bit(STYLE_ITALIC | STYLE_UNDERLINE), false);
}

#[test]
fn wrap_columns_should_pad_and_break_at_word_bounds() {
    let blocks = [plain("Row1:"), plain(" Some long tx"), plain(" Some extra super long text")];
    let mut s = String::new();
    wrap_columns(&mut s, &blocks, &[5, 13, 11], 30);
    assert_eq!(
        ["Row1: Some long tx Some extra", "                   super long", "                   text"]
            .join("\n"),
        s,
    );

    let blocks = [plain("Row1:"), plain(" Some long tx"), plain(" Some extra super long text")];
    let mut s = String::new();
    wrap_columns(&mut s, &blocks, &[10, 13, 11], 30);
    assert_eq!(
        [
            "Row1:      Some long tx Some extra",
            "                        super long",
            "                        text",
        ]
        .join("\n"),
        s,
    );
}

#[test]
fn wrap_columns_should_wrap_styled_runs_in_escape_sequences() {
    let mut blocks = [plain("Hey:"), plain(" there")];
    blocks[0].wrapping_sequence |= STYLE_BOLD;
    blocks[1].wrapping_sequence |= STYLE_BG_COLOR;
    blocks[1].bg_r = 128;
    blocks[1].bg_g = 128;
    blocks[1].bg_b = 128;
    let mut s = String::new();
    wrap_columns(&mut s, &blocks, &[4, 6], 30);
    assert_eq!("\x1b[1mHey:\x1b[0m\x1b[48;2;128;128;128m there\x1b[0m", s);
}

#[test]
fn should_find_word_bounds() {
    assert_eq!(word_bounds("text", 2), (0, 4));
    assert_eq!(word_bounds("some text", 6), (5, 9));
    assert_eq!(word_bounds("some text", 5), (5, 9));
    assert_eq!(word_bounds("some text", 9), (5, 9));
}

#[test]
fn should_build_docblocks_from_builders() {
    let expected_first = DocNode {
        text: "Bold, italic, and color",
        children: Vec::new(),
        indent: 0,
        column: 0,
        wrapping_sequence: STYLE_BOLD | STYLE_ITALIC | STYLE_TEXT_COLOR,
        wrapper_newlines: NEWLINE_AFTER_CHILDREN,
        bg_r: 0,
        bg_g: 0,
        bg_b: 0,
        text_r: 128,
        text_g: 18,
        text_b: 8,
    };

    let actual_blocks = block(vec![block(vec![
        text("Bold, italic, and color").bold().italic().text_color(128, 18, 8),
        text("Some text"),
        text(" with "),
        text("underline").underline(),
        text(" in it."),
    ])]);
    assert_eq!(actual_blocks.indent, INDENT_SIZE);
    assert_eq!(actual_blocks.children[0].text, "");
    assert_eq!(
        actual_blocks.children[0].children[0].text_r,
        expected_first.text_r,
    );
    assert_eq!(
        actual_blocks.children[0].children[0].text_g,
        expected_first.text_g,
    );
    assert_eq!(
        actual_blocks.children[0].children[0].text_b,
        expected_first.text_b,
    );
    assert_eq!(
        actual_blocks.children[0].children[0].wrapping_sequence,
        expected_first.wrapping_sequence,
    );
    assert_eq!(actual_blocks.children[0].children.len(), 5);
    assert_eq!(actual_blocks.children[0].children[0].text, expected_first.text);
    assert_eq!(actual_blocks.children[0].children[1].text, "Some text");
    assert_eq!(actual_blocks.children[0].children[2].text, " with ");
    assert_eq!(actual_blocks.children[0].children[2].wrapping_sequence, 0);
    assert_eq!(actual_blocks.children[0].children[3].wrapping_sequence, STYLE_UNDERLINE);
    assert_eq!(actual_blocks.children[0].children[4].text, " in it.");
}

#[test]
fn should_restrict_elements_to_their_specified_columns() {
    let actual = block(vec![block(vec![router::doc::inline(vec![
        text("\nUsage: "),
        text("command example A").column(2),
        text("command example B").column(2),
        text("command overflowing example C").column(2),
    ])])])
    .render();
    let expected = "
Usage: command example A
       command example B
       command
       overflowing
       example C
";
    assert_eq!(expected, actual);
}

#[test]
fn should_insert_a_block_after_a_named_block() {
    let mut blocks = DocNode {
        text: "",
        children: vec![plain("a"), plain("b"), plain("c")],
        text_r: 0,
        text_g: 0,
        text_b: 0,
        bg_r: 0,
        bg_g: 0,
        bg_b: 0,
        indent: 0,
        column: 0,
        wrapping_sequence: 0,
        wrapper_newlines: 0,
    };

    blocks.insert_after("b", plain("d"));
    assert_eq!("d", blocks.children[2].text);
}

#[test]
fn should_fill_in_a_summary() {
    let blocks = DocNodeWithoutSummary {
        blocks: DocNode {
            text: "",
            children: vec![block(vec![router::doc::inline(vec![
                text("program"),
                text(" - "),
                text("").column(3),
            ])])],
            indent: 0,
            column: 0,
            wrapping_sequence: 0,
            wrapper_newlines: 0,
            bg_r: 0,
            bg_g: 0,
            bg_b: 0,
            text_r: 0,
            text_g: 0,
            text_b: 0,
        },
    }
    .summary("summ");
    assert_eq!(blocks.children[0].children[0].children[2].text, "summ");
}
