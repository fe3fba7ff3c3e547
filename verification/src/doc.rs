//! Help-text building blocks: a tree of styled text nodes, and the
//! renderer that lays third-level nodes out in wrapped columns with
//! ANSI escape sequences around styled runs.

use vstd::prelude::*;
use vstd::string::{StrSliceExecFns, StringExecFns};

verus! {

/// The default indent size, in spaces.
pub const INDENT_SIZE: u8 = 4;

/// Style bit: bold (or bright) text.
pub const STYLE_BOLD: u8 = 1;

/// Style bit: italic text.
pub const STYLE_ITALIC: u8 = 2;

/// Style bit: underlined text.
pub const STYLE_UNDERLINE: u8 = 4;

/// Style bit: a background color is set.
pub const STYLE_BG_COLOR: u8 = 8;

/// Style bit: a text color is set.
pub const STYLE_TEXT_COLOR: u8 = 16;

/// Newline-handling mark: a newline follows the node's children.
pub const NEWLINE_AFTER_CHILDREN: u8 = 2;

/// One node of a help-text document: a text run with styling, or a
/// container of further nodes.
#[derive(Debug)]
pub struct DocNode {
    pub text: &'static str,
    pub children: Vec<DocNode>,
    pub indent: u8,
    pub column: u8,
    pub wrapping_sequence: u8,
    pub wrapper_newlines: u8,
    pub bg_r: u8,
    pub bg_g: u8,
    pub bg_b: u8,
    pub text_r: u8,
    pub text_g: u8,
    pub text_b: u8,
}


/// The nodes agree on everything but their child lists.
pub open spec fn doc_eq_except_children(a: DocNode, b: DocNode) -> bool {
    &&& a.text == b.text
    &&& a.indent == b.indent
    &&& a.column == b.column
    &&& a.wrapping_sequence == b.wrapping_sequence
    &&& a.wrapper_newlines == b.wrapper_newlines
    &&& a.bg_r == b.bg_r
    &&& a.bg_g == b.bg_g
    &&& a.bg_b == b.bg_b
    &&& a.text_r == b.text_r
    &&& a.text_g == b.text_g
    &&& a.text_b == b.text_b
}

/// The nodes agree on everything but their text.
pub open spec fn doc_eq_except_text(a: DocNode, b: DocNode) -> bool {
    &&& a.children == b.children
    &&& a.indent == b.indent
    &&& a.column == b.column
    &&& a.wrapping_sequence == b.wrapping_sequence
    &&& a.wrapper_newlines == b.wrapper_newlines
    &&& a.bg_r == b.bg_r
    &&& a.bg_g == b.bg_g
    &&& a.bg_b == b.bg_b
    &&& a.text_r == b.text_r
    &&& a.text_g == b.text_g
    &&& a.text_b == b.text_b
}

/// The first child whose text reads `name`, if any.
pub open spec fn find_child_by_text(cs: Seq<DocNode>, name: Seq<char>, j: int) -> Option<int>
    decreases cs.len() - j,
{
    if j < 0 || j >= cs.len() {
        None
    } else if cs[j].text@ == name {
        Some(j)
    } else {
        find_child_by_text(cs, name, j + 1)
    }
}

/// A document whose summary line has not been filled in yet.
pub struct DocNodeWithoutSummary {
    pub blocks: DocNode,
}

impl DocNodeWithoutSummary {
    /// Fills the summary slot: the last node of the first block's
    /// first row takes the given text, and nothing else of the
    /// document changes.
    pub fn summary(self, text: &'static str) -> (r: DocNode)
        requires
            self.blocks.children@.len() >= 1,
            self.blocks.children@[0].children@.len() >= 1,
            self.blocks.children@[0].children@[0].children@.len() >= 1,
        ensures
            doc_eq_except_children(r, self.blocks),
            r.children@.len() == self.blocks.children@.len(),
            forall|i: int|
                1 <= i < r.children@.len() ==> r.children@[i] == self.blocks.children@[i],
            doc_eq_except_children(r.children@[0], self.blocks.children@[0]),
            r.children@[0].children@.len() == self.blocks.children@[0].children@.len(),
            forall|i: int|
                1 <= i < r.children@[0].children@.len() ==> r.children@[0].children@[i]
                    == self.blocks.children@[0].children@[i],
            doc_eq_except_children(
                r.children@[0].children@[0],
                self.blocks.children@[0].children@[0],
            ),
            r.children@[0].children@[0].children@.len() == self.blocks.children@[0].children@[
                0
            ].children@.len(),
            forall|i: int|
                0 <= i < r.children@[0].children@[0].children@.len() - 1 ==> r.children@[
                    0
                ].children@[0].children@[i] == self.blocks.children@[0].children@[0].children@[i],
            doc_eq_except_text(
                r.children@[0].children@[0].children@.last(),
                self.blocks.children@[0].children@[0].children@.last(),
            ),
            r.children@[0].children@[0].children@.last().text@ == text@,
    {
        let mut blocks = self.blocks;
        let mut c0 = blocks.children.remove(0);
        let mut c00 = c0.children.remove(0);
        let n = c00.children.len();
        let mut leaf = c00.children.remove(n - 1);
        leaf.text = text;
        c00.children.insert(n - 1, leaf);
        c0.children.insert(0, c00);
        blocks.children.insert(0, c0);
        blocks
    }
}

impl DocNode {
    /// Marks the node's text bold.
    pub fn bold(self) -> (r: Self)
        ensures
            r == (DocNode { wrapping_sequence: self.wrapping_sequence | STYLE_BOLD, ..self }),
    {
        let w = self.wrapping_sequence | STYLE_BOLD;
        DocNode { wrapping_sequence: w, ..self }
    }

    /// Marks the node's text italic.
    pub fn italic(self) -> (r: Self)
        ensures
            r == (DocNode { wrapping_sequence: self.wrapping_sequence | STYLE_ITALIC, ..self }),
    {
        let w = self.wrapping_sequence | STYLE_ITALIC;
        DocNode { wrapping_sequence: w, ..self }
    }

    /// Marks the node's text underlined.
    pub fn underline(self) -> (r: Self)
        ensures
            r == (DocNode { wrapping_sequence: self.wrapping_sequence | STYLE_UNDERLINE, ..self }),
    {
        let w = self.wrapping_sequence | STYLE_UNDERLINE;
        DocNode { wrapping_sequence: w, ..self }
    }

    /// Indents the node one more step.
    pub fn indent(self) -> (r: Self)
        requires
            self.indent + INDENT_SIZE <= u8::MAX,
        ensures
            r == (DocNode { indent: (self.indent + INDENT_SIZE) as u8, ..self }),
    {
        let ind = self.indent + INDENT_SIZE;
        DocNode { indent: ind, ..self }
    }

    /// Sets the node's background color.
    pub fn bg_color(self, red: u8, green: u8, blue: u8) -> (r: Self)
        ensures
            r == (DocNode {
                bg_r: red,
                bg_g: green,
                bg_b: blue,
                wrapping_sequence: self.wrapping_sequence | STYLE_BG_COLOR,
                ..self
            }),
    {
        let w = self.wrapping_sequence | STYLE_BG_COLOR;
        DocNode { bg_r: red, bg_g: green, bg_b: blue, wrapping_sequence: w, ..self }
    }

    /// Sets the node's text color.
    pub fn text_color(self, red: u8, green: u8, blue: u8) -> (r: Self)
        ensures
            r == (DocNode {
                text_r: red,
                text_g: green,
                text_b: blue,
                wrapping_sequence: self.wrapping_sequence | STYLE_TEXT_COLOR,
                ..self
            }),
    {
        let w = self.wrapping_sequence | STYLE_TEXT_COLOR;
        DocNode { text_r: red, text_g: green, text_b: blue, wrapping_sequence: w, ..self }
    }

    /// Assigns the node to a layout column.
    pub fn column(self, number: u8) -> (r: Self)
        ensures
            r == (DocNode { column: number, ..self }),
    {
        DocNode { column: number, ..self }
    }

    /// Inserts a node directly after the first child whose text
    /// equals `name`, or at the end when no child carries that text;
    /// nothing else changes.
    pub fn insert_after(&mut self, name: &str, blocks: DocNode)
        ensures
            final(self).children@ == match find_child_by_text(old(self).children@, name@, 0) {
                Some(j) => old(self).children@.insert(j + 1, blocks),
                None => old(self).children@.push(blocks),
            },
            doc_eq_except_children(*final(self), *old(self)),
    {
        let n = self.children.len();
        let mut i: usize = 0;
        let mut found: bool = false;
        while i < n && !found
            invariant
                n == self.children@.len(),
                i <= n,
                *self == *old(self),
                found ==> i < n && self.children@[i as int].text@ == name@,
                !found ==> find_child_by_text(self.children@, name@, 0) == find_child_by_text(
                    self.children@,
                    name@,
                    i as int,
                ),
                found ==> find_child_by_text(self.children@, name@, 0) == Some(i as int),
            decreases n - i + if found {
                0int
            } else {
                1int
            },
        {
            if crate::str_eq(self.children[i].text, name) {
                found = true;
            } else {
                i = i + 1;
            }
        }
        if found {
            self.children.insert(i + 1, blocks);
        } else {
            self.children.push(blocks);
        }
    }

    /// Appends a child node; nothing else changes.
    pub fn push(&mut self, blocks: DocNode)
        ensures
            final(self).children@ == old(self).children@.push(blocks),
            doc_eq_except_children(*final(self), *old(self)),
    {
        self.children.push(blocks);
    }
}

/// A block-level container: indented, with a newline after its
/// children.
pub fn block(children: Vec<DocNode>) -> (r: DocNode)
    ensures
        r.text@.len() == 0,
        r.children == children,
        r.indent == INDENT_SIZE,
        r.wrapper_newlines == NEWLINE_AFTER_CHILDREN,
        r.wrapping_sequence == 0,
        r.column == 0,
        r.bg_r == 0 && r.bg_g == 0 && r.bg_b == 0,
        r.text_r == 0 && r.text_g == 0 && r.text_b == 0,
{
    proof {
        reveal_strlit("");
    }
    DocNode {
        text: "",
        children,
        indent: INDENT_SIZE,
        column: 0,
        wrapping_sequence: 0,
        wrapper_newlines: NEWLINE_AFTER_CHILDREN,
        bg_r: 0,
        bg_g: 0,
        bg_b: 0,
        text_r: 0,
        text_g: 0,
        text_b: 0,
    }
}

/// An inline container: no indent, no trailing newline.
pub fn inline(children: Vec<DocNode>) -> (r: DocNode)
    ensures
        r.text@.len() == 0,
        r.children == children,
        r.indent == 0,
        r.wrapper_newlines == 0,
        r.wrapping_sequence == 0,
        r.column == 0,
        r.bg_r == 0 && r.bg_g == 0 && r.bg_b == 0,
        r.text_r == 0 && r.text_g == 0 && r.text_b == 0,
{
    proof {
        reveal_strlit("");
    }
    DocNode {
        text: "",
        children,
        indent: 0,
        column: 0,
        wrapping_sequence: 0,
        wrapper_newlines: 0,
        bg_r: 0,
        bg_g: 0,
        bg_b: 0,
        text_r: 0,
        text_g: 0,
        text_b: 0,
    }
}

/// A bare text run.
pub fn text(s: &'static str) -> (r: DocNode)
    ensures
        r.text@ == s@,
        r.children@.len() == 0,
        r.indent == 0,
        r.wrapper_newlines == 0,
        r.wrapping_sequence == 0,
        r.column == 0,
        r.bg_r == 0 && r.bg_g == 0 && r.bg_b == 0,
        r.text_r == 0 && r.text_g == 0 && r.text_b == 0,
{
    DocNode {
        text: s,
        children: Vec::new(),
        indent: 0,
        column: 0,
        wrapping_sequence: 0,
        wrapper_newlines: 0,
        bg_r: 0,
        bg_g: 0,
        bg_b: 0,
        text_r: 0,
        text_g: 0,
        text_b: 0,
    }
}

/// Whether exactly one bit of the set is set.
pub fn single_bit(bitset: u8) -> (r: bool)
    ensures
        r <==> (bitset == 1 || bitset == 2 || bitset == 4 || bitset == 8 || bitset == 16 || bitset
            == 32 || bitset == 64 || bitset == 128),
{
    proof {
        let b = bitset;
        assert((b != 0 && (b & (b - 1) as u8) == 0) <==> (b == 1 || b == 2 || b == 4 || b == 8 || b
            == 16 || b == 32 || b == 64 || b == 128)) by (bit_vector);
    }
    bitset != 0 && (bitset & (bitset - 1)) == 0
}

/// A whitespace character for word wrapping.
pub open spec fn is_wrap_space(c: char) -> bool {
    c == ' ' || c == '\t' || c == '\n' || c == '\r'
}

/// The bounds of the whitespace-delimited word around `index`: the
/// first component reaches back to the nearest whitespace (or the
/// start), the second forward to the next whitespace (or the end).
pub fn word_bounds(text: &str, index: usize) -> (r: (usize, usize))
    requires
        text.is_ascii(),
        index <= text@.len(),
    ensures
        r.0 <= index <= r.1 <= text@.len(),
        forall|k: int| r.0 <= k < index ==> !is_wrap_space(text@[k]),
        forall|k: int| index <= k < r.1 ==> !is_wrap_space(text@[k]),
        r.0 > 0 ==> is_wrap_space(text@[r.0 - 1]),
        r.1 < text@.len() ==> is_wrap_space(text@[r.1 as int]),
{
    let mut lo: usize = index;
    while lo > 0
        invariant
            text.is_ascii(),
            index <= text@.len(),
            lo <= index,
            forall|k: int| lo <= k < index ==> !is_wrap_space(text@[k]),
        decreases lo,
    {
        let b = text.get_ascii(lo - 1);
        if b == 32 || b == 9 || b == 10 || b == 13 {
            proof {
                assert(is_wrap_space(text@[lo - 1]));
            }
            return wb_end(text, index, lo);
        }
        proof {
            assert(!is_wrap_space(text@[lo - 1]));
        }
        lo = lo - 1;
    }
    wb_end(text, index, lo)
}

/// Scans forward from `index` to the word's end.
fn wb_end(text: &str, index: usize, lo: usize) -> (r: (usize, usize))
    requires
        text.is_ascii(),
        lo <= index <= text@.len(),
        forall|k: int| lo <= k < index ==> !is_wrap_space(text@[k]),
        lo > 0 ==> is_wrap_space(text@[lo - 1]),
    ensures
        r.0 == lo,
        index <= r.1 <= text@.len(),
        forall|k: int| index <= k < r.1 ==> !is_wrap_space(text@[k]),
        r.1 < text@.len() ==> is_wrap_space(text@[r.1 as int]),
        forall|k: int| r.0 <= k < index ==> !is_wrap_space(text@[k]),
        r.0 > 0 ==> is_wrap_space(text@[r.0 - 1]),
{
    let n = text.unicode_len();
    let mut hi: usize = index;
    while hi < n
        invariant
            text.is_ascii(),
            n == text@.len(),
            lo <= index <= hi <= n,
            forall|k: int| index <= k < hi ==> !is_wrap_space(text@[k]),
            forall|k: int| lo <= k < index ==> !is_wrap_space(text@[k]),
            lo > 0 ==> is_wrap_space(text@[lo - 1]),
        decreases n - hi,
    {
        let b = text.get_ascii(hi);
        if b == 32 || b == 9 || b == 10 || b == 13 {
            proof {
                assert(is_wrap_space(text@[hi as int]));
            }
            return (lo, hi);
        }
        proof {
            assert(!is_wrap_space(text@[hi as int]));
        }
        hi = hi + 1;
    }
    (lo, hi)
}

/// Appends `n` spaces.
fn push_spaces(out: &mut String, n: usize)
    ensures
        final(out)@.len() == old(out)@.len() + n,
{
    let mut k: usize = 0;
    while k < n
        invariant
            k <= n,
            out@.len() == old(out)@.len() + k,
        decreases n - k,
    {
        out.append(" ");
        proof {
            reveal_strlit(" ");
        }
        k = k + 1;
    }
}

/// Appends the decimal rendering of one byte.
fn push_u8_dec(out: &mut String, n: u8) {
    proof {
        reveal_strlit("0");
        reveal_strlit("1");
        reveal_strlit("2");
        reveal_strlit("3");
        reveal_strlit("4");
        reveal_strlit("5");
        reveal_strlit("6");
        reveal_strlit("7");
        reveal_strlit("8");
        reveal_strlit("9");
    }
    if n >= 100 {
        push_digit(out, n / 100);
    }
    if n >= 10 {
        push_digit(out, (n / 10) % 10);
    }
    push_digit(out, n % 10);
}

/// Appends one decimal digit.
fn push_digit(out: &mut String, d: u8)
    requires
        d <= 9,
{
    if d == 0 {
        out.append("0");
    } else if d == 1 {
        out.append("1");
    } else if d == 2 {
        out.append("2");
    } else if d == 3 {
        out.append("3");
    } else if d == 4 {
        out.append("4");
    } else if d == 5 {
        out.append("5");
    } else if d == 6 {
        out.append("6");
    } else if d == 7 {
        out.append("7");
    } else {
        out.append("8");
    }
}

/// Opens the ANSI escape sequence that turns the node's styles on:
/// "\x1b[" followed by the style parameters separated by ';', closed
/// with 'm'.
pub fn write_escape_sequence_start(out: &mut String, node: &DocNode) {
    out.append("\x1b[");
    let mut found_one: bool = false;
    if node.wrapping_sequence & STYLE_BOLD != 0 {
        out.append("1");
        found_one = true;
    }
    if node.wrapping_sequence & STYLE_ITALIC != 0 {
        if found_one {
            out.append(";");
        } else {
            found_one = true;
        }
        out.append("3");
    }
    if node.wrapping_sequence & STYLE_UNDERLINE != 0 {
        if found_one {
            out.append(";");
        } else {
            found_one = true;
        }
        out.append("4");
    }
    if node.wrapping_sequence & STYLE_TEXT_COLOR != 0 {
        if found_one {
            out.append(";");
        } else {
            found_one = true;
        }
        out.append("38;2;");
        push_u8_dec(out, node.text_r);
        out.append(";");
        push_u8_dec(out, node.text_g);
        out.append(";");
        push_u8_dec(out, node.text_b);
    }
    if node.wrapping_sequence & STYLE_BG_COLOR != 0 {
        if found_one {
            out.append(";");
        }
        out.append("48;2;");
        push_u8_dec(out, node.bg_r);
        out.append(";");
        push_u8_dec(out, node.bg_g);
        out.append(";");
        push_u8_dec(out, node.bg_b);
    }
    out.append("m");
}

/// Appends the escape sequence that resets all styles.
fn write_escape_reset(out: &mut String) {
    out.append("\x1b[0m");
}

/// Total text length of the first `n` column nodes.
pub open spec fn texts_len(columns: Seq<DocNode>, n: int) -> int
    decreases n,
{
    if n <= 0 || n > columns.len() {
        0
    } else {
        texts_len(columns, n - 1) + columns[n - 1].text@.len()
    }
}

/// Total text length still unwritten after the cursors.
pub open spec fn remaining_len(columns: Seq<DocNode>, cursors: Seq<usize>, n: int) -> int
    decreases n,
{
    if n <= 0 || n > columns.len() || n > cursors.len() {
        0
    } else {
        remaining_len(columns, cursors, n - 1) + columns[n - 1].text@.len() - cursors[n - 1]
    }
}

proof fn lemma_remaining_update(columns: Seq<DocNode>, a: Seq<usize>, b: Seq<usize>, col: int, n: int)
    requires
        a.len() == b.len() >= columns.len(),
        0 <= col < columns.len(),
        forall|j: int| 0 <= j < a.len() && j != col ==> a[j] == b[j],
        0 <= n <= columns.len(),
    ensures
        n <= col ==> remaining_len(columns, b, n) == remaining_len(columns, a, n),
        n > col ==> remaining_len(columns, b, n) == remaining_len(columns, a, n) + a[col]
            - b[col],
    decreases n,
{
    if n > 0 {
        lemma_remaining_update(columns, a, b, col, n - 1);
    }
}

proof fn lemma_remaining_nonneg(columns: Seq<DocNode>, cursors: Seq<usize>, n: int)
    requires
        forall|j: int|
            0 <= j < columns.len() && j < cursors.len() ==> cursors[j] <= (
            #[trigger] columns[j].text)@.len(),
    ensures
        remaining_len(columns, cursors, n) >= 0,
        n > 0 && n <= columns.len() && n <= cursors.len() ==> remaining_len(columns, cursors, n)
            >= columns[n - 1].text@.len() - cursors[n - 1],
    decreases n,
{
    if n > 0 {
        lemma_remaining_nonneg(columns, cursors, n - 1);
    }
}

/// Lays the column nodes' texts out side by side: each column is
/// padded or word-wrapped to its width, rows are separated by
/// newlines, and a styled column's runs are wrapped in its escape
/// sequence.  Writing stops when every column's text is exhausted.
pub fn wrap_columns(
    out: &mut String,
    columns: &[DocNode],
    column_widths: &[usize],
    max_len: usize,
)
    requires
        columns@.len() <= column_widths@.len(),
        forall|j: int| 0 <= j < columns@.len() ==> (#[trigger] columns@[j].text).is_ascii(),
        texts_len(columns@, columns@.len() as int) <= usize::MAX,
{
    let ncols = columns.len();
    if ncols == 0 {
        return ;
    }
    let mut cursors: Vec<usize> = Vec::new();
    while cursors.len() < ncols
        invariant
            cursors@.len() <= ncols,
            forall|j: int| 0 <= j < cursors@.len() ==> cursors@[j] == 0,
        decreases ncols - cursors@.len(),
    {
        cursors.push(0);
    }
    proof {
        lemma_remaining_zero(columns@, cursors@, ncols as int);
    }
    let mut chars_to_write: usize = 0;
    let mut j: usize = 0;
    while j < ncols
        invariant
            j <= ncols,
            ncols == columns@.len(),
            forall|j2: int| 0 <= j2 < columns@.len() ==> (#[trigger] columns@[j2].text).is_ascii(),
            chars_to_write == texts_len(columns@, j as int),
            texts_len(columns@, columns@.len() as int) <= usize::MAX,
        decreases ncols - j,
    {
        proof {
            vstd::string::is_ascii_spec_bytes(columns@[j as int].text);
            lemma_texts_len_mono(columns@, j + 1, ncols as int);
            lemma_texts_len_nonneg(columns@, j as int);
        }
        chars_to_write = chars_to_write + columns[j].text.len();
        j = j + 1;
    }

    while chars_to_write > 0
        invariant
            ncols == columns@.len(),
            ncols == cursors@.len(),
            ncols >= 1,
            columns@.len() <= column_widths@.len(),
            forall|j2: int|
                0 <= j2 < ncols ==> cursors@[j2] <= (#[trigger] columns@[j2].text)@.len(),
            forall|j2: int| 0 <= j2 < columns@.len() ==> (#[trigger] columns@[j2].text).is_ascii(),
            chars_to_write == remaining_len(columns@, cursors@, ncols as int),
        decreases chars_to_write,
    {
        let row_start = chars_to_write;
        let mut col: usize = 0;
        while col < ncols && chars_to_write > 0
            invariant
                ncols == columns@.len(),
                ncols == cursors@.len(),
                ncols >= 1,
                columns@.len() <= column_widths@.len(),
                col <= ncols,
                chars_to_write <= row_start,
                forall|j2: int|
                    0 <= j2 < ncols ==> cursors@[j2] <= (#[trigger] columns@[j2].text)@.len(),
                forall|j2: int|
                    0 <= j2 < columns@.len() ==> (#[trigger] columns@[j2].text).is_ascii(),
                chars_to_write == remaining_len(columns@, cursors@, ncols as int),
            decreases ncols - col,
        {
        let t = columns[col].text;
        proof {
            vstd::string::is_ascii_spec_bytes(t);
        }
        let tlen = t.unicode_len();
        let cur = cursors[col];
        let width = column_widths[col];
        if cur == tlen {
            push_spaces(out, width);
        } else if tlen - cur <= width {
            // The remaining run fits in the column.
            if columns[col].wrapping_sequence != 0 {
                write_escape_sequence_start(out, &columns[col]);
            }
            let piece = t.substring_char(cur, tlen);
            out.append(piece);
            let written = tlen - cur;
            let ghost cs0 = cursors@;
            cursors[col] = tlen;
            proof {
                lemma_remaining_lb(columns@, cs0, col as int, ncols as int);
                lemma_remaining_update(columns@, cs0, cursors@, col as int, ncols as int);
                lemma_remaining_nonneg(columns@, cursors@, ncols as int);
            }
            chars_to_write = chars_to_write - written;
            if col != ncols - 1 && width > written {
                push_spaces(out, width - written);
            }
            if columns[col].wrapping_sequence != 0 {
                write_escape_reset(out);
            }
        } else {
            // The run is wider than the column: break at a word
            // boundary, or hyphenate.
            if columns[col].wrapping_sequence != 0 {
                write_escape_sequence_start(out, &columns[col]);
            }
            let rest = t.substring_char(cur, tlen);
            let (blo, bhi) = word_bounds(rest, width);
            let ghost cs0 = cursors@;
            if width == blo || width == blo + 1 {
                let piece = rest.substring_char(0, blo);
                out.append(piece);
                cursors[col] = cur + blo;
                proof {
                    lemma_remaining_lb(columns@, cs0, col as int, ncols as int);
                    lemma_remaining_update(columns@, cs0, cursors@, col as int, ncols as int);
                    lemma_remaining_nonneg(columns@, cs0, ncols as int);
                }
                chars_to_write = chars_to_write - blo;
            } else if width == bhi {
                let piece = rest.substring_char(0, bhi);
                out.append(piece);
                cursors[col] = cur + bhi;
                proof {
                    lemma_remaining_lb(columns@, cs0, col as int, ncols as int);
                    lemma_remaining_update(columns@, cs0, cursors@, col as int, ncols as int);
                    lemma_remaining_nonneg(columns@, cs0, ncols as int);
                }
                chars_to_write = chars_to_write - bhi;
            } else {
                let piece = rest.substring_char(0, width - 1);
                out.append(piece);
                out.append("-");
                cursors[col] = cur + (width - 1);
                proof {
                    lemma_remaining_lb(columns@, cs0, col as int, ncols as int);
                    lemma_remaining_update(columns@, cs0, cursors@, col as int, ncols as int);
                    lemma_remaining_nonneg(columns@, cs0, ncols as int);
                }
                chars_to_write = chars_to_write - (width - 1);
            }
            if columns[col].wrapping_sequence != 0 {
                write_escape_reset(out);
            }
        }
        proof {
            lemma_remaining_nonneg(columns@, cursors@, ncols as int);
        }
        col = col + 1;
        }
        if chars_to_write == 0 {
            return ;
        }
        out.append("\n");
        if chars_to_write >= row_start {
            // A row that wrote nothing cannot make progress: every
            // remaining run is stuck on a zero-width column.
            return ;
        }
    }
}

proof fn lemma_remaining_lb(columns: Seq<DocNode>, cursors: Seq<usize>, j: int, n: int)
    requires
        forall|j2: int|
            0 <= j2 < columns.len() && j2 < cursors.len() ==> cursors[j2] <= (
            #[trigger] columns[j2].text)@.len(),
        0 <= j < n,
        n <= columns.len(),
        n <= cursors.len(),
    ensures
        remaining_len(columns, cursors, n) >= columns[j].text@.len() - cursors[j],
    decreases n,
{
    lemma_remaining_nonneg(columns, cursors, n - 1);
    if j < n - 1 {
        lemma_remaining_lb(columns, cursors, j, n - 1);
    }
}

proof fn lemma_texts_len_nonneg(columns: Seq<DocNode>, n: int)
    ensures
        texts_len(columns, n) >= 0,
    decreases n,
{
    if n > 0 {
        lemma_texts_len_nonneg(columns, n - 1);
    }
}

proof fn lemma_texts_len_mono(columns: Seq<DocNode>, k: int, n: int)
    requires
        0 <= k <= n <= columns.len(),
    ensures
        texts_len(columns, k) <= texts_len(columns, n),
    decreases n - k,
{
    if k < n {
        lemma_texts_len_mono(columns, k, n - 1);
    }
}

proof fn lemma_remaining_zero(columns: Seq<DocNode>, cursors: Seq<usize>, n: int)
    requires
        cursors.len() >= n,
        forall|j: int| 0 <= j < cursors.len() ==> cursors[j] == 0,
    ensures
        remaining_len(columns, cursors, n) == texts_len(columns, n),
    decreases n,
{
    if n > 0 {
        lemma_remaining_zero(columns, cursors, n - 1);
    }
}

/// Appends `text` word-wrapped greedily at `width`, indenting each
/// continuation line by `indent` spaces.
fn greedy_wrap(out: &mut String, t: &str, width: usize, indent: usize)
    requires
        t.is_ascii(),
{
    proof {
        vstd::string::is_ascii_spec_bytes(t);
    }
    let n = t.unicode_len();
    let mut i: usize = 0;
    let mut line: usize = 0;
    while i < n
        invariant
            t.is_ascii(),
            n == t@.len(),
            i <= n,
        decreases n - i,
    {
        // Skip inter-word whitespace.
        let b = t.get_ascii(i);
        if b == 32 || b == 9 || b == 10 || b == 13 {
            i = i + 1;
        } else {
            let mut j: usize = i;
            let mut in_word: bool = true;
            while j < n && in_word
                invariant
                    t.is_ascii(),
                    n == t@.len(),
                    i <= j <= n,
                decreases n - j + if in_word {
                    1int
                } else {
                    0int
                },
            {
                let wb = t.get_ascii(j);
                if wb == 32 || wb == 9 || wb == 10 || wb == 13 {
                    in_word = false;
                } else {
                    j = j + 1;
                }
            }
            let word = t.substring_char(i, j);
            let wlen = j - i;
            let fits = line < width && width - line >= 1 && width - line - 1 >= wlen;
            if line == 0 {
                out.append(word);
                line = wlen;
            } else if fits {
                out.append(" ");
                out.append(word);
                line = line + 1 + wlen;
            } else {
                out.append("\n");
                push_spaces(out, indent);
                out.append(word);
                line = wlen;
            }
            i = if j > i {
                j
            } else {
                i + 1
            };
        }
    }
}

/// Lays out a row whose nodes carry explicit column assignments: the
/// unassigned nodes form the row label, and each assigned node starts
/// on its own line in the remaining width, word-wrapped and indented
/// under the label.
fn render_cells(out: &mut String, nodes: &[DocNode], max_width: usize)
    requires
        forall|j: int| 0 <= j < nodes@.len() ==> (#[trigger] nodes@[j].text).is_ascii(),
{
    let n = nodes.len();
    let mut indent: usize = 0;
    let mut j: usize = 0;
    while j < n
        invariant
            n == nodes@.len(),
            j <= n,
            forall|j2: int| 0 <= j2 < nodes@.len() ==> (#[trigger] nodes@[j2].text).is_ascii(),
        decreases n - j,
    {
        if nodes[j].column == 0 {
            let t = nodes[j].text;
            out.append(t);
            proof {
                vstd::string::is_ascii_spec_bytes(t);
            }
            let tl = t.unicode_len();
            let mut k: usize = 0;
            while k < tl
                invariant
                    t.is_ascii(),
                    tl == t@.len(),
                    k <= tl,
                decreases tl - k,
            {
                if t.get_ascii(k) == 10 {
                    indent = 0;
                } else {
                    indent = if indent < usize::MAX {
                        indent + 1
                    } else {
                        indent
                    };
                }
                k = k + 1;
            }
        }
        j = j + 1;
    }
    let width = if max_width > indent {
        max_width - indent
    } else {
        1
    };
    let mut first: bool = true;
    let mut j2: usize = 0;
    while j2 < n
        invariant
            n == nodes@.len(),
            j2 <= n,
            forall|j3: int| 0 <= j3 < nodes@.len() ==> (#[trigger] nodes@[j3].text).is_ascii(),
        decreases n - j2,
    {
        if nodes[j2].column != 0 {
            if !first {
                out.append("\n");
                push_spaces(out, indent);
            }
            greedy_wrap(out, nodes[j2].text, width, indent);
            first = false;
        }
        j2 = j2 + 1;
    }
}

/// Whether any node of the row carries an explicit column assignment.
fn has_column_cells(nodes: &[DocNode]) -> (r: bool)
    ensures
        r == exists|j: int| 0 <= j < nodes@.len() && (#[trigger] nodes@[j]).column != 0,
{
    let mut j: usize = 0;
    while j < nodes.len()
        invariant
            j <= nodes@.len(),
            forall|j2: int| 0 <= j2 < j ==> (#[trigger] nodes@[j2]).column == 0,
        decreases nodes@.len() - j,
    {
        if nodes[j].column != 0 {
            return true;
        }
        j = j + 1;
    }
    false
}

/// Everything the renderer requires of a document: an empty top-level
/// text, ASCII texts three levels down, and total column texts that
/// fit a machine word.
pub open spec fn render_wf(d: DocNode) -> bool {
    &&& d.text@.len() == 0
    &&& forall|i: int|
        0 <= i < d.children@.len() ==> {
            let ch = #[trigger] d.children@[i];
            &&& ch.text.is_ascii()
            &&& forall|j: int|
                0 <= j < ch.children@.len() ==> {
                    let gc = #[trigger] ch.children@[j];
                    &&& gc.text.is_ascii()
                    &&& texts_len(gc.children@, gc.children@.len() as int) <= usize::MAX
                    &&& forall|k: int|
                        0 <= k < gc.children@.len() ==> (#[trigger] gc.children@[k].text).is_ascii()
                }
        }
}

impl DocNode {
    /// Renders the document: per section, the third-level nodes' text
    /// lengths fix the column widths (the last column shrinking to the
    /// page width), then each row is written with its styles, indent
    /// and column wrapping.
    pub fn render(&self) -> (r: String)
        requires
            render_wf(*self),
    {
        let max_width: usize = 24;
        let mut out = String::new();
        let mut ci: usize = 0;
        while ci < self.children.len()
            invariant
                render_wf(*self),
                ci <= self.children@.len(),
            decreases self.children@.len() - ci,
        {
            let child = &self.children[ci];
            let mut column_widths: Vec<usize> = Vec::new();
            let mut gi: usize = 0;
            while gi < child.children.len()
                invariant
                    render_wf(*self),
                    ci < self.children@.len(),
                    child == &self.children@[ci as int],
                    gi <= child.children@.len(),
                    forall|j: int|
                        0 <= j < gi ==> (#[trigger] child.children@[j]).children@.len()
                            <= column_widths@.len(),
                decreases child.children@.len() - gi,
            {
                let gc = &child.children[gi];
                let mut k: usize = 0;
                while k < gc.children.len()
                    invariant
                        render_wf(*self),
                        ci < self.children@.len(),
                        child == &self.children@[ci as int],
                        gi < child.children@.len(),
                        gc == &child.children@[gi as int],
                        k <= gc.children@.len(),
                        k <= column_widths@.len(),
                        forall|j: int|
                            0 <= j < gi ==> (#[trigger] child.children@[j]).children@.len()
                                <= column_widths@.len(),
                    decreases gc.children@.len() - k,
                {
                    proof {
                        vstd::string::is_ascii_spec_bytes(gc.children@[k as int].text);
                    }
                    let tl = gc.children[k].text.len();
                    if k == column_widths.len() {
                        column_widths.push(tl);
                    } else if tl > column_widths[k] {
                        column_widths[k] = tl;
                    }
                    k = k + 1;
                }
                gi = gi + 1;
            }

            // Shrink the last column when the sum overflows the page.
            let mut sum: usize = 0;
            let mut k: usize = 0;
            while k < column_widths.len()
                invariant
                    k <= column_widths@.len(),
                decreases column_widths@.len() - k,
            {
                let w = column_widths[k];
                sum = if sum <= usize::MAX - w {
                    sum + w
                } else {
                    usize::MAX
                };
                k = k + 1;
            }
            let nw = column_widths.len();
            if nw > 0 && sum > max_width {
                let over = sum - max_width;
                let last = column_widths[nw - 1];
                column_widths[nw - 1] = if last >= over {
                    last - over
                } else {
                    0
                };
            }

            if child.text.len() > 0 {
                if child.wrapping_sequence == 0 {
                    out.append(child.text);
                } else {
                    write_escape_sequence_start(&mut out, child);
                    out.append(child.text);
                    write_escape_reset(&mut out);
                }
            }

            let mut gi2: usize = 0;
            while gi2 < child.children.len()
                invariant
                    render_wf(*self),
                    ci < self.children@.len(),
                    child == &self.children@[ci as int],
                    gi2 <= child.children@.len(),
                    forall|j: int|
                        0 <= j < child.children@.len() ==> (
                        #[trigger] child.children@[j]).children@.len() <= column_widths@.len(),
                decreases child.children@.len() - gi2,
            {
                let gc = &child.children[gi2];
                if gc.indent != 0 {
                    push_spaces(&mut out, gc.indent as usize);
                }
                if gc.text.len() > 0 {
                    if gc.wrapping_sequence == 0 {
                        out.append(gc.text);
                    } else {
                        write_escape_sequence_start(&mut out, gc);
                        out.append(gc.text);
                        write_escape_reset(&mut out);
                    }
                }
                if has_column_cells(gc.children.as_slice()) {
                    render_cells(&mut out, gc.children.as_slice(), max_width);
                } else {
                    wrap_columns(
                        &mut out,
                        gc.children.as_slice(),
                        column_widths.as_slice(),
                        max_width,
                    );
                }
                if gc.wrapper_newlines == NEWLINE_AFTER_CHILDREN {
                    out.append("\n");
                }
                gi2 = gi2 + 1;
            }
            if child.wrapper_newlines == NEWLINE_AFTER_CHILDREN {
                out.append("\n");
            }
            ci = ci + 1;
        }
        out
    }
}

} // verus!
