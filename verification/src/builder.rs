//! The tree builder: a hierarchical description of segments
//! (`Seg`) and the pass that flattens it into the pre-order,
//! `child_span`-encoded arrays that the parsers walk.

use crate::tree::{is_forest, lemma_forest_join, lemma_forest_shift};
use crate::{Segment, TreeNode};
use vstd::prelude::*;

verus! {

/// A set of options a segment accepts, with a combinability rule
/// bitmask (see `OptGroupRules::bit`).
#[derive(Clone, Debug)]
pub struct OptGroup {
    pub options: Vec<u16>,
    pub rules: u8,
}

impl OptGroup {
    /// Any of the options in this group may be present.
    pub fn anyof(options: Vec<u16>) -> (r: Self)
        ensures
            r.options == options,
            r.rules == 0,
    {
        OptGroup { options, rules: 0 }
    }

    /// At most one of the options in this group may be present.
    pub fn oneof(options: Vec<u16>) -> (r: Self)
        ensures
            r.options == options,
            r.rules == crate::RULES_ONEOF,
    {
        OptGroup { options, rules: crate::RULES_ONEOF }
    }

    /// Additionally require at least one of the options in this group.
    pub fn required(self) -> (r: Self)
        ensures
            r.options == self.options,
            r.rules == self.rules | crate::RULES_REQUIRED,
    {
        OptGroup { options: self.options, rules: self.rules | crate::RULES_REQUIRED }
    }
}

/// One segment of the hierarchical description: a name, the nested
/// child segments, the declared option groups, and the operand count.
pub struct Seg {
    pub name: &'static str,
    pub commands: Vec<Seg>,
    pub opt_groups: Vec<OptGroup>,
    pub operands: u16,
}

/// Total number of segments in the tree rooted at `s`.
pub open spec fn seg_count(s: Seg) -> int
    decreases s,
{
    1 + segs_count(s.commands@, s.commands@.len() as int)
}

/// Total number of segments in the trees of the first `n` of `cs`.
pub open spec fn segs_count(cs: Seq<Seg>, n: int) -> int
    decreases cs, n,
{
    if n <= 0 || n > cs.len() {
        0
    } else {
        segs_count(cs, n - 1) + seg_count(cs[n - 1])
    }
}

/// Total number of option groups in the tree rooted at `s`.
pub open spec fn seg_gtotal(s: Seg) -> int
    decreases s,
{
    s.opt_groups@.len() + segs_gtotal(s.commands@, s.commands@.len() as int)
}

/// Total number of option groups in the trees of the first `n` of `cs`.
pub open spec fn segs_gtotal(cs: Seq<Seg>, n: int) -> int
    decreases cs, n,
{
    if n <= 0 || n > cs.len() {
        0
    } else {
        segs_gtotal(cs, n - 1) + seg_gtotal(cs[n - 1])
    }
}

/// Every segment of the tree declares at most 15 option groups (the
/// packed group word holds the count in 4 bits).
pub open spec fn groups_bounded(s: Seg) -> bool
    decreases s,
{
    s.opt_groups@.len() <= 15 && segs_groups_bounded(s.commands@, s.commands@.len() as int)
}

pub open spec fn segs_groups_bounded(cs: Seq<Seg>, n: int) -> bool
    decreases cs, n,
{
    n <= 0 || n > cs.len() || (segs_groups_bounded(cs, n - 1) && groups_bounded(cs[n - 1]))
}

pub proof fn lemma_seg_count_pos(s: Seg)
    ensures
        seg_count(s) >= 1,
    decreases s,
{
    lemma_segs_count_nonneg(s.commands@, s.commands@.len() as int);
}

pub proof fn lemma_segs_count_nonneg(cs: Seq<Seg>, n: int)
    ensures
        segs_count(cs, n) >= 0,
    decreases cs, n,
{
    if 0 < n <= cs.len() {
        lemma_segs_count_nonneg(cs, n - 1);
        lemma_seg_count_pos(cs[n - 1]);
    }
}

pub proof fn lemma_segs_count_mono(cs: Seq<Seg>, k: int, n: int)
    requires
        0 <= k <= n <= cs.len(),
    ensures
        segs_count(cs, k) <= segs_count(cs, n),
    decreases n - k,
{
    if k < n {
        lemma_segs_count_mono(cs, k, n - 1);
        if n <= cs.len() {
            lemma_seg_count_pos(cs[n - 1]);
        }
    }
}

pub proof fn lemma_seg_gtotal_nonneg(s: Seg)
    ensures
        seg_gtotal(s) >= 0,
    decreases s,
{
    lemma_segs_gtotal_nonneg(s.commands@, s.commands@.len() as int);
}

pub proof fn lemma_segs_gtotal_nonneg(cs: Seq<Seg>, n: int)
    ensures
        segs_gtotal(cs, n) >= 0,
    decreases cs, n,
{
    if 0 < n <= cs.len() {
        lemma_segs_gtotal_nonneg(cs, n - 1);
        lemma_seg_gtotal_nonneg(cs[n - 1]);
    }
}

pub proof fn lemma_segs_gtotal_mono(cs: Seq<Seg>, k: int, n: int)
    requires
        0 <= k <= n <= cs.len(),
    ensures
        segs_gtotal(cs, k) <= segs_gtotal(cs, n),
    decreases n - k,
{
    if k < n {
        lemma_segs_gtotal_mono(cs, k, n - 1);
        if n <= cs.len() {
            lemma_seg_gtotal_nonneg(cs[n - 1]);
        }
    }
}

impl Seg {
    /// A leaf segment with no children, no option groups, and no
    /// operands.
    pub fn new(name: &'static str) -> (r: Self)
        ensures
            r.name@ == name@,
            r.commands@.len() == 0,
            r.opt_groups@.len() == 0,
            r.operands == 0,
    {
        Seg { name, commands: Vec::new(), opt_groups: Vec::new(), operands: 0 }
    }

    /// Nest child segments under this one.
    pub fn nest(self, commands: Vec<Seg>) -> (r: Self)
        ensures
            r == (Seg { commands, ..self }),
    {
        Seg { commands, ..self }
    }

    /// Declare how many operand tokens this segment consumes
    /// (`u16::MAX` for unbounded).
    pub fn operands(self, operands: u16) -> (r: Self)
        ensures
            r == (Seg { operands, ..self }),
    {
        Seg { operands, ..self }
    }

    /// Declare the option groups this segment accepts.
    pub fn options(self, groups: Vec<OptGroup>) -> (r: Self)
        ensures
            r == (Seg { opt_groups: groups, ..self }),
    {
        Seg { opt_groups: groups, ..self }
    }

    /// Counts all segments in the tree, and all their option groups:
    /// the sizes of the arrays `flatten` will fill.
    pub fn count(&self) -> (r: (usize, usize))
        requires
            seg_count(*self) <= usize::MAX,
            seg_gtotal(*self) <= usize::MAX,
        ensures
            r.0 == seg_count(*self),
            r.1 == seg_gtotal(*self),
        decreases *self,
    {
        let mut nodes: usize = 1;
        let mut groups: usize = self.opt_groups.len();
        let mut k: usize = 0;
        proof {
            lemma_segs_count_nonneg(self.commands@, self.commands@.len() as int);
            lemma_segs_gtotal_nonneg(self.commands@, self.commands@.len() as int);
        }
        while k < self.commands.len()
            invariant
                k <= self.commands@.len(),
                nodes == 1 + segs_count(self.commands@, k as int),
                groups == self.opt_groups@.len() + segs_gtotal(self.commands@, k as int),
                seg_count(*self) <= usize::MAX,
                seg_gtotal(*self) <= usize::MAX,
            decreases self.commands@.len() - k,
        {
            proof {
                lemma_segs_count_mono(self.commands@, k + 1, self.commands@.len() as int);
                lemma_segs_gtotal_mono(self.commands@, k + 1, self.commands@.len() as int);
                lemma_segs_count_nonneg(self.commands@, k as int);
                lemma_segs_gtotal_nonneg(self.commands@, k as int);
                lemma_seg_count_pos(self.commands@[k as int]);
                lemma_seg_gtotal_nonneg(self.commands@[k as int]);
            }
            let (cn, cg) = self.commands[k].count();
            nodes = nodes + cn;
            groups = groups + cg;
            k = k + 1;
        }
        (nodes, groups)
    }
}

/// The flattened arrays that `Seg::flatten` produces; a `Router` is
/// assembled from these plus the option table.
pub struct FlatTree {
    pub tree: Vec<TreeNode>,
    pub segments: Vec<Segment>,
    pub opt_group_rules: Vec<u8>,
    pub opt_groups: Vec<Vec<u16>>,
    pub names: Vec<&'static str>,
}

/// Spec-level image of one flattening step.
pub ghost struct FlatSpec {
    pub tree: Seq<TreeNode>,
    pub segments: Seq<Segment>,
    pub rules: Seq<u8>,
    pub groups: Seq<Seq<u16>>,
    pub names: Seq<Seq<char>>,
}

pub open spec fn fs_empty() -> FlatSpec {
    FlatSpec {
        tree: Seq::empty(),
        segments: Seq::empty(),
        rules: Seq::empty(),
        groups: Seq::empty(),
        names: Seq::empty(),
    }
}

pub open spec fn fs_app(a: FlatSpec, b: FlatSpec) -> FlatSpec {
    FlatSpec {
        tree: a.tree + b.tree,
        segments: a.segments + b.segments,
        rules: a.rules + b.rules,
        groups: a.groups + b.groups,
        names: a.names + b.names,
    }
}

/// The record flattening emits for segment `s` itself, before its
/// children: `me` is its global node index, `nb` the number of option
/// names preceding the segment names, `gb` the next free slot of the
/// group table.
pub open spec fn fs_own(s: Seg, parent: int, me: int, nb: int, gb: int) -> FlatSpec {
    FlatSpec {
        tree: seq![TreeNode { child_span: (seg_count(s) - 1) as u16, parent: parent as u16 }],
        segments: seq![
            Segment {
                operands: if s.commands@.len() > 0 {
                    0
                } else {
                    s.operands
                },
                opt_groups: if s.opt_groups@.len() == 0 {
                    0
                } else {
                    ((s.opt_groups@.len() as u16) << 12) | (gb as u16)
                },
                name: (nb + me) as u16,
            },
        ],
        rules: Seq::new(s.opt_groups@.len(), |k: int| s.opt_groups@[k].rules),
        groups: Seq::new(s.opt_groups@.len(), |k: int| s.opt_groups@[k].options@),
        names: seq![s.name@],
    }
}

/// What flattening the tree rooted at `s` appends to the output
/// arrays.
pub open spec fn spec_flatten(s: Seg, parent: int, me: int, nb: int, gb: int) -> FlatSpec
    decreases s,
{
    fs_app(
        fs_own(s, parent, me, nb, gb),
        spec_flatten_children(
            s.commands@,
            s.commands@.len() as int,
            me,
            me + 1,
            nb,
            gb + s.opt_groups@.len(),
        ),
    )
}

/// What flattening the first `n` child trees appends: `parent` is
/// their parent's node index, `next` the node index where child 0
/// starts.
pub open spec fn spec_flatten_children(
    cs: Seq<Seg>,
    n: int,
    parent: int,
    next: int,
    nb: int,
    gb: int,
) -> FlatSpec
    decreases cs, n,
{
    if n <= 0 || n > cs.len() {
        fs_empty()
    } else {
        fs_app(
            spec_flatten_children(cs, n - 1, parent, next, nb, gb),
            spec_flatten(
                cs[n - 1],
                parent,
                next + segs_count(cs, n - 1),
                nb,
                gb + segs_gtotal(cs, n - 1),
            ),
        )
    }
}

/// The five output sequences of one flattening step have the expected
/// lengths.
pub proof fn lemma_fs_lens(s: Seg, parent: int, me: int, nb: int, gb: int)
    ensures
        spec_flatten(s, parent, me, nb, gb).tree.len() == seg_count(s),
        spec_flatten(s, parent, me, nb, gb).segments.len() == seg_count(s),
        spec_flatten(s, parent, me, nb, gb).names.len() == seg_count(s),
        spec_flatten(s, parent, me, nb, gb).rules.len() == seg_gtotal(s),
        spec_flatten(s, parent, me, nb, gb).groups.len() == seg_gtotal(s),
    decreases s,
{
    lemma_fs_children_lens(
        s.commands@,
        s.commands@.len() as int,
        me,
        me + 1,
        nb,
        gb + s.opt_groups@.len(),
    );
}

pub proof fn lemma_fs_children_lens(cs: Seq<Seg>, n: int, parent: int, next: int, nb: int, gb: int)
    ensures
        spec_flatten_children(cs, n, parent, next, nb, gb).tree.len() == segs_count(cs, n),
        spec_flatten_children(cs, n, parent, next, nb, gb).segments.len() == segs_count(cs, n),
        spec_flatten_children(cs, n, parent, next, nb, gb).names.len() == segs_count(cs, n),
        spec_flatten_children(cs, n, parent, next, nb, gb).rules.len() == segs_gtotal(cs, n),
        spec_flatten_children(cs, n, parent, next, nb, gb).groups.len() == segs_gtotal(cs, n),
    decreases cs, n,
{
    if 0 < n <= cs.len() {
        lemma_fs_children_lens(cs, n - 1, parent, next, nb, gb);
        lemma_fs_lens(
            cs[n - 1],
            parent,
            next + segs_count(cs, n - 1),
            nb,
            gb + segs_gtotal(cs, n - 1),
        );
    } else {
        lemma_segs_count_nonneg(cs, n);
        lemma_segs_gtotal_nonneg(cs, n);
    }
}

/// The tree part of one flattening step is a single complete subtree.
pub proof fn lemma_fs_forest(s: Seg, parent: int, me: int, nb: int, gb: int)
    requires
        seg_count(s) <= u16::MAX,
    ensures
        is_forest(spec_flatten(s, parent, me, nb, gb).tree, 0, seg_count(s)),
    decreases s,
{
    let fs = spec_flatten(s, parent, me, nb, gb);
    let cs = s.commands@;
    let cnt = seg_count(s);
    let fsc = spec_flatten_children(
        cs,
        cs.len() as int,
        me,
        me + 1,
        nb,
        gb + s.opt_groups@.len(),
    );
    lemma_seg_count_pos(s);
    lemma_segs_count_nonneg(cs, cs.len() as int);
    lemma_fs_children_lens(cs, cs.len() as int, me, me + 1, nb, gb + s.opt_groups@.len());
    lemma_fsc_forest(cs, cs.len() as int, me, me + 1, nb, gb + s.opt_groups@.len());
    assert(fs.tree.subrange(1, cnt) =~= fsc.tree);
    lemma_forest_shift(fs.tree, 1, cnt - 1);
    assert(is_forest(fs.tree, cnt, cnt));
    assert(fs.tree[0].child_span == (cnt - 1) as u16);
    assert(is_forest(fs.tree, 0, cnt));
}

/// The tree parts of the first `n` child trees form a forest.
pub proof fn lemma_fsc_forest(cs: Seq<Seg>, n: int, parent: int, next: int, nb: int, gb: int)
    requires
        segs_count(cs, n) <= u16::MAX,
    ensures
        is_forest(spec_flatten_children(cs, n, parent, next, nb, gb).tree, 0, segs_count(cs, n)),
    decreases cs, n,
{
    if 0 < n <= cs.len() {
        let a = spec_flatten_children(cs, n - 1, parent, next, nb, gb);
        let child = cs[n - 1];
        let b = spec_flatten(
            child,
            parent,
            next + segs_count(cs, n - 1),
            nb,
            gb + segs_gtotal(cs, n - 1),
        );
        let t = a.tree + b.tree;
        lemma_segs_count_nonneg(cs, n - 1);
        lemma_seg_count_pos(child);
        lemma_fs_children_lens(cs, n - 1, parent, next, nb, gb);
        lemma_fs_lens(
            child,
            parent,
            next + segs_count(cs, n - 1),
            nb,
            gb + segs_gtotal(cs, n - 1),
        );
        lemma_fsc_forest(cs, n - 1, parent, next, nb, gb);
        lemma_fs_forest(
            child,
            parent,
            next + segs_count(cs, n - 1),
            nb,
            gb + segs_gtotal(cs, n - 1),
        );
        let al = a.tree.len() as int;
        let bl = b.tree.len() as int;
        assert(t.subrange(0, al) =~= a.tree);
        assert(t.subrange(al, al + bl) =~= b.tree);
        lemma_forest_shift(t, 0, al);
        lemma_forest_shift(t, al, bl);
        lemma_forest_join(t, 0, al, al + bl);
    }
}

/// Every emitted segment with descendants has `operands == 0`.
pub proof fn lemma_fs_operands(s: Seg, parent: int, me: int, nb: int, gb: int)
    requires
        seg_count(s) <= u16::MAX,
    ensures
        ({
            let fs = spec_flatten(s, parent, me, nb, gb);
            forall|i: int|
                0 <= i < fs.tree.len() && (#[trigger] fs.tree[i]).child_span > 0
                    ==> fs.segments[i].operands == 0
        }),
    decreases s,
{
    let fs = spec_flatten(s, parent, me, nb, gb);
    let cs = s.commands@;
    lemma_seg_count_pos(s);
    lemma_segs_count_nonneg(cs, cs.len() as int);
    lemma_fs_children_lens(cs, cs.len() as int, me, me + 1, nb, gb + s.opt_groups@.len());
    lemma_fsc_operands(cs, cs.len() as int, me, me + 1, nb, gb + s.opt_groups@.len());
}

pub proof fn lemma_fsc_operands(cs: Seq<Seg>, n: int, parent: int, next: int, nb: int, gb: int)
    requires
        segs_count(cs, n) <= u16::MAX,
    ensures
        ({
            let fs = spec_flatten_children(cs, n, parent, next, nb, gb);
            forall|i: int|
                0 <= i < fs.tree.len() && (#[trigger] fs.tree[i]).child_span > 0
                    ==> fs.segments[i].operands == 0
        }),
    decreases cs, n,
{
    if 0 < n <= cs.len() {
        let child = cs[n - 1];
        lemma_segs_count_nonneg(cs, n - 1);
        lemma_seg_count_pos(child);
        lemma_fs_children_lens(cs, n - 1, parent, next, nb, gb);
        lemma_fs_lens(
            child,
            parent,
            next + segs_count(cs, n - 1),
            nb,
            gb + segs_gtotal(cs, n - 1),
        );
        lemma_fsc_operands(cs, n - 1, parent, next, nb, gb);
        lemma_fs_operands(
            child,
            parent,
            next + segs_count(cs, n - 1),
            nb,
            gb + segs_gtotal(cs, n - 1),
        );
    }
}

/// Packing a 4-bit count with a 12-bit start is lossless.
pub proof fn lemma_pack_bits(c: u16, st: u16)
    requires
        c <= 15,
        st <= 0x0fff,
    ensures
        ((c << 12) | st) >> 12 == c,
        ((c << 12) | st) & 0x0fff == st,
{
    assert(c <= 15 && st <= 0x0fff ==> (((c << 12) | st) >> 12 == c && ((c << 12) | st) & 0x0fff
        == st)) by (bit_vector);
}

/// Element-for-element copy of an index list.
fn copy_u16s(v: &Vec<u16>) -> (r: Vec<u16>)
    ensures
        r@ == v@,
{
    let mut r: Vec<u16> = Vec::new();
    let mut i: usize = 0;
    while i < v.len()
        invariant
            i <= v@.len(),
            r@ == v@.subrange(0, i as int),
        decreases v@.len() - i,
    {
        r.push(v[i]);
        proof {
            assert(r@ =~= v@.subrange(0, i + 1));
        }
        i = i + 1;
    }
    proof {
        assert(r@ =~= v@);
    }
    r
}

impl Seg {
    /// Emits this tree's records onto the end of `out`: its own node,
    /// segment, name and groups, then its children's, in pre-order.
    fn emit(&self, parent: u16, out: &mut FlatTree, Ghost(nb): Ghost<int>)
        requires
            old(out).tree@.len() == old(out).segments@.len(),
            old(out).names@.len() == nb + old(out).tree@.len(),
            old(out).opt_groups@.len() == old(out).opt_group_rules@.len(),
            nb >= 0,
            nb + old(out).tree@.len() + seg_count(*self) <= u16::MAX,
            old(out).opt_groups@.len() + seg_gtotal(*self) <= 0x0fff,
            groups_bounded(*self),
        ensures
            ({
                let fs = spec_flatten(
                    *self,
                    parent as int,
                    old(out).tree@.len() as int,
                    nb,
                    old(out).opt_groups@.len() as int,
                );
                &&& final(out).tree@ == old(out).tree@ + fs.tree
                &&& final(out).segments@ == old(out).segments@ + fs.segments
                &&& final(out).opt_group_rules@ == old(out).opt_group_rules@ + fs.rules
                &&& final(out).opt_groups.deep_view() == old(out).opt_groups.deep_view()
                    + fs.groups
                &&& final(out).names.deep_view() == old(out).names.deep_view() + fs.names
            }),
        decreases *self,
    {
        let ghost me = old(out).tree@.len() as int;
        let ghost gb = old(out).opt_groups@.len() as int;
        let ghost fs = spec_flatten(*self, parent as int, me, nb, gb);
        let ghost own = fs_own(*self, parent as int, me, nb, gb);
        proof {
            lemma_seg_count_pos(*self);
            lemma_segs_count_nonneg(self.commands@, self.commands@.len() as int);
            lemma_segs_gtotal_nonneg(self.commands@, self.commands@.len() as int);
        }
        let me_x: usize = out.tree.len();
        out.tree.push(TreeNode { child_span: 0, parent });
        let name_index = out.names.len() as u16;
        let word: u16 = if self.opt_groups.len() == 0 {
            0
        } else {
            Segment::pack_groups(self.opt_groups.len() as u16, out.opt_groups.len() as u16)
        };
        proof {
            if self.opt_groups@.len() > 0 {
                lemma_pack_bits(self.opt_groups@.len() as u16, gb as u16);
            }
        }
        let ops: u16 = if self.commands.len() > 0 {
            0
        } else {
            self.operands
        };
        out.segments.push(Segment { operands: ops, opt_groups: word, name: name_index });
        out.names.push(self.name);
        proof {
            assert(out.names.deep_view() =~~= old(out).names.deep_view() + own.names);
        }

        let ghost groups0 = out.opt_groups.deep_view();
        let ghost rules0 = out.opt_group_rules@;
        let mut g: usize = 0;
        while g < self.opt_groups.len()
            invariant
                g <= self.opt_groups@.len(),
                out.opt_group_rules@ == rules0 + Seq::new(
                    g as nat,
                    |k: int| self.opt_groups@[k].rules,
                ),
                out.opt_groups.deep_view() == groups0 + Seq::new(
                    g as nat,
                    |k: int| self.opt_groups@[k].options@,
                ),
                out.tree@ == old(out).tree@ + seq![
                    TreeNode { child_span: 0, parent },
                ],
                out.segments@ == old(out).segments@ + own.segments,
                out.names@ == old(out).names@ + seq![self.name],
            decreases self.opt_groups@.len() - g,
        {
            let opts = copy_u16s(&self.opt_groups[g].options);
            let ghost gprev = out.opt_groups.deep_view();
            out.opt_groups.push(opts);
            out.opt_group_rules.push(self.opt_groups[g].rules);
            proof {
                assert(out.opt_group_rules@ =~= rules0 + Seq::new(
                    (g + 1) as nat,
                    |k: int| self.opt_groups@[k].rules,
                ));
                assert(out.opt_groups.deep_view() =~= gprev.push(
                    self.opt_groups@[g as int].options@,
                )) by {
                    assert forall|i: int| 0 <= i < out.opt_groups@.len() implies
                        #[trigger] out.opt_groups.deep_view()[i] == gprev.push(
                        self.opt_groups@[g as int].options@,
                    )[i] by {
                        if i < gprev.len() {
                        } else {
                            assert(out.opt_groups@[i] == opts);
                            assert(opts.deep_view() =~= self.opt_groups@[g as int].options@);
                        }
                    }
                    assert(out.opt_groups.deep_view() =~= gprev.push(
                        self.opt_groups@[g as int].options@,
                    ));
                }
                assert(out.opt_groups.deep_view() =~= groups0 + Seq::new(
                    (g + 1) as nat,
                    |k: int| self.opt_groups@[k].options@,
                ));
            }
            g = g + 1;
        }
        proof {
            assert(out.opt_group_rules@ =~= rules0 + own.rules);
            assert(out.opt_groups.deep_view() =~~= groups0 + own.groups);
        }

        let ghost cs = self.commands@;
        let ghost gb1 = gb + self.opt_groups@.len();
        proof {
            lemma_fs_children_lens(cs, 0, me, me + 1, nb, gb1);
        }
        let mut k: usize = 0;
        while k < self.commands.len()
            invariant
                k <= cs.len(),
                cs == self.commands@,
                nb >= 0,
                groups_bounded(*self),
                nb + me + seg_count(*self) <= u16::MAX,
                gb + seg_gtotal(*self) <= 0x0fff,
                me == old(out).tree@.len(),
                gb == old(out).opt_groups@.len(),
                gb1 == gb + self.opt_groups@.len(),
                me_x == me,
                old(out).tree@.len() == old(out).segments@.len(),
                old(out).names@.len() == nb + old(out).tree@.len(),
                old(out).opt_groups@.len() == old(out).opt_group_rules@.len(),
                out.tree@.len() == me + 1 + segs_count(cs, k as int),
                out.segments@.len() == me + 1 + segs_count(cs, k as int),
                out.names@.len() == nb + me + 1 + segs_count(cs, k as int),
                out.opt_groups@.len() == gb1 + segs_gtotal(cs, k as int),
                out.opt_group_rules@.len() == gb1 + segs_gtotal(cs, k as int),
                out.tree@ == old(out).tree@ + seq![
                    TreeNode { child_span: 0, parent },
                ] + spec_flatten_children(cs, k as int, me, me + 1, nb, gb1).tree,
                out.segments@ == old(out).segments@ + own.segments + spec_flatten_children(
                    cs,
                    k as int,
                    me,
                    me + 1,
                    nb,
                    gb1,
                ).segments,
                out.opt_group_rules@ == old(out).opt_group_rules@ + own.rules
                    + spec_flatten_children(cs, k as int, me, me + 1, nb, gb1).rules,
                out.opt_groups.deep_view() == old(out).opt_groups.deep_view() + own.groups
                    + spec_flatten_children(cs, k as int, me, me + 1, nb, gb1).groups,
                out.names.deep_view() == old(out).names.deep_view() + own.names
                    + spec_flatten_children(cs, k as int, me, me + 1, nb, gb1).names,
            decreases cs.len() - k,
        {
            let ghost partial = spec_flatten_children(cs, k as int, me, me + 1, nb, gb1);
            proof {
                lemma_fs_children_lens(cs, k as int, me, me + 1, nb, gb1);
                lemma_segs_count_nonneg(cs, k as int);
                lemma_segs_gtotal_nonneg(cs, k as int);
                lemma_seg_count_pos(cs[k as int]);
                lemma_seg_gtotal_nonneg(cs[k as int]);
                lemma_segs_count_mono(cs, k + 1, cs.len() as int);
                lemma_segs_gtotal_mono(cs, k + 1, cs.len() as int);
                lemma_groups_bounded_child(*self, k as int);
            }
            self.commands[k].emit(me_x as u16, out, Ghost(nb));
            proof {
                assert(out.tree@ =~= old(out).tree@ + seq![
                    TreeNode { child_span: 0, parent },
                ] + spec_flatten_children(cs, k + 1, me, me + 1, nb, gb1).tree);
                assert(out.segments@ =~= old(out).segments@ + own.segments
                    + spec_flatten_children(cs, k + 1, me, me + 1, nb, gb1).segments);
                assert(out.opt_group_rules@ =~= old(out).opt_group_rules@ + own.rules
                    + spec_flatten_children(cs, k + 1, me, me + 1, nb, gb1).rules);
                assert(out.opt_groups.deep_view() =~~= old(out).opt_groups.deep_view() + own.groups
                    + spec_flatten_children(cs, k + 1, me, me + 1, nb, gb1).groups);
                assert(out.names.deep_view() =~~= old(out).names.deep_view() + own.names
                    + spec_flatten_children(cs, k + 1, me, me + 1, nb, gb1).names);
                lemma_fs_children_lens(cs, k + 1, me, me + 1, nb, gb1);
            }
            k = k + 1;
        }

        proof {
            lemma_fs_children_lens(cs, cs.len() as int, me, me + 1, nb, gb1);
        }
        let span = (out.tree.len() - me_x - 1) as u16;
        let fixed = TreeNode { child_span: span, parent };
        out.tree[me_x] = fixed;
        proof {
            assert(out.tree@ =~= old(out).tree@ + fs.tree);
            assert(out.segments@ =~= old(out).segments@ + fs.segments);
            assert(out.opt_group_rules@ =~= old(out).opt_group_rules@ + fs.rules);
            assert(out.opt_groups.deep_view() =~~= old(out).opt_groups.deep_view() + fs.groups);
            assert(out.names.deep_view() =~~= old(out).names.deep_view() + fs.names);
        }
    }

    /// Flattens the tree rooted at `self` into the pre-order arrays
    /// of the data model: node `i`'s `child_span` counts all its
    /// descendants, its name stands at `opt_names.len() + i`, and its
    /// packed group word points at its groups in the shared table.
    ///
    /// A tree with children at a segment that declared operands
    /// forces that segment's `operands` to 0.
    pub fn flatten(&self, opt_names: &Vec<&'static str>) -> (f: FlatTree)
        requires
            opt_names@.len() + seg_count(*self) <= u16::MAX,
            seg_gtotal(*self) <= 0x0fff,
            groups_bounded(*self),
        ensures
            ({
                let fs = spec_flatten(*self, 0, 0, opt_names@.len() as int, 0);
                &&& f.tree@ == fs.tree
                &&& f.segments@ == fs.segments
                &&& f.opt_group_rules@ == fs.rules
                &&& f.opt_groups.deep_view() == fs.groups
                &&& f.names.deep_view() == opt_names.deep_view() + fs.names
            }),
            f.tree@.len() == seg_count(*self),
            f.segments@.len() == seg_count(*self),
            f.names@.len() == opt_names@.len() + seg_count(*self),
            f.tree@[0].child_span == seg_count(*self) - 1,
            is_forest(f.tree@, 0, f.tree@.len() as int),
            forall|i: int|
                0 <= i < f.tree@.len() && (#[trigger] f.tree@[i]).child_span > 0
                    ==> f.segments@[i].operands == 0,
    {
        let mut names: Vec<&'static str> = Vec::new();
        let mut i: usize = 0;
        while i < opt_names.len()
            invariant
                i <= opt_names@.len(),
                names@ == opt_names@.subrange(0, i as int),
            decreases opt_names@.len() - i,
        {
            names.push(opt_names[i]);
            proof {
                assert(names@ =~= opt_names@.subrange(0, i + 1));
            }
            i = i + 1;
        }
        proof {
            assert(names@ =~= opt_names@);
        }
        let mut out = FlatTree {
            tree: Vec::new(),
            segments: Vec::new(),
            opt_group_rules: Vec::new(),
            opt_groups: Vec::new(),
            names,
        };
        proof {
            lemma_seg_count_pos(*self);
            lemma_seg_gtotal_nonneg(*self);
        }
        self.emit(0, &mut out, Ghost(opt_names@.len() as int));
        proof {
            let fs = spec_flatten(*self, 0, 0, opt_names@.len() as int, 0);
            lemma_fs_lens(*self, 0, 0, opt_names@.len() as int, 0);
            lemma_fs_forest(*self, 0, 0, opt_names@.len() as int, 0);
            lemma_fs_operands(*self, 0, 0, opt_names@.len() as int, 0);
            assert(out.tree@ =~= fs.tree);
            assert(out.segments@ =~= fs.segments);
            assert(out.opt_group_rules@ =~= fs.rules);
            assert(out.opt_groups.deep_view() =~~= fs.groups);
        }
        out
    }
}

/// Each child of a group-bounded tree is group-bounded.
pub proof fn lemma_groups_bounded_child(s: Seg, k: int)
    requires
        groups_bounded(s),
        0 <= k < s.commands@.len(),
    ensures
        groups_bounded(s.commands@[k]),
{
    lemma_segs_groups_bounded_at(s.commands@, s.commands@.len() as int, k);
}

pub proof fn lemma_segs_groups_bounded_at(cs: Seq<Seg>, n: int, k: int)
    requires
        segs_groups_bounded(cs, n),
        0 <= k < n,
        n <= cs.len(),
    ensures
        groups_bounded(cs[k]),
    decreases n,
{
    if k < n - 1 {
        lemma_segs_groups_bounded_at(cs, n - 1, k);
    }
}

} // verus!
