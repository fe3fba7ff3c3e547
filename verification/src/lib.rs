//! A command routing engine: a flattened, index-based tree of named
//! segments (subcommands or URI path elements), a CLI token parser and a
//! URI parser that walk that tree, select a segment, and collect option
//! occurrences, option values and operands.

use vstd::prelude::*;
use vstd::string::StrSliceExecFns;

pub mod builder;
pub mod casing;
pub mod cli;
pub mod doc;
pub mod tree;
pub mod uri;

pub use crate::builder::{FlatTree, OptGroup, Seg};
pub use crate::casing::{to_case, NameCase};
pub use crate::cli::{parse_cli_route, Arg};
pub use crate::doc::{DocNode, DocNodeWithoutSummary};
pub use crate::uri::{parse_uri_route, parse_uri_scheme_and_authority, URIAuthorityLengths};

verus! {

/// One node of the flattened routing tree, stored in pre-order
/// (parent before children).  `child_span` counts *all* descendants,
/// so a walker skips a whole subtree by advancing
/// `index + child_span + 1`.
#[derive(Clone, Copy, Debug)]
pub struct TreeNode {
    pub child_span: u16,
    pub parent: u16,
}

/// Per-segment routing data, index-aligned with the tree nodes.
#[derive(Clone, Copy, Debug)]
pub struct Segment {
    /// Exact number of operand tokens the segment consumes;
    /// `u16::MAX` means unbounded.  A segment with children always
    /// has `operands == 0`.
    pub operands: u16,
    /// Packed option-group word: the high 4 bits count the groups
    /// declared for this segment, the low 12 bits give the start
    /// index into the shared group table.  0 means no groups.
    pub opt_groups: u16,
    /// Index into the shared name table.
    pub name: u16,
}

/// What a parsed occurrence of an option must do with a value.
#[derive(Clone, Copy, Debug, PartialEq, Eq, Structural)]
pub enum OptArgKind {
    /// The option carries no value.
    KeyOnly,
    /// Exactly one value; a new occurrence overwrites the last.
    Single,
    /// One value per occurrence, accumulated in encounter order.
    Multiple,
}

/// Maps a parsed argument to an option.
#[derive(Clone, Copy, Debug)]
pub struct Opt {
    /// Index into the shared name table.
    pub name: u16,
    pub kind: OptArgKind,
}

/// Combinability rule of an option group.  The rules are stored as a
/// bitmask (`bit()`): `OneOf` and `Required` may combine.
#[derive(Clone, Copy, Debug, PartialEq, Eq, Structural)]
pub enum OptGroupRules {
    AnyOf,
    OneOf,
    Required,
}

/// Bit of the `OneOf` rule inside a rules bitmask.
pub const RULES_ONEOF: u8 = 1;

/// Bit of the `Required` rule inside a rules bitmask.
pub const RULES_REQUIRED: u8 = 2;

impl OptGroupRules {
    /// The rule's contribution to a rules bitmask.
    pub fn bit(self) -> (r: u8)
        ensures
            self is AnyOf ==> r == 0,
            self is OneOf ==> r == RULES_ONEOF,
            self is Required ==> r == RULES_REQUIRED,
    {
        match self {
            OptGroupRules::AnyOf => 0,
            OptGroupRules::OneOf => RULES_ONEOF,
            OptGroupRules::Required => RULES_REQUIRED,
        }
    }
}

/// A contiguous sub-range of `Context::saved_args`, holding the
/// accumulated values of one `Multiple`-kind option.
#[derive(Clone, Copy, Debug, PartialEq, Eq, Structural)]
pub struct ArgRange {
    pub start: u16,
    pub end: u16,
}

/// A typed parse failure.  None of these is fatal: the parsers return
/// them to the caller and never panic.
#[derive(Clone, Copy, Debug, PartialEq, Eq, Structural)]
pub enum RouteError {
    /// A value-taking option was the last token, or ended a cluster
    /// with no token following.
    MissingOptionArgument,
    /// A value-taking short option stood mid-cluster.
    AmbiguousShortOption,
    /// Two options of a `OneOf` group occurred together; the fields
    /// are their option indices.
    MutuallyExclusiveOptions(u16, u16),
    /// A `Required` group had no occurrence of any member.
    MissingRequiredOption,
    /// An option occurred that belongs to none of the selected
    /// segment's declared groups; the field is its option index.
    OptionNotAllowed(u16),
}

/// The immutable routing table: built once, read-only afterwards, and
/// safely shared by any number of concurrent parses.
pub struct Router {
    pub tree: Vec<TreeNode>,
    pub segments: Vec<Segment>,
    /// Rule bitmasks, index-aligned with `opt_groups`.
    pub opt_group_rules: Vec<u8>,
    /// All segments' groups; a segment's packed `opt_groups` word
    /// selects a sub-range of this table.
    pub opt_groups: Vec<Vec<u16>>,
    /// Sorted by resolved name, so a name lookup can binary-search.
    pub options: Vec<Opt>,
    /// Pairs of (option index, short alias character).
    pub short_option_mappers: Vec<(u16, char)>,
    /// The first `options.len()` entries are option names; the rest
    /// are segment names in flattening order.
    pub names: Vec<&'static str>,
    pub help_opt_index: Option<u16>,
}

/// Everything one parse produces: the selected segment, its operands,
/// and the option bookkeeping.  Owned exclusively by the caller.
pub struct Context {
    /// The selected segment's operands (preceded by any wildcard
    /// path-parameter captures), followed by any tokens found after a
    /// `--` terminator.
    pub operands: Vec<String>,
    /// Flat backing store for all options' values.
    pub saved_args: Vec<String>,
    /// Pairs of (option index, position): the position indexes
    /// `saved_args` for a `Single` option and `arg_ranges` for a
    /// `Multiple` option.
    pub option_args: Vec<(u16, u16)>,
    /// One entry per `Multiple` option that occurred: the contiguous
    /// sub-range of `saved_args` holding its values.
    pub arg_ranges: Vec<ArgRange>,
    /// How many times each option occurred, index-aligned with
    /// `Router::options`; counting saturates at `u8::MAX`.
    pub option_occurrences: Vec<u8>,
    /// Index of the selected segment.
    pub selected: u16,
    /// Where operands end and tokens after a `--` terminator begin.
    pub operands_end: u16,
    /// How many leading entries of `operands` were captured by
    /// wildcard path-parameter segments.
    pub path_params: u8,
}

impl Segment {
    /// How many option groups the packed word declares.
    pub open spec fn spec_group_count(self) -> u16 {
        self.opt_groups >> 12
    }

    /// Start index of this segment's groups in the shared table.
    pub open spec fn spec_group_start(self) -> u16 {
        self.opt_groups & 0x0fff
    }

    /// Unpacks the group count from the high 4 bits.
    pub fn group_count(&self) -> (r: u16)
        ensures
            r == self.spec_group_count(),
            r <= 15,
    {
        proof {
            let w = self.opt_groups;
            assert(w >> 12 <= 15) by (bit_vector);
        }
        self.opt_groups >> 12
    }

    /// Unpacks the group start index from the low 12 bits.
    pub fn group_start(&self) -> (r: u16)
        ensures
            r == self.spec_group_start(),
            r <= 0x0fff,
    {
        proof {
            let w = self.opt_groups;
            assert(w & 0x0fff <= 0x0fff) by (bit_vector);
        }
        self.opt_groups & 0x0fff
    }

    /// Packs a group count and a start index into one word.
    pub fn pack_groups(count: u16, start: u16) -> (r: u16)
        requires
            count <= 15,
            start <= 0x0fff,
        ensures
            r == (count << 12 | start),
            r >> 12 == count,
            r & 0x0fff == start,
    {
        proof {
            let c = count;
            let s = start;
            assert(c <= 15 && s <= 0x0fff ==> ((c << 12 | s) >> 12 == c && (c << 12 | s) & 0x0fff
                == s)) by (bit_vector);
        }
        count << 12 | start
    }
}

/// Character-for-character string equality.
pub fn str_eq(a: &str, b: &str) -> (r: bool)
    ensures
        r == (a@ == b@),
{
    let la = a.unicode_len();
    let lb = b.unicode_len();
    if la != lb {
        return false;
    }
    let mut i: usize = 0;
    while i < la
        invariant
            i <= la,
            la == a@.len(),
            la == b@.len(),
            forall|k: int| 0 <= k < i ==> a@[k] == b@[k],
        decreases la - i,
    {
        if a.get_char(i) != b.get_char(i) {
            return false;
        }
        i = i + 1;
    }
    proof {
        assert(a@ =~= b@);
    }
    true
}

/// A segment name beginning with ':' is a wildcard path parameter:
/// it matches any token.
pub open spec fn is_wildcard(name: Seq<char>) -> bool {
    name.len() > 0 && name[0] == ':'
}

impl Router {
    pub open spec fn node_count(&self) -> int {
        self.tree@.len() as int
    }

    /// Structural well-formedness of the routing table: every index
    /// stored anywhere in it stays inside the array it points into,
    /// and every subtree span stays inside the tree.
    pub open spec fn wf(&self) -> bool {
        &&& self.tree@.len() == self.segments@.len()
        &&& 1 <= self.tree@.len() <= u16::MAX
        &&& self.options@.len() <= u16::MAX
        &&& forall|i: int|
            0 <= i < self.tree@.len() ==> i + #[trigger] self.tree@[i].child_span + 1
                <= self.tree@.len()
        &&& forall|i: int|
            0 <= i < self.segments@.len() ==> #[trigger] self.segments@[i].name
                < self.names@.len()
        &&& forall|i: int|
            0 <= i < self.segments@.len() ==> (#[trigger] self.segments@[i]).spec_group_start()
                + self.segments@[i].spec_group_count() <= self.opt_groups@.len()
        &&& self.opt_group_rules@.len() == self.opt_groups@.len()
        &&& forall|g: int, k: int|
            0 <= g < self.opt_groups@.len() && 0 <= k < self.opt_groups@[g]@.len()
                ==> #[trigger] self.opt_groups@[g]@[k] < self.options@.len()
        &&& forall|o: int|
            0 <= o < self.options@.len() ==> #[trigger] self.options@[o].name < self.names@.len()
        &&& forall|m: int|
            0 <= m < self.short_option_mappers@.len() ==> #[trigger] self.short_option_mappers@[m].0
                < self.options@.len()
    }
}

/// First index in `entries` holding option `o`, if any.
pub open spec fn find_entry_from(entries: Seq<(u16, u16)>, o: int, j: int) -> Option<int>
    decreases entries.len() - j,
{
    if j < 0 || j >= entries.len() {
        None
    } else if entries[j].0 == o {
        Some(j)
    } else {
        find_entry_from(entries, o, j + 1)
    }
}

/// Index of the bookkeeping entry of option `o`, if it has one.
pub open spec fn find_entry(entries: Seq<(u16, u16)>, o: int) -> Option<int> {
    find_entry_from(entries, o, 0)
}

impl Context {
    /// First index of `saved_args` claimed by bookkeeping entry `j`.
    pub open spec fn claim_lo(&self, options: Seq<Opt>, j: int) -> int {
        let (o, pos) = self.option_args@[j];
        if options[o as int].kind is Multiple {
            self.arg_ranges@[pos as int].start as int
        } else {
            pos as int
        }
    }

    /// One past the last index of `saved_args` claimed by entry `j`.
    pub open spec fn claim_hi(&self, options: Seq<Opt>, j: int) -> int {
        let (o, pos) = self.option_args@[j];
        if options[o as int].kind is Multiple {
            self.arg_ranges@[pos as int].end as int
        } else {
            pos as int + 1
        }
    }

    /// Well-formedness of the option-value bookkeeping: every entry
    /// points into its backing array, each option has at most one
    /// entry, `Multiple` ranges are nonempty and lie inside
    /// `saved_args`, and no two entries' claimed index ranges
    /// overlap.
    pub open spec fn args_wf(&self, options: Seq<Opt>) -> bool {
        let oa = self.option_args@;
        &&& forall|j: int|
            0 <= j < oa.len() ==> {
                let (o, pos) = #[trigger] oa[j];
                &&& o < options.len()
                &&& !(options[o as int].kind is KeyOnly)
                &&& (options[o as int].kind is Multiple ==> pos < self.arg_ranges@.len())
                &&& (options[o as int].kind is Single ==> pos < self.saved_args@.len())
            }
        &&& forall|j1: int, j2: int|
            0 <= j1 < j2 < oa.len() ==> (#[trigger] oa[j1]).0 != (#[trigger] oa[j2]).0
        &&& forall|r: int|
            0 <= r < self.arg_ranges@.len() ==> {
                &&& (#[trigger] self.arg_ranges@[r]).start < self.arg_ranges@[r].end
                &&& self.arg_ranges@[r].end <= self.saved_args@.len()
            }
        &&& forall|j1: int, j2: int|
            0 <= j1 < oa.len() && 0 <= j2 < oa.len() && j1 != j2 ==> (#[trigger] self.claim_hi(
                options,
                j1,
            ) <= #[trigger] self.claim_lo(options, j2) || self.claim_hi(options, j2)
                <= self.claim_lo(options, j1))
    }

    /// The views of the stored option values, in buffer order.
    pub open spec fn saved_views(&self) -> Seq<Seq<char>> {
        Seq::new(self.saved_args@.len(), |i: int| self.saved_args@[i]@)
    }

    /// The values recorded for option `o`, in order: one value for a
    /// `Single` option, the contiguous range for a `Multiple` option,
    /// nothing when the option has no bookkeeping entry.
    pub open spec fn values_of(&self, options: Seq<Opt>, o: int) -> Seq<Seq<char>> {
        match find_entry(self.option_args@, o) {
            None => Seq::empty(),
            Some(j) => {
                let pos = self.option_args@[j].1 as int;
                if options[o].kind is Multiple {
                    self.saved_views().subrange(
                        self.arg_ranges@[pos].start as int,
                        self.arg_ranges@[pos].end as int,
                    )
                } else {
                    seq![self.saved_args@[pos]@]
                }
            },
        }
    }

    /// Bounds that the parsers establish on the positional fields.
    pub open spec fn positions_wf(&self) -> bool {
        &&& self.path_params <= self.operands_end <= self.operands@.len()
        &&& self.operands@.len() <= u16::MAX
    }

    /// The selected segment's operands: what lies between the leading
    /// path-parameter captures and the `--` terminator boundary.
    pub fn operands(&self) -> (r: &[String])
        requires
            self.positions_wf(),
        ensures
            r@ == self.operands@.subrange(self.path_params as int, self.operands_end as int),
    {
        vstd::slice::slice_subrange(
            self.operands.as_slice(),
            self.path_params as usize,
            self.operands_end as usize,
        )
    }

    /// The leading operands captured by wildcard path parameters.
    pub fn path_params(&self) -> (r: &[String])
        requires
            self.positions_wf(),
        ensures
            r@ == self.operands@.subrange(0, self.path_params as int),
    {
        vstd::slice::slice_subrange(self.operands.as_slice(), 0, self.path_params as usize)
    }

    /// The tokens that followed a `--` terminator, unparsed.
    pub fn terminated_args(&self) -> (r: &[String])
        requires
            self.positions_wf(),
        ensures
            r@ == self.operands@.subrange(self.operands_end as int, self.operands@.len() as int),
    {
        vstd::slice::slice_subrange(
            self.operands.as_slice(),
            self.operands_end as usize,
            self.operands.len(),
        )
    }
}

} // verus!
