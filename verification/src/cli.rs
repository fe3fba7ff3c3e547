//! The CLI token parser: walks the routing tree over a token
//! sequence, records option occurrences and values, collects operands,
//! and validates the selected segment's option groups.

use crate::{
    find_entry, find_entry_from, is_wildcard, str_eq, ArgRange, Context, Opt, OptArgKind, Router,
    RouteError, Segment,
};
use vstd::prelude::*;
use vstd::string::StrSliceExecFns;

verus! {

/// A `find_entry` hit names the first entry of its option.
pub proof fn lemma_find_entry_first(oa: Seq<(u16, u16)>, o: int, j: int)
    requires
        0 <= j < oa.len(),
        oa[j].0 == o,
        forall|k: int| 0 <= k < j ==> (#[trigger] oa[k]).0 != o,
    ensures
        find_entry(oa, o) == Some(j),
{
    lemma_find_entry_from_first(oa, o, 0, j);
}

proof fn lemma_find_entry_from_first(oa: Seq<(u16, u16)>, o: int, s: int, j: int)
    requires
        0 <= s <= j < oa.len(),
        oa[j].0 == o,
        forall|k: int| s <= k < j ==> (#[trigger] oa[k]).0 != o,
    ensures
        find_entry_from(oa, o, s) == Some(j),
    decreases j - s,
{
    if s < j {
        lemma_find_entry_from_first(oa, o, s + 1, j);
    }
}

/// With no entry for `o`, `find_entry` misses.
pub proof fn lemma_find_entry_none(oa: Seq<(u16, u16)>, o: int)
    requires
        forall|k: int| 0 <= k < oa.len() ==> (#[trigger] oa[k]).0 != o,
    ensures
        find_entry(oa, o) is None,
{
    lemma_find_entry_from_none(oa, o, 0);
}

proof fn lemma_find_entry_from_none(oa: Seq<(u16, u16)>, o: int, s: int)
    requires
        forall|k: int| 0 <= k < oa.len() ==> (#[trigger] oa[k]).0 != o,
        s >= 0,
    ensures
        find_entry_from(oa, o, s) is None,
    decreases oa.len() - s,
{
    if s < oa.len() {
        lemma_find_entry_from_none(oa, o, s + 1);
    }
}

/// What a `find_entry` result means.
pub proof fn lemma_find_entry_props(oa: Seq<(u16, u16)>, o: int)
    ensures
        match find_entry(oa, o) {
            Some(j) => 0 <= j < oa.len() && oa[j].0 == o && forall|k: int|
                0 <= k < j ==> (#[trigger] oa[k]).0 != o,
            None => forall|k: int| 0 <= k < oa.len() ==> (#[trigger] oa[k]).0 != o,
        },
{
    lemma_find_entry_from_props(oa, o, 0);
}

proof fn lemma_find_entry_from_props(oa: Seq<(u16, u16)>, o: int, s: int)
    requires
        0 <= s,
    ensures
        match find_entry_from(oa, o, s) {
            Some(j) => s <= j < oa.len() && oa[j].0 == o && forall|k: int|
                s <= k < j ==> (#[trigger] oa[k]).0 != o,
            None => forall|k: int| s <= k < oa.len() ==> (#[trigger] oa[k]).0 != o,
        },
    decreases oa.len() - s,
{
    if s < oa.len() && oa[s].0 != o {
        lemma_find_entry_from_props(oa, o, s + 1);
    }
}

/// `find_entry` only looks at the option fields, not the positions.
pub proof fn lemma_find_entry_same_keys(a: Seq<(u16, u16)>, b: Seq<(u16, u16)>, o: int)
    requires
        a.len() == b.len(),
        forall|k: int| 0 <= k < a.len() ==> (#[trigger] a[k]).0 == (#[trigger] b[k]).0,
    ensures
        find_entry(a, o) == find_entry(b, o),
{
    lemma_find_entry_from_same_keys(a, b, o, 0);
}

proof fn lemma_find_entry_from_same_keys(a: Seq<(u16, u16)>, b: Seq<(u16, u16)>, o: int, s: int)
    requires
        0 <= s,
        a.len() == b.len(),
        forall|k: int| 0 <= k < a.len() ==> (#[trigger] a[k]).0 == (#[trigger] b[k]).0,
    ensures
        find_entry_from(a, o, s) == find_entry_from(b, o, s),
    decreases a.len() - s,
{
    if s < a.len() {
        lemma_find_entry_from_same_keys(a, b, o, s + 1);
    }
}


/// Strict lexicographic order on character sequences, by code point.
#[verifier::opaque]
pub open spec fn lex_lt(a: Seq<char>, b: Seq<char>) -> bool
    decreases a.len(),
{
    if b.len() == 0 {
        false
    } else if a.len() == 0 {
        true
    } else if a[0] != b[0] {
        (a[0] as int) < (b[0] as int)
    } else {
        lex_lt(a.skip(1), b.skip(1))
    }
}

/// The order is irreflexive.
pub proof fn lemma_lex_irrefl(a: Seq<char>)
    ensures
        !lex_lt(a, a),
    decreases a.len(),
{
    reveal(lex_lt);
    if a.len() > 0 {
        lemma_lex_irrefl(a.skip(1));
    }
}

/// The order is transitive.
pub proof fn lemma_lex_trans(a: Seq<char>, b: Seq<char>, c: Seq<char>)
    requires
        lex_lt(a, b),
        lex_lt(b, c),
    ensures
        lex_lt(a, c),
    decreases a.len(),
{
    reveal(lex_lt);
    if a.len() > 0 && b.len() > 0 && c.len() > 0 && a[0] == b[0] && b[0] == c[0] {
        lemma_lex_trans(a.skip(1), b.skip(1), c.skip(1));
    }
}

/// Sequences agreeing on a prefix compare by what follows it.
proof fn lemma_lex_at_diff(a: Seq<char>, b: Seq<char>, i: int)
    requires
        0 <= i <= a.len(),
        i <= b.len(),
        forall|k: int| 0 <= k < i ==> a[k] == b[k],
    ensures
        i < a.len() && i < b.len() && a[i] != b[i] ==> lex_lt(a, b) == ((a[i] as int) < (
        b[i] as int)),
        i == a.len() && i < b.len() ==> lex_lt(a, b),
        i == b.len() ==> !lex_lt(a, b),
    decreases i,
{
    reveal(lex_lt);
    if i > 0 {
        lemma_lex_at_diff(a.skip(1), b.skip(1), i - 1);
        assert(forall|k: int| 0 <= k < i - 1 ==> a.skip(1)[k] == b.skip(1)[k]);
        if i < a.len() && i < b.len() {
            assert(a.skip(1)[i - 1] == a[i]);
            assert(b.skip(1)[i - 1] == b[i]);
        }
    }
}

/// Three-way lexicographic string comparison: negative when `a` comes
/// first, zero on equality, positive when `b` comes first.
pub fn str_lex_cmp(a: &str, b: &str) -> (r: i8)
    ensures
        r < 0 ==> lex_lt(a@, b@),
        r == 0 ==> a@ == b@,
        r > 0 ==> lex_lt(b@, a@),
{
    let la = a.unicode_len();
    let lb = b.unicode_len();
    let mut i: usize = 0;
    while i < la && i < lb
        invariant
            la == a@.len(),
            lb == b@.len(),
            i <= la,
            i <= lb,
            forall|k: int| 0 <= k < i ==> a@[k] == b@[k],
        decreases la - i,
    {
        let ca = a.get_char(i);
        let cb = b.get_char(i);
        if ca != cb {
            proof {
                lemma_lex_at_diff(a@, b@, i as int);
                lemma_lex_at_diff(b@, a@, i as int);
            }
            if ca < cb {
                return -1;
            }
            return 1;
        }
        i = i + 1;
    }
    proof {
        lemma_lex_at_diff(a@, b@, i as int);
        lemma_lex_at_diff(b@, a@, i as int);
    }
    if la < lb {
        -1
    } else if la > lb {
        1
    } else {
        proof {
            assert(a@ =~= b@);
        }
        0
    }
}

/// What a `spec_find_option` result means.
pub proof fn lemma_spec_find_option_props(router: Router, name: Seq<char>, s: int)
    requires
        0 <= s,
    ensures
        match spec_find_option(router, name, s) {
            Some(j) => s <= j < router.options@.len() && router.names@[router.options@[j].name
                as int]@ == name && forall|k: int|
                s <= k < j ==> router.names@[(#[trigger] router.options@[k]).name as int]@ != name,
            None => forall|k: int|
                s <= k < router.options@.len() ==> router.names@[(
                #[trigger] router.options@[k]).name as int]@ != name,
        },
    decreases router.options@.len() - s,
{
    if s < router.options@.len() && router.names@[router.options@[s].name as int]@ != name {
        lemma_spec_find_option_props(router, name, s + 1);
    }
}

/// The option table is sorted strictly by resolved name, so a lookup
/// can binary-search it.
pub open spec fn options_sorted(router: Router) -> bool {
    forall|i: int, j: int|
        0 <= i < j < router.options@.len() ==> lex_lt(
            router.names@[(#[trigger] router.options@[i]).name as int]@,
            router.names@[(#[trigger] router.options@[j]).name as int]@,
        )
}

/// First option whose resolved name equals `name`, if any.
pub open spec fn spec_find_option(router: Router, name: Seq<char>, s: int) -> Option<int>
    decreases router.options@.len() - s,
{
    if s < 0 || s >= router.options@.len() {
        None
    } else if router.names@[router.options@[s].name as int]@ == name {
        Some(s)
    } else {
        spec_find_option(router, name, s + 1)
    }
}


/// Looks an option up by its resolved name with a linear scan: the
/// query-parameter path of the URI parser uses this, and it needs no
/// order on the option table.
pub(crate) fn scan_option(router: &Router, name: &str) -> (r: Option<usize>)
    requires
        router.wf(),
    ensures
        match r {
            Some(i) => {
                &&& i < router.options@.len()
                &&& router.names@[router.options@[i as int].name as int]@ == name@
                &&& Some(i as int) == spec_find_option(*router, name@, 0)
            },
            None => spec_find_option(*router, name@, 0) is None,
        },
{
    let mut i: usize = 0;
    while i < router.options.len()
        invariant
            router.wf(),
            i <= router.options@.len(),
            spec_find_option(*router, name@, 0) == spec_find_option(*router, name@, i as int),
        decreases router.options@.len() - i,
    {
        let o = router.options[i].name as usize;
        if str_eq(router.names[o], name) {
            return Some(i);
        }
        i = i + 1;
    }
    None
}

/// Looks an option up by its resolved name, binary-searching the
/// sorted option table.
pub fn find_option(router: &Router, name: &str) -> (r: Option<usize>)
    requires
        router.wf(),
        options_sorted(*router),
    ensures
        match r {
            Some(i) => {
                &&& i < router.options@.len()
                &&& router.names@[router.options@[i as int].name as int]@ == name@
                &&& Some(i as int) == spec_find_option(*router, name@, 0)
            },
            None => spec_find_option(*router, name@, 0) is None,
        },
{
    let ghost target = name@;
    let mut lo: usize = 0;
    let mut hi: usize = router.options.len();
    while lo < hi
        invariant
            router.wf(),
            options_sorted(*router),
            target == name@,
            lo <= hi <= router.options@.len(),
            forall|k: int|
                0 <= k < lo ==> lex_lt(
                    router.names@[(#[trigger] router.options@[k]).name as int]@,
                    target,
                ),
            forall|k: int|
                hi <= k < router.options@.len() ==> lex_lt(
                    target,
                    router.names@[(#[trigger] router.options@[k]).name as int]@,
                ),
        decreases hi - lo,
    {
        let mid = lo + (hi - lo) / 2;
        let nm = router.names[router.options[mid].name as usize];
        let cmp = str_lex_cmp(nm, name);
        if cmp == 0 {
            proof {
                assert forall|k: int|
                    0 <= k < router.options@.len() && k != mid implies router.names@[(
                #[trigger] router.options@[k]).name as int]@ != target by {
                    let nk = router.names@[router.options@[k].name as int]@;
                    if nk == target {
                        if k < mid {
                            lemma_lex_irrefl(target);
                        } else {
                            lemma_lex_irrefl(target);
                        }
                    }
                }
                lemma_spec_find_option_props(*router, target, 0);
                if spec_find_option(*router, target, 0) is None {
                    assert(false);
                }
            }
            return Some(mid);
        } else if cmp < 0 {
            proof {
                assert forall|k: int| 0 <= k < mid + 1 implies lex_lt(
                    router.names@[(#[trigger] router.options@[k]).name as int]@,
                    target,
                ) by {
                    if k < mid {
                        lemma_lex_trans(
                            router.names@[router.options@[k].name as int]@,
                            router.names@[router.options@[mid as int].name as int]@,
                            target,
                        );
                    }
                }
            }
            lo = mid + 1;
        } else {
            proof {
                assert forall|k: int| mid <= k < router.options@.len() implies lex_lt(
                    target,
                    router.names@[(#[trigger] router.options@[k]).name as int]@,
                ) by {
                    if k > mid {
                        lemma_lex_trans(
                            target,
                            router.names@[router.options@[mid as int].name as int]@,
                            router.names@[router.options@[k].name as int]@,
                        );
                    }
                }
            }
            hi = mid;
        }
    }
    proof {
        assert forall|k: int|
            0 <= k < router.options@.len() implies router.names@[(
        #[trigger] router.options@[k]).name as int]@ != target by {
            if k < lo {
                lemma_lex_irrefl(router.names@[router.options@[k].name as int]@);
            } else {
                lemma_lex_irrefl(router.names@[router.options@[k].name as int]@);
            }
        }
        lemma_spec_find_option_props(*router, target, 0);
        if spec_find_option(*router, target, 0) is Some {
            assert(false);
        }
    }
    None
}

/// First short-option mapper carrying alias `ch`, if any.
pub open spec fn spec_find_short(router: Router, ch: char, s: int) -> Option<int>
    decreases router.short_option_mappers@.len() - s,
{
    if s < 0 || s >= router.short_option_mappers@.len() {
        None
    } else if router.short_option_mappers@[s].1 == ch {
        Some(s)
    } else {
        spec_find_short(router, ch, s + 1)
    }
}


/// Adjacent order extends to all pairs.
proof fn lemma_lex_chain(router: Router, i: int, j: int)
    requires
        forall|k: int|
            #![trigger router.options@[k], router.options@[k + 1]]
            0 <= k < router.options@.len() - 1 ==> lex_lt(
                router.names@[router.options@[k].name as int]@,
                router.names@[router.options@[k + 1].name as int]@,
            ),
        0 <= i < j < router.options@.len(),
    ensures
        lex_lt(
            router.names@[router.options@[i].name as int]@,
            router.names@[router.options@[j].name as int]@,
        ),
    decreases j - i,
{
    let kk = j - 1;
    assert(router.options@[kk + 1] == router.options@[j]);
    if j > i + 1 {
        lemma_lex_chain(router, i, j - 1);
        lemma_lex_trans(
            router.names@[router.options@[i].name as int]@,
            router.names@[router.options@[kk].name as int]@,
            router.names@[router.options@[kk + 1].name as int]@,
        );
    }
}

impl Router {
    /// Checks every structural invariant of the routing table at run
    /// time: index bounds everywhere, subtree spans inside the tree,
    /// and the option table sorted by name.  `true` exactly when the
    /// table is well-formed, which is what the parsers require.
    pub fn wf_check(&self) -> (r: bool)
        ensures
            r <==> (self.wf() && options_sorted(*self)),
    {
        if self.tree.len() != self.segments.len() {
            return false;
        }
        if self.tree.len() == 0 || self.tree.len() > u16::MAX as usize {
            return false;
        }
        if self.options.len() > u16::MAX as usize {
            return false;
        }
        if self.opt_group_rules.len() != self.opt_groups.len() {
            return false;
        }
        let n = self.tree.len();
        let mut i: usize = 0;
        while i < n
            invariant
                n == self.tree@.len(),
                n == self.segments@.len(),
                n <= u16::MAX,
                i <= n,
                forall|k: int|
                    0 <= k < i ==> k + (#[trigger] self.tree@[k]).child_span + 1
                        <= self.tree@.len(),
                forall|k: int|
                    0 <= k < i ==> (#[trigger] self.segments@[k]).name < self.names@.len(),
                forall|k: int|
                    0 <= k < i ==> (#[trigger] self.segments@[k]).spec_group_start()
                        + self.segments@[k].spec_group_count() <= self.opt_groups@.len(),
            decreases n - i,
        {
            if i + self.tree[i].child_span as usize + 1 > n {
                return false;
            }
            if self.segments[i].name as usize >= self.names.len() {
                return false;
            }
            let seg = self.segments[i];
            if seg.group_start() as usize + seg.group_count() as usize > self.opt_groups.len() {
                return false;
            }
            i = i + 1;
        }
        let mut g: usize = 0;
        while g < self.opt_groups.len()
            invariant
                g <= self.opt_groups@.len(),
                forall|g2: int, k: int|
                    0 <= g2 < g && 0 <= k < self.opt_groups@[g2]@.len()
                        ==> #[trigger] self.opt_groups@[g2]@[k] < self.options@.len(),
            decreases self.opt_groups@.len() - g,
        {
            let grp = &self.opt_groups[g];
            let mut k: usize = 0;
            while k < grp.len()
                invariant
                    g < self.opt_groups@.len(),
                    grp@ == self.opt_groups@[g as int]@,
                    k <= grp@.len(),
                    forall|k2: int| 0 <= k2 < k ==> #[trigger] grp@[k2] < self.options@.len(),
                decreases grp@.len() - k,
            {
                if grp[k] as usize >= self.options.len() {
                    return false;
                }
                k = k + 1;
            }
            g = g + 1;
        }
        let mut o: usize = 0;
        while o < self.options.len()
            invariant
                o <= self.options@.len(),
                forall|k: int|
                    0 <= k < o ==> (#[trigger] self.options@[k]).name < self.names@.len(),
            decreases self.options@.len() - o,
        {
            if self.options[o].name as usize >= self.names.len() {
                return false;
            }
            o = o + 1;
        }
        let mut m: usize = 0;
        while m < self.short_option_mappers.len()
            invariant
                m <= self.short_option_mappers@.len(),
                forall|k: int|
                    0 <= k < m ==> (#[trigger] self.short_option_mappers@[k]).0
                        < self.options@.len(),
            decreases self.short_option_mappers@.len() - m,
        {
            if self.short_option_mappers[m].0 as usize >= self.options.len() {
                return false;
            }
            m = m + 1;
        }
        if !self.options_sorted_check() {
            return false;
        }
        true
    }

    /// Checks that the option table is sorted strictly by name.
    fn options_sorted_check(&self) -> (r: bool)
        requires
            self.options@.len() <= u16::MAX,
            forall|k: int|
                0 <= k < self.options@.len() ==> (#[trigger] self.options@[k]).name
                    < self.names@.len(),
        ensures
            r <==> options_sorted(*self),
    {
        let mut s: usize = 0;
        while s + 1 < self.options.len()
            invariant
                s <= self.options@.len() <= u16::MAX,
                forall|k: int|
                    0 <= k < self.options@.len() ==> (#[trigger] self.options@[k]).name
                        < self.names@.len(),
                forall|k: int|
                    #![trigger self.options@[k], self.options@[k + 1]]
                    0 <= k < s && k + 1 < self.options@.len() ==> lex_lt(
                        self.names@[self.options@[k].name as int]@,
                        self.names@[self.options@[k + 1].name as int]@,
                    ),
            decreases self.options@.len() - s,
        {
            let na = self.names[self.options[s].name as usize];
            let nb = self.names[self.options[s + 1].name as usize];
            if str_lex_cmp(na, nb) >= 0 {
                proof {
                    lemma_lex_irrefl(na@);
                    if lex_lt(na@, nb@) && lex_lt(nb@, na@) {
                        lemma_lex_trans(na@, nb@, na@);
                    }
                    assert(!options_sorted(*self)) by {
                        if options_sorted(*self) {
                            assert(lex_lt(
                                self.names@[self.options@[s as int].name as int]@,
                                self.names@[self.options@[s as int + 1].name as int]@,
                            ));
                        }
                    }
                }
                return false;
            }
            s = s + 1;
        }
        proof {
            assert forall|i2: int, j2: int|
                0 <= i2 < j2 < self.options@.len() implies lex_lt(
                self.names@[(#[trigger] self.options@[i2]).name as int]@,
                self.names@[(#[trigger] self.options@[j2]).name as int]@,
            ) by {
                lemma_lex_chain(*self, i2, j2);
            }
        }
        true
    }
}

/// The fields of a `Context` that recording a value never touches.
pub open spec fn non_value_fields_unchanged(a: Context, b: Context) -> bool {
    &&& b.option_occurrences == a.option_occurrences
    &&& b.operands == a.operands
    &&& b.selected == a.selected
    &&& b.operands_end == a.operands_end
    &&& b.path_params == a.path_params
}

/// What one bookkeeping entry becomes when a value is inserted into
/// `saved_args` at position `at`: a `Single` slot at or after `at`
/// moves up by one.
pub open spec fn shifted_entry(oa: Seq<(u16, u16)>, options: Seq<Opt>, at: int, k: int) -> (
    u16,
    u16,
) {
    let (o, p) = oa[k];
    if options[o as int].kind is Single && p >= at {
        (o, (p + 1) as u16)
    } else {
        (o, p)
    }
}

/// What one stored range becomes under the same insertion: a range
/// starting at or after `at` moves up by one.
pub open spec fn shifted_range(rngs: Seq<ArgRange>, at: int, p: int) -> ArgRange {
    let r = rngs[p];
    if r.start >= at {
        ArgRange { start: (r.start + 1) as u16, end: (r.end + 1) as u16 }
    } else {
        r
    }
}

/// The value-recording rule as a function: what the bookkeeping
/// triple (entries, ranges, stored value views) becomes when `v` is
/// recorded for option `o`.  A `Single` option's slot is overwritten
/// in place; a `Multiple` option's value is appended at its range's
/// end, shifting every recorded position and range at or after the
/// insertion point up by one; an option without an entry opens one at
/// the buffer tail.
pub open spec fn spec_record(
    options: Seq<Opt>,
    oa: Seq<(u16, u16)>,
    rngs: Seq<ArgRange>,
    saved: Seq<Seq<char>>,
    o: int,
    v: Seq<char>,
) -> (Seq<(u16, u16)>, Seq<ArgRange>, Seq<Seq<char>>) {
    match find_entry(oa, o) {
        None => {
            if options[o].kind is Multiple {
                (
                    oa.push((o as u16, rngs.len() as u16)),
                    rngs.push(
                        ArgRange { start: saved.len() as u16, end: (saved.len() + 1) as u16 },
                    ),
                    saved.push(v),
                )
            } else {
                (oa.push((o as u16, saved.len() as u16)), rngs, saved.push(v))
            }
        },
        Some(j) => {
            let pos = oa[j].1 as int;
            if options[o].kind is Multiple {
                let rg = rngs[pos];
                if rg.end == saved.len() {
                    (
                        oa,
                        rngs.update(pos, ArgRange { start: rg.start, end: (rg.end + 1) as u16 }),
                        saved.push(v),
                    )
                } else {
                    let at = rg.end as int;
                    (
                        Seq::new(oa.len(), |k: int| shifted_entry(oa, options, at, k)),
                        Seq::new(rngs.len(), |p: int| shifted_range(rngs, at, p)).update(
                            pos,
                            ArgRange { start: rg.start, end: (rg.end + 1) as u16 },
                        ),
                        saved.insert(at, v),
                    )
                }
            } else {
                (oa, rngs, saved.update(pos, v))
            }
        },
    }
}

/// Records one value for the option at `index`, following the
/// value-recording rule: a `Single` option's previous value is
/// overwritten in place; a `Multiple` option's new value lands
/// contiguously after its previous values, shifting every other
/// option's recorded positions and ranges at or after the insertion
/// point up by one.  `None` for the value is the "missing
/// option-argument" input error, and leaves the context unchanged.
pub fn add_found_option(
    index: usize,
    options: &Vec<Opt>,
    c: &mut Context,
    next_arg: Option<String>,
) -> (r: Result<(), RouteError>)
    requires
        old(c).args_wf(options@),
        index < options@.len(),
        options@.len() <= u16::MAX,
        !(options@[index as int].kind is KeyOnly),
        old(c).saved_args@.len() + 1 <= u16::MAX,
        old(c).arg_ranges@.len() + 1 <= u16::MAX,
    ensures
        final(c).args_wf(options@),
        non_value_fields_unchanged(*old(c), *final(c)),
        final(c).saved_args@.len() <= old(c).saved_args@.len() + 1,
        final(c).arg_ranges@.len() <= old(c).arg_ranges@.len() + 1,
        match r {
            Result::Err(e) => {
                &&& e is MissingOptionArgument
                &&& next_arg is None
                &&& *final(c) == *old(c)
            },
            Result::Ok(_) => {
                &&& next_arg is Some
                &&& (options@[index as int].kind is Single ==> final(c).values_of(
                    options@,
                    index as int,
                ) == seq![next_arg.unwrap()@])
                &&& (options@[index as int].kind is Multiple ==> final(c).values_of(
                    options@,
                    index as int,
                ) == old(c).values_of(options@, index as int).push(next_arg.unwrap()@))
                &&& (forall|o: int|
                    0 <= o < options@.len() && o != index ==> final(c).values_of(options@, o)
                        == old(c).values_of(options@, o))
                &&& (forall|o: int|
                    #![auto]
                    find_entry(final(c).option_args@, o) is Some <==> (find_entry(
                        old(c).option_args@,
                        o,
                    ) is Some || o == index))
                &&& (final(c).option_args@, final(c).arg_ranges@, final(c).saved_views())
                    == spec_record(
                    options@,
                    old(c).option_args@,
                    old(c).arg_ranges@,
                    old(c).saved_views(),
                    index as int,
                    next_arg.unwrap()@,
                )
            },
        },
{
    let ghost sr = spec_record(
        options@,
        old(c).option_args@,
        old(c).arg_ranges@,
        old(c).saved_views(),
        index as int,
        match next_arg {
            Option::Some(ref vv) => vv@,
            Option::None => Seq::empty(),
        },
    );
    let val = match next_arg {
        Option::None => {
            return Result::Err(RouteError::MissingOptionArgument);
        },
        Option::Some(v) => v,
    };
    let ghost c1 = *c;
    let ghost v = val@;

    let n = c.option_args.len();
    let mut j: usize = 0;
    let mut have: bool = false;
    while j < n && !have
        invariant
            *c == c1,
            n == c1.option_args@.len(),
            j <= n,
            index < options@.len() <= u16::MAX,
            forall|k: int| 0 <= k < j ==> (#[trigger] c1.option_args@[k]).0 as int != index as int,
            have ==> j < n && c1.option_args@[j as int].0 as int == index as int,
        decreases n - j + if have {
            0int
        } else {
            1int
        },
    {
        if c.option_args[j].0 as usize == index {
            have = true;
        } else {
            j = j + 1;
        }
    }
    let found = j;
    proof {
        if have {
            lemma_find_entry_first(c1.option_args@, index as int, found as int);
        } else {
            lemma_find_entry_none(c1.option_args@, index as int);
        }
    }

    match options[index].kind {
        OptArgKind::Multiple => {
            if have {
                let pos = c.option_args[found].1 as usize;
                let r0 = c.arg_ranges[pos];
                let ghost flo = r0.start as int;
                let ghost fhi = r0.end as int;
                if r0.end as usize == c.saved_args.len() {
                    // The range ends at the buffer tail: append.
                    c.saved_args.push(val);
                    c.arg_ranges[pos] = ArgRange { start: r0.start, end: r0.end + 1 };
                    proof {
                        let c2 = *c;
                        assert(c2.saved_views() =~= c1.saved_views().push(v));
                        lemma_multiple_pos_unique(c1, options@, found as int);
                        assert forall|o: int|
                            0 <= o < options@.len() && o != index implies c2.values_of(options@, o)
                            == c1.values_of(options@, o) by {
                            lemma_find_entry_props(c1.option_args@, o);
                            match find_entry(c1.option_args@, o) {
                                Option::None => {},
                                Option::Some(k) => {
                                    lemma_claim_in_bounds(c1, options@, k);
                                    assert(c1.claim_hi(options@, k) <= c1.claim_lo(
                                        options@,
                                        found as int,
                                    ) || c1.claim_hi(options@, found as int) <= c1.claim_lo(
                                        options@,
                                        k,
                                    ));
                                    if options@[o].kind is Multiple {
                                        let q = c1.option_args@[k].1 as int;
                                        assert(q != pos);
                                        assert(c2.values_of(options@, o) =~= c1.values_of(
                                            options@,
                                            o,
                                        ));
                                    } else {
                                        assert(c2.values_of(options@, o) =~= c1.values_of(
                                            options@,
                                            o,
                                        ));
                                    }
                                },
                            }
                        }
                        assert(c2.values_of(options@, index as int) =~= c1.values_of(
                            options@,
                            index as int,
                        ).push(v));
                        assert forall|j1: int, j2: int|
                            0 <= j1 < c2.option_args@.len() && 0 <= j2 < c2.option_args@.len()
                                && j1 != j2 implies (c2.claim_hi(options@, j1) <= c2.claim_lo(
                            options@,
                            j2,
                        ) || c2.claim_hi(options@, j2) <= c2.claim_lo(options@, j1)) by {
                            assert(c1.claim_hi(options@, j1) <= c1.claim_lo(options@, j2)
                                || c1.claim_hi(options@, j2) <= c1.claim_lo(options@, j1));
                            lemma_claim_in_bounds(c1, options@, j1);
                            lemma_claim_in_bounds(c1, options@, j2);
                        }
                        assert(c2.args_wf(options@));
                        assert(sr.0 =~= c2.option_args@);
                        assert(sr.1 =~= c2.arg_ranges@);
                        assert(sr.2 =~= c2.saved_views());
                    }
                } else {
                    // Insert at the end of the range, then shift what
                    // lies at or after the insertion point.
                    let at = r0.end as usize;
                    c.saved_args.insert(at, val);
                    let ghost cmid = *c;
                    let mut k: usize = 0;
                    while k < c.option_args.len()
                        invariant
                            c.saved_args == cmid.saved_args,
                            c.arg_ranges == cmid.arg_ranges,
                            c.option_occurrences == cmid.option_occurrences,
                            c.operands == cmid.operands,
                            c.selected == cmid.selected,
                            c.operands_end == cmid.operands_end,
                            c.path_params == cmid.path_params,
                            c.option_args@.len() == c1.option_args@.len(),
                            k <= c1.option_args@.len(),
                            c1.args_wf(options@),
                            at < c1.saved_args@.len(),
                            c1.saved_args@.len() + 1 <= u16::MAX,
                            options@.len() <= u16::MAX,
                            forall|i: int|
                                0 <= i < k ==> c.option_args@[i] == shifted_entry(
                                    c1.option_args@,
                                    options@,
                                    at as int,
                                    i,
                                ),
                            forall|i: int|
                                k <= i < c1.option_args@.len() ==> c.option_args@[i]
                                    == c1.option_args@[i],
                        decreases c1.option_args@.len() - k,
                    {
                        proof {
                            assert(c.option_args@[k as int] == c1.option_args@[k as int]);
                            assert(c1.option_args@[k as int].0 < options@.len());
                        }
                        let (o, p) = c.option_args[k];
                        let single = match options[o as usize].kind {
                            OptArgKind::Single => true,
                            _ => false,
                        };
                        if single && p as usize >= at {
                            c.option_args[k] = (o, p + 1);
                        }
                        k = k + 1;
                    }
                    let mut q: usize = 0;
                    let ghost cmid2 = *c;
                    while q < c.arg_ranges.len()
                        invariant
                            c.saved_args == cmid2.saved_args,
                            c.option_args == cmid2.option_args,
                            c.option_occurrences == cmid2.option_occurrences,
                            c.operands == cmid2.operands,
                            c.selected == cmid2.selected,
                            c.operands_end == cmid2.operands_end,
                            c.path_params == cmid2.path_params,
                            c.arg_ranges@.len() == c1.arg_ranges@.len(),
                            q <= c1.arg_ranges@.len(),
                            c1.args_wf(options@),
                            at < c1.saved_args@.len(),
                            c1.saved_args@.len() + 1 <= u16::MAX,
                            forall|i: int|
                                0 <= i < q ==> c.arg_ranges@[i] == shifted_range(c1.arg_ranges@, at as int, i),
                            forall|i: int|
                                q <= i < c1.arg_ranges@.len() ==> c.arg_ranges@[i]
                                    == c1.arg_ranges@[i],
                        decreases c1.arg_ranges@.len() - q,
                    {
                        let r = c.arg_ranges[q];
                        if r.start as usize >= at {
                            proof {
                                assert(c1.arg_ranges@[q as int].end < u16::MAX);
                            }
                            c.arg_ranges[q] = ArgRange { start: r.start + 1, end: r.end + 1 };
                        }
                        q = q + 1;
                    }
                    proof {
                        assert(c.arg_ranges@[pos as int] == shifted_range(c1.arg_ranges@, at as int, pos as int));
                        assert(c.arg_ranges@[pos as int] == c1.arg_ranges@[pos as int]);
                    }
                    let r1 = c.arg_ranges[pos];
                    c.arg_ranges[pos] = ArgRange { start: r1.start, end: r1.end + 1 };
                    proof {
                        let c2 = *c;
                        let ati = at as int;
                        c1.saved_args@.insert_ensures(ati, val);
                        lemma_multiple_pos_unique(c1, options@, found as int);
                        assert(c2.saved_views() =~= c1.saved_views().insert(ati, v)) by {
                            c1.saved_views().insert_ensures(ati, v);
                        }
                        assert(c2.arg_ranges@[pos as int] == ArgRange {
                            start: flo as u16,
                            end: (fhi + 1) as u16,
                        });
                        lemma_insert_case_ensures(
                            c1,
                            c2,
                            options@,
                            index as int,
                            found as int,
                            ati,
                            v,
                        );
                        assert(sr.0 =~= c2.option_args@);
                        assert(sr.1 =~= c2.arg_ranges@);
                        assert(sr.2 =~= c2.saved_views());
                    }
                }
            } else {
                // First occurrence of a `Multiple` option: open a new
                // range at the buffer tail.
                let rpos = c.arg_ranges.len() as u16;
                let spos = c.saved_args.len() as u16;
                c.option_args.push((index as u16, rpos));
                c.arg_ranges.push(ArgRange { start: spos, end: spos + 1 });
                c.saved_args.push(val);
                proof {
                    let c2 = *c;
                    assert(c2.saved_views() =~= c1.saved_views().push(v));
                    lemma_new_entry_ensures(c1, c2, options@, index as int, v);
                    assert(sr.0 =~= c2.option_args@);
                    assert(sr.1 =~= c2.arg_ranges@);
                    assert(sr.2 =~= c2.saved_views());
                }
            }
        },
        _ => {
            if have {
                // A later `Single` occurrence overwrites in place.
                proof {
                    assert(options@[index as int].kind is Single);
                    assert(c1.option_args@[found as int] == (c1.option_args@[found as int].0,
                    c1.option_args@[found as int].1));
                }
                let pos = c.option_args[found].1 as usize;
                c.saved_args[pos] = val;
                proof {
                    let c2 = *c;
                    let posi = pos as int;
                    assert(c2.saved_views() =~= c1.saved_views().update(posi, v));
                    assert forall|o: int|
                        0 <= o < options@.len() && o != index implies c2.values_of(options@, o)
                        == c1.values_of(options@, o) by {
                        lemma_find_entry_props(c1.option_args@, o);
                        match find_entry(c1.option_args@, o) {
                            Option::None => {},
                            Option::Some(k) => {
                                assert(c1.claim_hi(options@, k) <= c1.claim_lo(
                                    options@,
                                    found as int,
                                ) || c1.claim_hi(options@, found as int) <= c1.claim_lo(
                                    options@,
                                    k,
                                ));
                                assert(c2.values_of(options@, o) =~= c1.values_of(options@, o));
                            },
                        }
                    }
                    assert(c2.values_of(options@, index as int) =~= seq![v]);
                    assert forall|j1: int, j2: int|
                        0 <= j1 < c2.option_args@.len() && 0 <= j2 < c2.option_args@.len() && j1
                            != j2 implies (c2.claim_hi(options@, j1) <= c2.claim_lo(options@, j2)
                        || c2.claim_hi(options@, j2) <= c2.claim_lo(options@, j1)) by {
                        assert(c1.claim_hi(options@, j1) <= c1.claim_lo(options@, j2)
                            || c1.claim_hi(options@, j2) <= c1.claim_lo(options@, j1));
                    }
                    assert(c2.args_wf(options@));
                    assert(sr.0 =~= c2.option_args@);
                    assert(sr.1 =~= c2.arg_ranges@);
                    assert(sr.2 =~= c2.saved_views());
                }
            } else {
                // First occurrence of a `Single` option.
                let spos = c.saved_args.len() as u16;
                c.option_args.push((index as u16, spos));
                c.saved_args.push(val);
                proof {
                    let c2 = *c;
                    assert(c2.saved_views() =~= c1.saved_views().push(v));
                    lemma_new_entry_ensures(c1, c2, options@, index as int, v);
                    assert(sr.0 =~= c2.option_args@);
                    assert(sr.1 =~= c2.arg_ranges@);
                    assert(sr.2 =~= c2.saved_views());
                }
            }
        },
    }
    Result::Ok(())
}

/// A bookkeeping entry's claimed indices lie inside `saved_args`.
proof fn lemma_claim_in_bounds(c: Context, options: Seq<Opt>, j: int)
    requires
        c.args_wf(options),
        0 <= j < c.option_args@.len(),
    ensures
        0 <= c.claim_lo(options, j),
        c.claim_lo(options, j) < c.claim_hi(options, j),
        c.claim_hi(options, j) <= c.saved_args@.len(),
{
    assert(c.option_args@[j] == (c.option_args@[j].0, c.option_args@[j].1));
}

/// Two `Multiple` entries never share a stored range.
proof fn lemma_multiple_pos_unique(c: Context, options: Seq<Opt>, j: int)
    requires
        c.args_wf(options),
        0 <= j < c.option_args@.len(),
        options[c.option_args@[j].0 as int].kind is Multiple,
    ensures
        forall|k: int|
            0 <= k < c.option_args@.len() && k != j && options[(
            #[trigger] c.option_args@[k]).0 as int].kind is Multiple ==> c.option_args@[k].1
                != c.option_args@[j].1,
{
    assert forall|k: int|
        0 <= k < c.option_args@.len() && k != j && options[(
        #[trigger] c.option_args@[k]).0 as int].kind is Multiple implies c.option_args@[k].1
        != c.option_args@[j].1 by {
        if c.option_args@[k].1 == c.option_args@[j].1 {
            lemma_claim_in_bounds(c, options, j);
            lemma_claim_in_bounds(c, options, k);
            assert(c.claim_hi(options, j) <= c.claim_lo(options, k) || c.claim_hi(options, k)
                <= c.claim_lo(options, j));
        }
    }
}

/// Pushing a fresh entry (and, for `Multiple`, a fresh tail range and
/// value) keeps the bookkeeping well-formed and records exactly one
/// new value for the new option.
proof fn lemma_new_entry_ensures(c1: Context, c2: Context, options: Seq<Opt>, index: int, v: Seq<char>)
    requires
        c1.args_wf(options),
        0 <= index < options.len() <= u16::MAX,
        !(options[index].kind is KeyOnly),
        find_entry(c1.option_args@, index) is None,
        c2.saved_args@.len() == c1.saved_args@.len() + 1,
        c2.saved_views() == c1.saved_views().push(v),
        c1.saved_args@.len() + 1 <= u16::MAX,
        c1.arg_ranges@.len() + 1 <= u16::MAX,
        options[index].kind is Multiple ==> {
            &&& c2.option_args@ == c1.option_args@.push(
                (index as u16, c1.arg_ranges@.len() as u16),
            )
            &&& c2.arg_ranges@ == c1.arg_ranges@.push(
                ArgRange {
                    start: c1.saved_args@.len() as u16,
                    end: (c1.saved_args@.len() + 1) as u16,
                },
            )
        },
        options[index].kind is Single ==> {
            &&& c2.option_args@ == c1.option_args@.push(
                (index as u16, c1.saved_args@.len() as u16),
            )
            &&& c2.arg_ranges@ == c1.arg_ranges@
        },
    ensures
        c2.args_wf(options),
        options[index].kind is Single ==> c2.values_of(options, index) == seq![v],
        options[index].kind is Multiple ==> c2.values_of(options, index) == c1.values_of(
            options,
            index,
        ).push(v),
        forall|o: int|
            0 <= o < options.len() && o != index ==> c2.values_of(options, o) == c1.values_of(
                options,
                o,
            ),
        forall|o: int|
            #![auto]
            find_entry(c2.option_args@, o) is Some <==> (find_entry(c1.option_args@, o) is Some || o
                == index),
{
    let oa1 = c1.option_args@;
    let oa2 = c2.option_args@;
    let newj = oa1.len() as int;
    let slen = c1.saved_args@.len() as int;
    assert forall|i: int| 0 <= i < slen implies c2.saved_args@[i]@ == c1.saved_args@[i]@ by {
        assert(c2.saved_views()[i] == c1.saved_views().push(v)[i]);
        assert(c2.saved_views()[i] == c2.saved_args@[i]@);
        assert(c1.saved_views()[i] == c1.saved_args@[i]@);
    }
    assert(c2.saved_args@[slen]@ == v) by {
        assert(c2.saved_views()[slen] == c1.saved_views().push(v)[slen]);
        assert(c2.saved_views()[slen] == c2.saved_args@[slen]@);
    }
    lemma_find_entry_props(oa1, index);
    lemma_find_entry_first(oa2, index, newj);
    assert forall|o: int| o != index implies find_entry(oa2, o) == find_entry(oa1, o) by {
        lemma_find_entry_props(oa1, o);
        match find_entry(oa1, o) {
            Option::None => {
                lemma_find_entry_none(oa2, o);
            },
            Option::Some(k) => {
                lemma_find_entry_first(oa2, o, k);
            },
        }
    }
    assert forall|o: int|
        0 <= o < options.len() && o != index implies c2.values_of(options, o) == c1.values_of(
        options,
        o,
    ) by {
        lemma_find_entry_props(oa1, o);
        assert(find_entry(oa2, o) == find_entry(oa1, o));
        match find_entry(oa1, o) {
            Option::None => {},
            Option::Some(k) => {
                lemma_claim_in_bounds(c1, options, k);
                assert(oa2[k] == oa1[k]);
                let (oo, p) = oa1[k];
                if options[oo as int].kind is Multiple {
                    assert(c2.arg_ranges@[p as int] == c1.arg_ranges@[p as int]);
                }
                assert(c2.values_of(options, o) =~= c1.values_of(options, o));
            },
        }
    }
    if options[index].kind is Multiple {
        assert(c2.values_of(options, index) =~= c1.values_of(options, index).push(v));
    } else {
        assert(c2.values_of(options, index) =~= seq![v]);
    }
    assert forall|j1: int, j2: int|
        0 <= j1 < oa2.len() && 0 <= j2 < oa2.len() && j1 != j2 implies (c2.claim_hi(options, j1)
        <= c2.claim_lo(options, j2) || c2.claim_hi(options, j2) <= c2.claim_lo(options, j1)) by {
        if j1 < newj {
            assert(oa2[j1] == oa1[j1]);
            lemma_claim_in_bounds(c1, options, j1);
            assert(c2.claim_lo(options, j1) == c1.claim_lo(options, j1));
            assert(c2.claim_hi(options, j1) == c1.claim_hi(options, j1));
        } else {
            assert(c2.claim_lo(options, j1) == c1.saved_args@.len());
        }
        if j2 < newj {
            assert(oa2[j2] == oa1[j2]);
            lemma_claim_in_bounds(c1, options, j2);
            assert(c2.claim_lo(options, j2) == c1.claim_lo(options, j2));
            assert(c2.claim_hi(options, j2) == c1.claim_hi(options, j2));
        } else {
            assert(c2.claim_lo(options, j2) == c1.saved_args@.len());
        }
        if j1 < newj && j2 < newj {
            assert(c1.claim_hi(options, j1) <= c1.claim_lo(options, j2) || c1.claim_hi(options, j2)
                <= c1.claim_lo(options, j1));
        }
    }
    assert(c2.args_wf(options));
}

/// Inserting a value at the end of the found `Multiple` entry's
/// range, with every other claimed position at or after the insertion
/// point shifted up by one, keeps the bookkeeping well-formed,
/// appends the value to that option, and preserves every other
/// option's recorded values.
proof fn lemma_insert_case_ensures(
    c1: Context,
    c2: Context,
    options: Seq<Opt>,
    index: int,
    found: int,
    at: int,
    v: Seq<char>,
)
    requires
        c1.args_wf(options),
        0 <= index < options.len() <= u16::MAX,
        options[index].kind is Multiple,
        find_entry(c1.option_args@, index) == Some(found),
        0 <= found < c1.option_args@.len(),
        c1.option_args@[found].0 == index as u16,
        c1.saved_args@.len() + 1 <= u16::MAX,
        ({
            let pos = c1.option_args@[found].1 as int;
            let flo = c1.arg_ranges@[pos].start as int;
            &&& at == c1.arg_ranges@[pos].end as int
            &&& flo < at
            &&& at < c1.saved_args@.len()
            &&& c2.option_args@.len() == c1.option_args@.len()
            &&& (forall|i: int|
                0 <= i < c1.option_args@.len() ==> c2.option_args@[i] == shifted_entry(
                    c1.option_args@,
                    options,
                    at,
                    i,
                ))
            &&& c2.arg_ranges@.len() == c1.arg_ranges@.len()
            &&& (forall|p: int|
                0 <= p < c1.arg_ranges@.len() && p != pos ==> c2.arg_ranges@[p] == shifted_range(
                    c1.arg_ranges@,
                    at,
                    p,
                ))
            &&& c2.arg_ranges@[pos] == ArgRange { start: flo as u16, end: (at + 1) as u16 }
            &&& c2.saved_args@.len() == c1.saved_args@.len() + 1
            &&& c2.saved_views() == c1.saved_views().insert(at, v)
        }),
        non_value_fields_unchanged(c1, c2),
    ensures
        c2.args_wf(options),
        c2.values_of(options, index) == c1.values_of(options, index).push(v),
        forall|o: int|
            0 <= o < options.len() && o != index ==> c2.values_of(options, o) == c1.values_of(
                options,
                o,
            ),
        forall|o: int|
            #![auto]
            find_entry(c2.option_args@, o) is Some <==> (find_entry(c1.option_args@, o) is Some || o
                == index),
{
    let oa1 = c1.option_args@;
    let oa2 = c2.option_args@;
    let pos = oa1[found].1 as int;
    let flo = c1.arg_ranges@[pos].start as int;
    lemma_multiple_pos_unique(c1, options, found);
    c1.saved_views().insert_ensures(at, v);
    assert forall|o: int| true implies find_entry(oa2, o) == find_entry(oa1, o) by {
        lemma_find_entry_same_keys(oa2, oa1, o);
    }

    // Where each entry's claim lands after the shift.
    assert forall|k: int| 0 <= k < oa1.len() && k != found implies {
        &&& (c1.claim_lo(options, k) >= at ==> c2.claim_lo(options, k) == c1.claim_lo(options, k)
            + 1 && c2.claim_hi(options, k) == c1.claim_hi(options, k) + 1)
        &&& (c1.claim_lo(options, k) < at ==> c2.claim_lo(options, k) == c1.claim_lo(options, k)
            && c2.claim_hi(options, k) == c1.claim_hi(options, k) && c1.claim_hi(options, k)
            <= flo)
    } by {
        lemma_claim_in_bounds(c1, options, k);
        assert(c1.claim_hi(options, k) <= c1.claim_lo(options, found) || c1.claim_hi(
            options,
            found,
        ) <= c1.claim_lo(options, k));
        let (o, p) = oa1[k];
        if options[o as int].kind is Multiple {
            let q = p as int;
            assert(q != pos);
            assert(c2.arg_ranges@[q] == shifted_range(c1.arg_ranges@, at, q));
        }
    }
    assert(c2.claim_lo(options, found) == flo);
    assert(c2.claim_hi(options, found) == at + 1);

    // The found option gains exactly the inserted value.
    assert(c2.values_of(options, index) =~= c1.values_of(options, index).push(v));

    // Every other option's values are untouched.
    assert forall|o: int|
        0 <= o < options.len() && o != index implies c2.values_of(options, o) == c1.values_of(
        options,
        o,
    ) by {
        lemma_find_entry_props(oa1, o);
        match find_entry(oa1, o) {
            Option::None => {},
            Option::Some(k) => {
                assert(k != found);
                lemma_claim_in_bounds(c1, options, k);
                let (oo, p) = oa1[k];
                assert(oa2[k] == shifted_entry(c1.option_args@, options, at, k));
                if options[oo as int].kind is Multiple {
                    let q = p as int;
                    assert(q != pos);
                    assert(c2.arg_ranges@[q] == shifted_range(c1.arg_ranges@, at, q));
                    let s1 = c1.arg_ranges@[q].start as int;
                    let e1 = c1.arg_ranges@[q].end as int;
                    if s1 >= at {
                        assert forall|ii: int| 0 <= ii < e1 - s1 implies #[trigger] c2.saved_views()[s1 + 1
                            + ii] == c1.saved_views()[s1 + ii] by {
                            assert(c2.saved_views()[s1 + 1 + ii] == c1.saved_views().insert(
                                at,
                                v,
                            )[s1 + 1 + ii]);
                        }
                        assert(c2.values_of(options, o) =~= c1.values_of(options, o));
                    } else {
                        assert(e1 <= flo);
                        assert forall|ii: int| 0 <= ii < e1 - s1 implies #[trigger] c2.saved_views()[s1
                            + ii] == c1.saved_views()[s1 + ii] by {
                            assert(c2.saved_views()[s1 + ii] == c1.saved_views().insert(at, v)[s1
                                + ii]);
                        }
                        assert(c2.values_of(options, o) =~= c1.values_of(options, o));
                    }
                } else {
                    let pp = p as int;
                    if pp >= at {
                        assert(oa2[k].1 == pp + 1);
                        assert(c2.saved_views()[pp + 1] == c1.saved_views().insert(at, v)[pp + 1]);
                        assert(c2.saved_args@[pp + 1]@ == c2.saved_views()[pp + 1]);
                        assert(c1.saved_args@[pp]@ == c1.saved_views()[pp]);
                        assert(c2.values_of(options, o) =~= c1.values_of(options, o));
                    } else {
                        assert(oa2[k].1 == pp);
                        assert(c2.saved_views()[pp] == c1.saved_views().insert(at, v)[pp]);
                        assert(c2.saved_args@[pp]@ == c2.saved_views()[pp]);
                        assert(c1.saved_args@[pp]@ == c1.saved_views()[pp]);
                        assert(c2.values_of(options, o) =~= c1.values_of(options, o));
                    }
                }
            },
        }
    }

    // Well-formedness of the shifted bookkeeping.
    assert forall|j1: int, j2: int|
        0 <= j1 < oa2.len() && 0 <= j2 < oa2.len() && j1 != j2 implies (c2.claim_hi(options, j1)
        <= c2.claim_lo(options, j2) || c2.claim_hi(options, j2) <= c2.claim_lo(options, j1)) by {
        assert(c1.claim_hi(options, j1) <= c1.claim_lo(options, j2) || c1.claim_hi(options, j2)
            <= c1.claim_lo(options, j1));
        lemma_claim_in_bounds(c1, options, j1);
        lemma_claim_in_bounds(c1, options, j2);
    }
    assert forall|rr: int| 0 <= rr < c2.arg_ranges@.len() implies {
        &&& (#[trigger] c2.arg_ranges@[rr]).start < c2.arg_ranges@[rr].end
        &&& c2.arg_ranges@[rr].end <= c2.saved_args@.len()
    } by {
        if rr != pos {
            assert(c2.arg_ranges@[rr] == shifted_range(c1.arg_ranges@, at, rr));
        }
    }
    assert(c2.args_wf(options));
}

/// The first child in the sibling walk from `t` (bounded by `end`)
/// that accepts the token: a wildcard name accepts anything, any other
/// name must equal the token.  Misses skip to the next sibling by
/// `child_span + 1`.
pub open spec fn spec_descend(router: Router, token: Seq<char>, t: int, end: int) -> Option<
    (int, bool),
>
    decreases end - t,
{
    if t < 0 || t >= end || t >= router.tree@.len() {
        None
    } else {
        let nm = router.names@[router.segments@[t].name as int]@;
        if is_wildcard(nm) {
            Some((t, true))
        } else if nm == token {
            Some((t, false))
        } else if t + router.tree@[t].child_span + 1 <= end {
            spec_descend(router, token, t + router.tree@[t].child_span + 1, end)
        } else {
            None
        }
    }
}

/// Outcome of one tree-descent attempt.
pub struct Descent {
    pub selected: u16,
    pub tree_index: u16,
    pub matched: bool,
    pub wildcard: bool,
}

/// Tries to descend from `selected` on one token, scanning the
/// direct children from `tree_index` within `selected`'s span.
pub fn descend(router: &Router, selected: u16, tree_index: u16, token: &str) -> (r: Descent)
    requires
        router.wf(),
        selected < router.tree@.len(),
        tree_index <= router.tree@.len(),
    ensures
        ({
            let end = selected + router.tree@[selected as int].child_span + 1;
            match spec_descend(*router, token@, tree_index as int, end) {
                Some((t, w)) => {
                    &&& r.matched
                    &&& r.selected == t
                    &&& r.tree_index == t + 1
                    &&& r.wildcard == w
                    &&& t < router.tree@.len()
                },
                None => {
                    &&& !r.matched
                    &&& !r.wildcard
                    &&& r.selected == selected
                    &&& r.tree_index == if tree_index >= end {
                        tree_index as int
                    } else {
                        end
                    }
                    &&& r.tree_index <= router.tree@.len()
                },
            }
        }),
{
    let end: usize = selected as usize + router.tree[selected as usize].child_span as usize + 1;
    let mut t: usize = tree_index as usize;
    while t < end
        invariant
            router.wf(),
            selected < router.tree@.len(),
            end == selected + router.tree@[selected as int].child_span + 1,
            end <= router.tree@.len(),
            t <= router.tree@.len(),
            tree_index as int <= t as int,
            tree_index as int >= end ==> t == tree_index,
            (tree_index as int) < end ==> t <= end,
            spec_descend(*router, token@, tree_index as int, end as int) == spec_descend(
                *router,
                token@,
                t as int,
                end as int,
            ),
        decreases end - t,
    {
        let name = router.names[router.segments[t].name as usize];
        let wild = if name.unicode_len() > 0 {
            name.get_char(0) == ':'
        } else {
            false
        };
        if wild {
            return Descent { selected: t as u16, tree_index: (t + 1) as u16, matched: true, wildcard: true };
        }
        if str_eq(name, token) {
            return Descent {
                selected: t as u16,
                tree_index: (t + 1) as u16,
                matched: true,
                wildcard: false,
            };
        }
        let step = t + router.tree[t].child_span as usize + 1;
        t = if step > end {
            end
        } else {
            step
        };
    }
    Descent { selected, tree_index: t as u16, matched: false, wildcard: false }
}

/// Looks an option up by its short alias.
pub fn find_short(router: &Router, ch: char) -> (r: Option<usize>)
    requires
        router.wf(),
    ensures
        match r {
            Some(m) => {
                &&& m < router.short_option_mappers@.len()
                &&& router.short_option_mappers@[m as int].1 == ch
                &&& router.short_option_mappers@[m as int].0 < router.options@.len()
                &&& Some(m as int) == spec_find_short(*router, ch, 0)
            },
            None => spec_find_short(*router, ch, 0) is None,
        },
{
    let mut m: usize = 0;
    while m < router.short_option_mappers.len()
        invariant
            router.wf(),
            m <= router.short_option_mappers@.len(),
            spec_find_short(*router, ch, 0) == spec_find_short(*router, ch, m as int),
        decreases router.short_option_mappers@.len() - m,
    {
        if router.short_option_mappers[m].1 == ch {
            return Some(m);
        }
        m = m + 1;
    }
    None
}

/// Number of the group's first `n` member options that occurred.
pub open spec fn group_hits(grp: Seq<u16>, occ: Seq<u8>, n: int) -> int
    decreases n,
{
    if n <= 0 || n > grp.len() {
        0
    } else {
        group_hits(grp, occ, n - 1) + if 0 <= grp[n - 1] < occ.len() && occ[grp[n - 1] as int] > 0 {
            1int
        } else {
            0int
        }
    }
}

/// Option `o` belongs to one of the groups the segment declares.
pub open spec fn member_of_segment_groups(router: Router, seg: Segment, o: int) -> bool {
    exists|g: int, k: int|
        seg.spec_group_start() <= g < seg.spec_group_start() + seg.spec_group_count() && 0 <= k
            < router.opt_groups@[g]@.len() && router.opt_groups@[g]@[k] == o
}

/// The rules a segment's option groups impose on a set of
/// occurrences: at most one hit in a `OneOf` group, at least one hit
/// in a `Required` group, and every occurring option a member of some
/// group.  A segment that declares no groups imposes nothing.
pub open spec fn groups_satisfied(router: Router, seg: Segment, occ: Seq<u8>) -> bool {
    seg.spec_group_count() == 0 || {
        let start = seg.spec_group_start() as int;
        let cnt = seg.spec_group_count() as int;
        &&& (forall|g: int|
            start <= g < start + cnt && #[trigger] router.opt_group_rules@[g] & crate::RULES_ONEOF
                != 0 ==> group_hits(
                router.opt_groups@[g]@,
                occ,
                router.opt_groups@[g]@.len() as int,
            ) <= 1)
        &&& (forall|g: int|
            start <= g < start + cnt && #[trigger] router.opt_group_rules@[g]
                & crate::RULES_REQUIRED != 0 ==> group_hits(
                router.opt_groups@[g]@,
                occ,
                router.opt_groups@[g]@.len() as int,
            ) >= 1)
        &&& (forall|o: int|
            0 <= o < occ.len() && #[trigger] occ[o] > 0 ==> member_of_segment_groups(
                router,
                seg,
                o,
            ))
    }
}


/// The hit count over the group's first `n` members, with the first
/// and second member options found to have occurred.
pub open spec fn scan_hits(grp: Seq<u16>, occ: Seq<u8>, n: int) -> (int, u16, u16)
    decreases n,
{
    if n <= 0 || n > grp.len() {
        (0, 0, 0)
    } else {
        let (h, f, sec) = scan_hits(grp, occ, n - 1);
        if 0 <= grp[n - 1] < occ.len() && occ[grp[n - 1] as int] > 0 {
            (
                h + 1,
                if h == 0 {
                    grp[n - 1]
                } else {
                    f
                },
                if h == 1 {
                    grp[n - 1]
                } else {
                    sec
                },
            )
        } else {
            (h, f, sec)
        }
    }
}

/// The group-by-group half of validation, from group `g` on: the
/// first `OneOf` group with two hits names its first two hit members,
/// the first `Required` group with none fails.
pub open spec fn spec_validate_groups(
    router: Router,
    start: int,
    cnt: int,
    occ: Seq<u8>,
    g: int,
) -> Result<(), RouteError>
    decreases start + cnt - g,
{
    if g < start || g >= start + cnt || g >= router.opt_groups@.len() || g
        >= router.opt_group_rules@.len() {
        Ok(())
    } else {
        let grp = router.opt_groups@[g]@;
        let rules = router.opt_group_rules@[g];
        let (h, f, sec) = scan_hits(grp, occ, grp.len() as int);
        if rules & crate::RULES_ONEOF != 0 && h >= 2 {
            Err(RouteError::MutuallyExclusiveOptions(f, sec))
        } else if rules & crate::RULES_REQUIRED != 0 && h == 0 {
            Err(RouteError::MissingRequiredOption)
        } else {
            spec_validate_groups(router, start, cnt, occ, g + 1)
        }
    }
}

/// The membership half of validation, from option `o` on: the first
/// occurring option that belongs to none of the segment's groups
/// fails.
pub open spec fn spec_validate_members(router: Router, seg: Segment, occ: Seq<u8>, o: int) -> Result<
    (),
    RouteError,
>
    decreases occ.len() - o,
{
    if o < 0 || o >= occ.len() {
        Ok(())
    } else if occ[o] > 0 && !member_of_segment_groups(router, seg, o) {
        Err(RouteError::OptionNotAllowed(o as u16))
    } else {
        spec_validate_members(router, seg, occ, o + 1)
    }
}

/// What group validation returns for the selected segment on a set of
/// occurrences: nothing is checked when the segment declares no
/// groups; otherwise the groups are checked in declared order, then
/// every occurring option's membership.
pub open spec fn spec_validate(router: Router, selected: int, occ: Seq<u8>) -> Result<
    (),
    RouteError,
> {
    let seg = router.segments@[selected];
    if seg.spec_group_count() == 0 {
        Ok(())
    } else {
        match spec_validate_groups(
            router,
            seg.spec_group_start() as int,
            seg.spec_group_count() as int,
            occ,
            seg.spec_group_start() as int,
        ) {
            Err(e) => Err(e),
            Ok(_) => spec_validate_members(router, seg, occ, 0),
        }
    }
}

/// Whether option `o` stands in any of the groups
/// `[start, start + cnt)` of the shared group table.
fn group_tables_member(router: &Router, start: u16, cnt: u16, o: u16) -> (r: bool)
    requires
        router.wf(),
        start + cnt <= router.opt_groups@.len(),
    ensures
        r == exists|g: int, k: int|
            start <= g < start + cnt && 0 <= k < router.opt_groups@[g]@.len()
                && router.opt_groups@[g]@[k] == o,
{
    let mut g: usize = start as usize;
    let end: usize = start as usize + cnt as usize;
    while g < end
        invariant
            router.wf(),
            start as int <= g <= end,
            end == start + cnt <= router.opt_groups@.len(),
            forall|g2: int, k2: int|
                start <= g2 < g && 0 <= k2 < router.opt_groups@[g2]@.len()
                    ==> #[trigger] router.opt_groups@[g2]@[k2] != o,
        decreases end - g,
    {
        let grp = &router.opt_groups[g];
        let mut k: usize = 0;
        while k < grp.len()
            invariant
                router.wf(),
                start as int <= g,
                g < start + cnt,
                g < router.opt_groups@.len(),
                grp@ == router.opt_groups@[g as int]@,
                k <= grp@.len(),
                forall|k2: int| 0 <= k2 < k ==> #[trigger] grp@[k2] != o,
            decreases grp@.len() - k,
        {
            if grp[k] == o {
                proof {
                    assert(start <= g < start + cnt && 0 <= k < router.opt_groups@[g as int]@.len()
                        && router.opt_groups@[g as int]@[k as int] == o);
                }
                return true;
            }
            k = k + 1;
        }
        g = g + 1;
    }
    false
}

/// Validates the option occurrences against the selected segment's
/// declared option groups, group by group in declared order, then
/// checks that every option that occurred belongs to some group.
/// `Ok` exactly when `groups_satisfied` holds.
pub fn validate_opt_groups(router: &Router, selected: u16, occ: &Vec<u8>) -> (r: Result<
    (),
    RouteError,
>)
    requires
        router.wf(),
        selected < router.segments@.len(),
        occ@.len() == router.options@.len(),
    ensures
        r == spec_validate(*router, selected as int, occ@),
        r is Ok <==> groups_satisfied(*router, router.segments@[selected as int], occ@),
        match r {
            Result::Ok(_) => true,
            Result::Err(e) => match e {
                RouteError::MutuallyExclusiveOptions(a, b) => a < occ@.len() && b < occ@.len()
                    && occ@[a as int] > 0 && occ@[b as int] > 0,
                RouteError::MissingRequiredOption => true,
                RouteError::OptionNotAllowed(o) => o < occ@.len() && occ@[o as int] > 0
                    && !member_of_segment_groups(
                    *router,
                    router.segments@[selected as int],
                    o as int,
                ),
                _ => false,
            },
        },
{
    let seg = router.segments[selected as usize];
    let cnt = seg.group_count();
    if cnt == 0 {
        return Result::Ok(());
    }
    let start = seg.group_start();
    let gend: usize = start as usize + cnt as usize;
    let mut g: usize = start as usize;
    while g < gend
        invariant
            router.wf(),
            seg == router.segments@[selected as int],
            selected < router.segments@.len(),
            occ@.len() == router.options@.len(),
            cnt == seg.spec_group_count(),
            cnt > 0,
            start == seg.spec_group_start(),
            gend == start + cnt <= router.opt_groups@.len(),
            start as int <= g <= gend,
            spec_validate_groups(*router, start as int, cnt as int, occ@, start as int)
                == spec_validate_groups(*router, start as int, cnt as int, occ@, g as int),
            forall|g2: int|
                start <= g2 < g && #[trigger] router.opt_group_rules@[g2] & crate::RULES_ONEOF != 0
                    ==> group_hits(
                    router.opt_groups@[g2]@,
                    occ@,
                    router.opt_groups@[g2]@.len() as int,
                ) <= 1,
            forall|g2: int|
                start <= g2 < g && #[trigger] router.opt_group_rules@[g2] & crate::RULES_REQUIRED
                    != 0 ==> group_hits(
                    router.opt_groups@[g2]@,
                    occ@,
                    router.opt_groups@[g2]@.len() as int,
                ) >= 1,
        decreases gend - g,
    {
        let grp = &router.opt_groups[g];
        let rules = router.opt_group_rules[g];
        let mut hits: usize = 0;
        let mut first: u16 = 0;
        let mut second: u16 = 0;
        let mut k: usize = 0;
        while k < grp.len()
            invariant
                router.wf(),
                g < router.opt_groups@.len(),
                grp == &router.opt_groups[g as int],
                occ@.len() == router.options@.len(),
                k <= grp@.len(),
                hits == group_hits(grp@, occ@, k as int),
                (hits as int, first, second) == scan_hits(grp@, occ@, k as int),
                hits <= k,
                hits >= 1 ==> first < occ@.len() && occ@[first as int] > 0,
                hits >= 2 ==> second < occ@.len() && occ@[second as int] > 0,
            decreases grp@.len() - k,
        {
            let o = grp[k] as usize;
            proof {
                assert(0 <= grp@[k as int] < occ@.len());
            }
            if occ[o] > 0 {
                if hits == 0 {
                    first = grp[k];
                } else if hits == 1 {
                    second = grp[k];
                }
                hits = hits + 1;
            }
            k = k + 1;
        }
        if rules & crate::RULES_ONEOF != 0 && hits >= 2 {
            proof {
                assert(!groups_satisfied(*router, seg, occ@));
                assert(spec_validate_groups(*router, start as int, cnt as int, occ@, g as int)
                    == Result::<(), RouteError>::Err(
                    RouteError::MutuallyExclusiveOptions(first, second),
                ));
            }
            return Result::Err(RouteError::MutuallyExclusiveOptions(first, second));
        }
        if rules & crate::RULES_REQUIRED != 0 && hits == 0 {
            proof {
                assert(!groups_satisfied(*router, seg, occ@));
                assert(spec_validate_groups(*router, start as int, cnt as int, occ@, g as int)
                    == Result::<(), RouteError>::Err(RouteError::MissingRequiredOption));
            }
            return Result::Err(RouteError::MissingRequiredOption);
        }
        g = g + 1;
    }
    let mut o: usize = 0;
    while o < occ.len()
        invariant
            router.wf(),
            seg == router.segments@[selected as int],
            selected < router.segments@.len(),
            occ@.len() == router.options@.len(),
            cnt == seg.spec_group_count(),
            cnt > 0,
            start == seg.spec_group_start(),
            start + cnt <= router.opt_groups@.len(),
            o <= occ@.len(),
            spec_validate_groups(*router, start as int, cnt as int, occ@, start as int)
                == Result::<(), RouteError>::Ok(()),
            spec_validate_members(*router, seg, occ@, 0) == spec_validate_members(
                *router,
                seg,
                occ@,
                o as int,
            ),
            forall|g2: int|
                start <= g2 < start + cnt && #[trigger] router.opt_group_rules@[g2]
                    & crate::RULES_ONEOF != 0 ==> group_hits(
                    router.opt_groups@[g2]@,
                    occ@,
                    router.opt_groups@[g2]@.len() as int,
                ) <= 1,
            forall|g2: int|
                start <= g2 < start + cnt && #[trigger] router.opt_group_rules@[g2]
                    & crate::RULES_REQUIRED != 0 ==> group_hits(
                    router.opt_groups@[g2]@,
                    occ@,
                    router.opt_groups@[g2]@.len() as int,
                ) >= 1,
            forall|o2: int|
                0 <= o2 < o && #[trigger] occ@[o2] > 0 ==> member_of_segment_groups(
                    *router,
                    seg,
                    o2,
                ),
        decreases occ@.len() - o,
    {
        if occ[o] > 0 {
            if !group_tables_member(router, start, cnt, o as u16) {
                proof {
                    assert(!member_of_segment_groups(*router, seg, o as int)) by {
                        if member_of_segment_groups(*router, seg, o as int) {
                            let (g2, k2) = choose|g2: int, k2: int|
                                seg.spec_group_start() <= g2 < seg.spec_group_start()
                                    + seg.spec_group_count() && 0 <= k2
                                    < router.opt_groups@[g2]@.len() && router.opt_groups@[g2]@[k2]
                                    == o as int;
                            assert(start <= g2 < start + cnt && 0 <= k2
                                < router.opt_groups@[g2]@.len() && router.opt_groups@[g2]@[k2] == o
                                as u16);
                        }
                    }
                    assert(!groups_satisfied(*router, seg, occ@));
                }
                return Result::Err(RouteError::OptionNotAllowed(o as u16));
            }
            proof {
                assert(member_of_segment_groups(*router, seg, o as int)) by {
                    let (g2, k2) = choose|g2: int, k2: int|
                        start <= g2 < start + cnt && 0 <= k2 < router.opt_groups@[g2]@.len()
                            && router.opt_groups@[g2]@[k2] == o as u16;
                    assert(seg.spec_group_start() <= g2 < seg.spec_group_start()
                        + seg.spec_group_count() && 0 <= k2 < router.opt_groups@[g2]@.len()
                        && router.opt_groups@[g2]@[k2] == o as int);
                }
            }
        }
        o = o + 1;
    }
    Result::Ok(())
}

/// Changing a context's fields outside the value bookkeeping (its
/// operands, counters and selection) preserves the bookkeeping's
/// well-formedness and every option's recorded values.
pub proof fn lemma_args_wf_untouched(a: Context, b: Context, options: Seq<Opt>)
    requires
        a.args_wf(options),
        b.option_args == a.option_args,
        b.arg_ranges == a.arg_ranges,
        b.saved_args == a.saved_args,
        b.option_occurrences@.len() == a.option_occurrences@.len(),
    ensures
        b.args_wf(options),
        forall|o: int| #[trigger] b.values_of(options, o) == a.values_of(options, o),
{
    assert forall|j: int| 0 <= j < b.option_args@.len() implies b.claim_lo(options, j)
        == a.claim_lo(options, j) && b.claim_hi(options, j) == a.claim_hi(options, j) by {}
    assert(b.saved_views() =~= a.saved_views());
    assert forall|o: int| true implies #[trigger] b.values_of(options, o) == a.values_of(
        options,
        o,
    ) by {
        lemma_find_entry_props(a.option_args@, o);
        assert(b.values_of(options, o) =~= a.values_of(options, o));
    }
    assert forall|j1: int, j2: int|
        0 <= j1 < b.option_args@.len() && 0 <= j2 < b.option_args@.len() && j1 != j2 implies (
    b.claim_hi(options, j1) <= b.claim_lo(options, j2) || b.claim_hi(options, j2) <= b.claim_lo(
        options,
        j1,
    )) by {
        assert(a.claim_hi(options, j1) <= a.claim_lo(options, j2) || a.claim_hi(options, j2)
            <= a.claim_lo(options, j1));
    }
    assert(b.args_wf(options));
}


/// The views of a sequence of strings.
pub open spec fn str_views(s: Seq<String>) -> Seq<Seq<char>> {
    Seq::new(s.len(), |k: int| s[k]@)
}

/// The whole state the CLI scan carries from token to token: the
/// fields of the `Context` under construction (strings as views),
/// the next sibling candidate of the tree walk, and whether a `--`
/// terminator has ended the scan.
#[verifier::ext_equal]
pub ghost struct CliState {
    pub selected: int,
    pub tree_index: int,
    pub operands: Seq<Seq<char>>,
    pub saved: Seq<Seq<char>>,
    pub option_args: Seq<(u16, u16)>,
    pub arg_ranges: Seq<ArgRange>,
    pub occurrences: Seq<u8>,
    pub operands_end: int,
    pub path_params: int,
    pub terminated: bool,
}

/// The state a `Context` (plus walk position and terminator flag)
/// denotes.
pub open spec fn cli_abs(c: Context, tree_index: int, terminated: bool) -> CliState {
    CliState {
        selected: c.selected as int,
        tree_index,
        operands: str_views(c.operands@),
        saved: c.saved_views(),
        option_args: c.option_args@,
        arg_ranges: c.arg_ranges@,
        occurrences: c.option_occurrences@,
        operands_end: c.operands_end as int,
        path_params: c.path_params as int,
        terminated,
    }
}

/// One more occurrence of option `o`, the count saturating at 255.
pub open spec fn spec_bump(occ: Seq<u8>, o: int) -> Seq<u8> {
    if 0 <= o < occ.len() && occ[o] < 255 {
        occ.update(o, (occ[o] + 1) as u8)
    } else {
        occ
    }
}

/// The scan of a short-option cluster from character `k` on: each
/// recognized key-only alias counts an occurrence at once; a
/// value-taking alias is legal only as the last character and is
/// handed back to take the next token as its value; unrecognized
/// aliases are ignored.
pub open spec fn spec_cluster(
    router: Router,
    t: Seq<char>,
    k: int,
    occ: Seq<u8>,
    pending: Option<int>,
) -> Result<(Seq<u8>, Option<int>), RouteError>
    decreases t.len() - k,
{
    if k < 1 || k >= t.len() {
        Ok((occ, pending))
    } else {
        match spec_find_short(router, t[k], 0) {
            Some(m) => {
                let op = router.short_option_mappers@[m].0 as int;
                if router.options@[op].kind is KeyOnly {
                    spec_cluster(router, t, k + 1, spec_bump(occ, op), pending)
                } else if k + 1 < t.len() {
                    Err(RouteError::AmbiguousShortOption)
                } else {
                    spec_cluster(router, t, k + 1, occ, Some(op))
                }
            },
            None => spec_cluster(router, t, k + 1, occ, pending),
        }
    }
}

/// End of the scan: without a terminator the operand boundary closes
/// at the operand count, then the selected segment's option groups
/// are validated.
pub open spec fn spec_cli_finish(router: Router, st: CliState) -> Result<CliState, RouteError> {
    let st1 = if !st.terminated {
        CliState { operands_end: st.operands.len() as int, ..st }
    } else {
        st
    };
    match spec_validate(router, st1.selected, st1.occurrences) {
        Ok(_) => Ok(st1),
        Err(e) => Err(e),
    }
}

/// The CLI scan from token `i` on, as a function: "-" is an operand,
/// "--" terminates and sends the rest to the trailing operands, a
/// "--name" token counts and (unless key-only) records the next token
/// as its value, any other "-..." token is a short cluster, and a
/// plain token fills an operand slot or descends the tree.
pub open spec fn spec_cli_from(
    router: Router,
    toks: Seq<Seq<char>>,
    i: int,
    st: CliState,
) -> Result<CliState, RouteError>
    decreases toks.len() - i,
{
    if st.terminated || i < 0 || i >= toks.len() {
        spec_cli_finish(router, st)
    } else {
        let t = toks[i];
        if t.len() >= 1 && t[0] == '-' {
            if t.len() == 1 {
                spec_cli_from(
                    router,
                    toks,
                    i + 1,
                    CliState { operands: st.operands.push(t), ..st },
                )
            } else if t[1] == '-' {
                if t.len() == 2 {
                    spec_cli_from(
                        router,
                        toks,
                        toks.len() as int,
                        CliState {
                            operands_end: st.operands.len() as int,
                            operands: st.operands + toks.subrange(i + 1, toks.len() as int),
                            terminated: true,
                            ..st
                        },
                    )
                } else {
                    match spec_find_option(router, t.subrange(2, t.len() as int), 0) {
                        Some(op) => {
                            let occ1 = spec_bump(st.occurrences, op);
                            if router.options@[op].kind is KeyOnly {
                                spec_cli_from(
                                    router,
                                    toks,
                                    i + 1,
                                    CliState { occurrences: occ1, ..st },
                                )
                            } else if i + 1 < toks.len() {
                                let (oa, rngs, saved) = spec_record(
                                    router.options@,
                                    st.option_args,
                                    st.arg_ranges,
                                    st.saved,
                                    op,
                                    toks[i + 1],
                                );
                                spec_cli_from(
                                    router,
                                    toks,
                                    i + 2,
                                    CliState {
                                        occurrences: occ1,
                                        option_args: oa,
                                        arg_ranges: rngs,
                                        saved,
                                        ..st
                                    },
                                )
                            } else {
                                Err(RouteError::MissingOptionArgument)
                            }
                        },
                        None => spec_cli_from(router, toks, i + 1, st),
                    }
                }
            } else {
                match spec_cluster(router, t, 1, st.occurrences, None) {
                    Err(e) => Err(e),
                    Ok((occ1, pending)) => match pending {
                        Some(op) => {
                            if i + 1 < toks.len() {
                                let occ2 = spec_bump(occ1, op);
                                let (oa, rngs, saved) = spec_record(
                                    router.options@,
                                    st.option_args,
                                    st.arg_ranges,
                                    st.saved,
                                    op,
                                    toks[i + 1],
                                );
                                spec_cli_from(
                                    router,
                                    toks,
                                    i + 2,
                                    CliState {
                                        occurrences: occ2,
                                        option_args: oa,
                                        arg_ranges: rngs,
                                        saved,
                                        ..st
                                    },
                                )
                            } else {
                                Err(RouteError::MissingOptionArgument)
                            }
                        },
                        None => spec_cli_from(
                            router,
                            toks,
                            i + 1,
                            CliState { occurrences: occ1, ..st },
                        ),
                    },
                }
            }
        } else {
            let target = router.segments@[st.selected].operands as int;
            let cur = st.operands.len() - st.path_params;
            if target != cur {
                spec_cli_from(
                    router,
                    toks,
                    i + 1,
                    CliState { operands: st.operands.push(t), ..st },
                )
            } else {
                let end = st.selected + router.tree@[st.selected].child_span + 1;
                match spec_descend(router, t, st.tree_index, end) {
                    Some((x, w)) => {
                        if w {
                            spec_cli_from(
                                router,
                                toks,
                                i + 1,
                                CliState {
                                    selected: x,
                                    tree_index: x + 1,
                                    path_params: if st.path_params < 255 {
                                        st.path_params + 1
                                    } else {
                                        st.path_params
                                    },
                                    operands: st.operands.push(t),
                                    ..st
                                },
                            )
                        } else {
                            spec_cli_from(
                                router,
                                toks,
                                i + 1,
                                CliState { selected: x, tree_index: x + 1, ..st },
                            )
                        }
                    },
                    None => spec_cli_from(
                        router,
                        toks,
                        i + 1,
                        CliState {
                            tree_index: if st.tree_index >= end {
                                st.tree_index
                            } else {
                                end
                            },
                            ..st
                        },
                    ),
                }
            }
        }
    }
}

/// The scan's starting state: segment 0 selected, the walk at its
/// first child, everything else empty.
pub open spec fn spec_cli_init(router: Router) -> CliState {
    CliState {
        selected: 0,
        tree_index: 1,
        operands: Seq::empty(),
        saved: Seq::empty(),
        option_args: Seq::empty(),
        arg_ranges: Seq::empty(),
        occurrences: Seq::new(router.options@.len(), |k: int| 0u8),
        operands_end: 0,
        path_params: 0,
        terminated: false,
    }
}

/// What parsing a CLI token sequence yields, as a function of the
/// tokens: the final state, or the first input error.
pub open spec fn spec_parse_cli(router: Router, toks: Seq<Seq<char>>) -> Result<
    CliState,
    RouteError,
> {
    spec_cli_from(router, toks, 0, spec_cli_init(router))
}

/// Parses a CLI token sequence against the routing tree: walks the
/// tree on non-option tokens (exact names or wildcards), collects
/// operands up to the selected segment's declared count, records
/// long (`--name`) and clustered short (`-abc`) option occurrences
/// and values, treats a lone `-` as an operand and a lone `--` as the
/// terminator that sends the remaining tokens to the trailing
/// operands, and finally validates the selected segment's option
/// groups.  Unrecognized options and segment names are ignored.
///
/// On success the context's bookkeeping is well-formed: each option
/// has at most one entry, every `Multiple` option's values form a
/// contiguous range of `saved_args` that no other option's recorded
/// positions touch, an option has an entry exactly when it occurred
/// (key-only options never have one), and, short of the `u8`
/// occurrence counter's saturation point, a `Multiple` option holds
/// exactly one value per occurrence.
#[verifier::rlimit(100)]
pub fn parse_cli_route(router: &Router, args: Vec<String>) -> (r: Result<Context, RouteError>)
    requires
        router.wf(),
        options_sorted(*router),
        args@.len() + 1 <= u16::MAX,
    ensures
        match r {
            Result::Ok(c) => {
                &&& spec_parse_cli(*router, str_views(args@)) is Ok
                &&& c.selected as int == spec_parse_cli(*router, str_views(args@)).unwrap().selected
                &&& c.option_occurrences@ == spec_parse_cli(
                    *router,
                    str_views(args@),
                ).unwrap().occurrences
                &&& c.option_args@ == spec_parse_cli(*router, str_views(args@)).unwrap().option_args
                &&& c.arg_ranges@ == spec_parse_cli(*router, str_views(args@)).unwrap().arg_ranges
                &&& c.saved_views() == spec_parse_cli(*router, str_views(args@)).unwrap().saved
                &&& str_views(c.operands@) == spec_parse_cli(
                    *router,
                    str_views(args@),
                ).unwrap().operands
                &&& c.operands_end as int == spec_parse_cli(
                    *router,
                    str_views(args@),
                ).unwrap().operands_end
                &&& c.path_params as int == spec_parse_cli(
                    *router,
                    str_views(args@),
                ).unwrap().path_params
                &&& c.args_wf(router.options@)
                &&& c.positions_wf()
                &&& c.selected < router.segments@.len()
                &&& c.option_occurrences@.len() == router.options@.len()
                &&& groups_satisfied(
                    *router,
                    router.segments@[c.selected as int],
                    c.option_occurrences@,
                )
                &&& (forall|o: int|
                    0 <= o < router.options@.len() ==> (find_entry(c.option_args@, o) is Some
                        ==> c.option_occurrences@[o] > 0))
                &&& (forall|o: int|
                    0 <= o < router.options@.len() && c.option_occurrences@[o] > 0 && !(
                    router.options@[o].kind is KeyOnly) ==> find_entry(c.option_args@, o) is Some)
                &&& (forall|o: int|
                    0 <= o < router.options@.len() && router.options@[o].kind is Multiple
                        && c.option_occurrences@[o] < 255 ==> c.values_of(router.options@, o).len()
                        == c.option_occurrences@[o])
            },
            Result::Err(e) => spec_parse_cli(*router, str_views(args@)) == Result::<
                CliState,
                RouteError,
            >::Err(e),
        },
{
    let ghost opts = router.options@;
    let ghost toks = str_views(args@);
    let mut occurrences: Vec<u8> = Vec::new();
    while occurrences.len() < router.options.len()
        invariant
            occurrences@.len() <= router.options@.len(),
            forall|o: int| 0 <= o < occurrences@.len() ==> occurrences@[o] == 0,
        decreases router.options@.len() - occurrences@.len(),
    {
        occurrences.push(0);
    }
    let mut c = Context {
        operands: Vec::new(),
        saved_args: Vec::new(),
        option_args: Vec::new(),
        arg_ranges: Vec::new(),
        option_occurrences: occurrences,
        selected: 0,
        operands_end: 0,
        path_params: 0,
    };
    let mut tree_index: u16 = 1;
    let mut terminated: bool = false;
    let mut i: usize = 0;
    proof {
        assert forall|o: int| true implies find_entry(c.option_args@, o) is None by {
            lemma_find_entry_props(c.option_args@, o);
        }
        assert(c.option_occurrences@ =~= Seq::new(router.options@.len(), |k: int| 0u8));
        assert(cli_abs(c, 1, false) =~= spec_cli_init(*router));
    }
    while i < args.len() && !terminated
        invariant
            router.wf(),
            options_sorted(*router),
            args@.len() + 1 <= u16::MAX,
            toks == str_views(args@),
            i <= args@.len(),
            c.args_wf(opts),
            opts == router.options@,
            c.option_occurrences@.len() == opts.len(),
            c.selected < router.segments@.len(),
            tree_index <= router.tree@.len(),
            c.saved_args@.len() <= i,
            c.arg_ranges@.len() <= i,
            c.operands@.len() <= i,
            c.path_params as int <= c.operands@.len(),
            !terminated ==> c.operands_end == 0,
            terminated ==> c.path_params <= c.operands_end <= c.operands@.len(),
            spec_parse_cli(*router, toks) == spec_cli_from(
                *router,
                toks,
                i as int,
                cli_abs(c, tree_index as int, terminated),
            ),
            forall|o: int|
                0 <= o < opts.len() ==> (find_entry(c.option_args@, o) is Some
                    ==> c.option_occurrences@[o] > 0),
            forall|o: int|
                0 <= o < opts.len() && c.option_occurrences@[o] > 0 && !(
                opts[o].kind is KeyOnly) ==> find_entry(c.option_args@, o) is Some,
            forall|o: int|
                0 <= o < opts.len() && opts[o].kind is Multiple && c.option_occurrences@[o] < 255
                    ==> c.values_of(opts, o).len() == c.option_occurrences@[o],
        decreases args@.len() - i + if terminated {
            0int
        } else {
            1int
        },
    {
        let ghost st0 = cli_abs(c, tree_index as int, terminated);
        let ghost i0 = i as int;
        let arg = &args[i];
        let s = arg.as_str();
        proof {
            assert(s@ == toks[i0]);
        }
        let len = s.unicode_len();
        if len >= 1 && s.get_char(0) == '-' {
            if len == 1 {
                // A lone "-" is a conventional literal operand.
                let ghost c0 = c;
                c.operands.push(arg.clone());
                proof {
                    lemma_args_wf_untouched(c0, c, opts);
                    assert(str_views(c.operands@) =~= st0.operands.push(toks[i0]));
                    assert(cli_abs(c, tree_index as int, terminated) =~= (CliState {
                        operands: st0.operands.push(toks[i0]),
                        ..st0
                    }));
                    assert(spec_cli_from(*router, toks, i0, st0) == spec_cli_from(
                        *router,
                        toks,
                        i0 + 1,
                        cli_abs(c, tree_index as int, terminated),
                    ));
                }
                i = i + 1;
            } else if s.get_char(1) == '-' {
                if len == 2 {
                    // "--" ends parsing; the rest are trailing
                    // operands.
                    let ghost c0 = c;
                    c.operands_end = c.operands.len() as u16;
                    proof {
                        lemma_args_wf_untouched(c0, c, opts);
                    }
                    let mut k: usize = i + 1;
                    while k < args.len()
                        invariant
                            i + 1 <= k <= args@.len(),
                            toks == str_views(args@),
                            i0 == i as int,
                            i < args@.len(),
                            c.operands@.len() <= k,
                            c.operands@.len() >= c.operands_end,
                            c.path_params <= c.operands_end,
                            c.args_wf(opts),
                            c.option_occurrences@.len() == opts.len(),
                            c.selected < router.segments@.len(),
                            c.saved_args@.len() <= i,
                            c.arg_ranges@.len() <= i,
                            opts == router.options@,
                            c.option_args@ == st0.option_args,
                            c.arg_ranges@ == st0.arg_ranges,
                            c.saved_views() == st0.saved,
                            c.option_occurrences@ == st0.occurrences,
                            c.selected as int == st0.selected,
                            c.path_params as int == st0.path_params,
                            c.operands_end as int == st0.operands.len(),
                            str_views(c.operands@) == st0.operands + toks.subrange(
                                i0 + 1,
                                k as int,
                            ),
                            forall|o: int|
                                0 <= o < opts.len() ==> (find_entry(c.option_args@, o) is Some
                                    ==> c.option_occurrences@[o] > 0),
                            forall|o: int|
                                0 <= o < opts.len() && c.option_occurrences@[o] > 0 && !(
                                opts[o].kind is KeyOnly) ==> find_entry(c.option_args@, o) is Some,
                            forall|o: int|
                                0 <= o < opts.len() && opts[o].kind is Multiple
                                    && c.option_occurrences@[o] < 255 ==> c.values_of(
                                    opts,
                                    o,
                                ).len() == c.option_occurrences@[o],
                        decreases args@.len() - k,
                    {
                        let ghost c0 = c;
                        c.operands.push(args[k].clone());
                        proof {
                            lemma_args_wf_untouched(c0, c, opts);
                            assert(c.operands@ == c0.operands@.push(args@[k as int]));
                            assert(toks[k as int] == args@[k as int]@);
                            let ghost rhs = st0.operands + toks.subrange(i0 + 1, k + 1);
                            assert(str_views(c0.operands@) == st0.operands + toks.subrange(
                                i0 + 1,
                                k as int,
                            ));
                            assert(str_views(c0.operands@).len() == c0.operands@.len());
                            assert(str_views(c.operands@).len() == c.operands@.len());
                            assert(c.operands@.len() == c0.operands@.len() + 1);
                            assert(toks.subrange(i0 + 1, k as int).len() == k - i0 - 1);
                            assert(toks.subrange(i0 + 1, k + 1).len() == k + 1 - i0 - 1);
                            assert(rhs.len() == c.operands@.len());
                            assert forall|j: int|
                                0 <= j < c.operands@.len() implies #[trigger] str_views(
                                c.operands@,
                            )[j] == rhs[j] by {
                                if j < c0.operands@.len() {
                                    assert(str_views(c.operands@)[j] == c0.operands@[j]@);
                                    assert(str_views(c0.operands@)[j] == c0.operands@[j]@);
                                    assert(str_views(c0.operands@)[j] == (st0.operands
                                        + toks.subrange(i0 + 1, k as int))[j]);
                                    if j >= st0.operands.len() {
                                        assert((st0.operands + toks.subrange(i0 + 1, k as int))[j]
                                            == toks[i0 + 1 + (j - st0.operands.len())]);
                                        assert(rhs[j] == toks[i0 + 1 + (j
                                            - st0.operands.len())]);
                                    }
                                } else {
                                    assert(str_views(c.operands@)[j] == args@[k as int]@);
                                    assert(rhs[j] == toks.subrange(i0 + 1, k + 1)[j
                                        - st0.operands.len()]);
                                    assert(rhs[j] == toks[k as int]);
                                }
                            }
                            assert(str_views(c.operands@) =~= rhs);
                        }
                        k = k + 1;
                    }
                    terminated = true;
                    i = args.len();
                    proof {
                        assert(str_views(c.operands@) == st0.operands + toks.subrange(
                            i0 + 1,
                            toks.len() as int,
                        ));
                        assert(cli_abs(c, tree_index as int, terminated) =~= (CliState {
                            operands_end: st0.operands.len() as int,
                            operands: st0.operands + toks.subrange(i0 + 1, toks.len() as int),
                            terminated: true,
                            ..st0
                        }));
                        assert(spec_cli_from(*router, toks, i0, st0) == spec_cli_from(
                            *router,
                            toks,
                            toks.len() as int,
                            cli_abs(c, tree_index as int, terminated),
                        ));
                    }
                } else {
                    // A long option: the name is everything after
                    // the "--".
                    let name = s.substring_char(2, len);
                    proof {
                        assert(name@ == toks[i0].subrange(2, toks[i0].len() as int));
                    }
                    match find_option(router, name) {
                        Option::Some(op) => {
                            let keyonly = match router.options[op].kind {
                                OptArgKind::KeyOnly => true,
                                _ => false,
                            };
                            let ghost c0 = c;
                            let occ0 = c.option_occurrences[op];
                            if occ0 < 255 {
                                c.option_occurrences[op] = occ0 + 1;
                            }
                            proof {
                                lemma_args_wf_untouched(c0, c, opts);
                                assert(c.option_occurrences@ =~= spec_bump(
                                    st0.occurrences,
                                    op as int,
                                ));
                            }
                            if keyonly {
                                proof {
                                    assert(cli_abs(c, tree_index as int, terminated)
                                        =~= (CliState {
                                        occurrences: spec_bump(st0.occurrences, op as int),
                                        ..st0
                                    }));
                                    assert(spec_cli_from(*router, toks, i0, st0) == spec_cli_from(
                                        *router,
                                        toks,
                                        i0 + 1,
                                        cli_abs(c, tree_index as int, terminated),
                                    ));
                                }
                                i = i + 1;
                            } else {
                                let next: Option<String> = if i + 1 < args.len() {
                                    Option::Some(args[i + 1].clone())
                                } else {
                                    Option::None
                                };
                                let consumed: usize = if i + 1 < args.len() {
                                    2
                                } else {
                                    1
                                };
                                proof {
                                    if i0 + 1 < toks.len() {
                                        assert(next.unwrap()@ == toks[i0 + 1]);
                                    }
                                }
                                match add_found_option(op, &router.options, &mut c, next) {
                                    Result::Err(e) => {
                                        proof {
                                            assert(spec_cli_from(*router, toks, i0, st0)
                                                == Result::<CliState, RouteError>::Err(
                                                RouteError::MissingOptionArgument,
                                            ));
                                        }
                                        return Result::Err(e);
                                    },
                                    Result::Ok(_) => {},
                                }
                                proof {
                                    assert(cli_abs(c, tree_index as int, terminated)
                                        =~= (CliState {
                                        occurrences: spec_bump(st0.occurrences, op as int),
                                        option_args: spec_record(
                                            opts,
                                            st0.option_args,
                                            st0.arg_ranges,
                                            st0.saved,
                                            op as int,
                                            toks[i0 + 1],
                                        ).0,
                                        arg_ranges: spec_record(
                                            opts,
                                            st0.option_args,
                                            st0.arg_ranges,
                                            st0.saved,
                                            op as int,
                                            toks[i0 + 1],
                                        ).1,
                                        saved: spec_record(
                                            opts,
                                            st0.option_args,
                                            st0.arg_ranges,
                                            st0.saved,
                                            op as int,
                                            toks[i0 + 1],
                                        ).2,
                                        ..st0
                                    }));
                                    assert(spec_cli_from(*router, toks, i0, st0) == spec_cli_from(
                                        *router,
                                        toks,
                                        i0 + 2,
                                        cli_abs(c, tree_index as int, terminated),
                                    ));
                                }
                                i = i + consumed;
                            }
                        },
                        Option::None => {
                            // Unrecognized long option: ignored.
                            proof {
                                assert(spec_cli_from(*router, toks, i0, st0) == spec_cli_from(
                                    *router,
                                    toks,
                                    i0 + 1,
                                    cli_abs(c, tree_index as int, terminated),
                                ));
                            }
                            i = i + 1;
                        },
                    }
                }
            } else {
                // A cluster of short option aliases.  A value-taking
                // short option is only legal as the last character.
                let mut pending: Option<usize> = Option::None;
                let mut k: usize = 1;
                while k < len
                    invariant
                        router.wf(),
                        opts == router.options@,
                        toks == str_views(args@),
                        i0 == i as int,
                        s@ == toks[i0],
                        1 <= k <= len,
                        len == s@.len(),
                        2 <= len,
                        toks[i0][0] == '-',
                        toks[i0][1] != '-',
                        i < args@.len(),
                        args@.len() + 1 <= u16::MAX,
                        !terminated,
                        st0.terminated == false,
                        st0.occurrences.len() == opts.len(),
                        spec_parse_cli(*router, toks) == spec_cli_from(*router, toks, i0, st0),
                        c.args_wf(opts),
                        c.option_occurrences@.len() == opts.len(),
                        c.selected < router.segments@.len(),
                        c.saved_args@.len() <= i,
                        c.arg_ranges@.len() <= i,
                        c.operands@.len() <= i,
                        c.path_params as int <= c.operands@.len(),
                        !terminated ==> c.operands_end == 0,
                        c.option_args@ == st0.option_args,
                        c.arg_ranges@ == st0.arg_ranges,
                        c.saved_views() == st0.saved,
                        c.operands@ == c.operands@,
                        str_views(c.operands@) == st0.operands,
                        c.selected as int == st0.selected,
                        c.operands_end as int == st0.operands_end,
                        c.path_params as int == st0.path_params,
                        pending is Some ==> pending.unwrap() < opts.len() && !(opts[
                            pending.unwrap() as int
                        ].kind is KeyOnly),
                        spec_cluster(*router, toks[i0], 1, st0.occurrences, Option::None)
                            == spec_cluster(
                            *router,
                            toks[i0],
                            k as int,
                            c.option_occurrences@,
                            if pending is Some {
                                Option::Some(pending.unwrap() as int)
                            } else {
                                Option::None
                            },
                        ),
                        forall|o: int|
                            0 <= o < opts.len() ==> (find_entry(c.option_args@, o) is Some
                                ==> c.option_occurrences@[o] > 0),
                        forall|o: int|
                            0 <= o < opts.len() && c.option_occurrences@[o] > 0 && !(
                            opts[o].kind is KeyOnly) ==> find_entry(c.option_args@, o) is Some,
                        forall|o: int|
                            0 <= o < opts.len() && opts[o].kind is Multiple
                                && c.option_occurrences@[o] < 255 ==> c.values_of(opts, o).len()
                                == c.option_occurrences@[o],
                    decreases len - k,
                {
                    let ghost pnow: Option<int> = if pending is Some {
                        Option::Some(pending.unwrap() as int)
                    } else {
                        Option::None
                    };
                    let ghost occnow = c.option_occurrences@;
                    let ch = s.get_char(k);
                    proof {
                        assert(toks[i0][k as int] == ch);
                    }
                    match find_short(router, ch) {
                        Option::Some(m) => {
                            let op = router.short_option_mappers[m].0 as usize;
                            let keyonly = match router.options[op].kind {
                                OptArgKind::KeyOnly => true,
                                _ => false,
                            };
                            if keyonly {
                                let ghost c0 = c;
                                let occ0 = c.option_occurrences[op];
                                if occ0 < 255 {
                                    c.option_occurrences[op] = occ0 + 1;
                                }
                                proof {
                                    lemma_args_wf_untouched(c0, c, opts);
                                    assert(c.option_occurrences@ =~= spec_bump(
                                        occnow,
                                        op as int,
                                    ));
                                    assert(spec_cluster(*router, toks[i0], k as int, occnow, pnow)
                                        == spec_cluster(
                                        *router,
                                        toks[i0],
                                        k + 1,
                                        c.option_occurrences@,
                                        pnow,
                                    ));
                                }
                            } else {
                                if k + 1 < len {
                                    // A value-taking short option
                                    // stands mid-cluster.
                                    proof {
                                        assert(spec_cluster(
                                            *router,
                                            toks[i0],
                                            k as int,
                                            occnow,
                                            pnow,
                                        ) == Result::<(Seq<u8>, Option<int>), RouteError>::Err(
                                            RouteError::AmbiguousShortOption,
                                        ));
                                        assert(spec_cluster(
                                            *router,
                                            toks[i0],
                                            1,
                                            st0.occurrences,
                                            Option::None,
                                        ) == Result::<(Seq<u8>, Option<int>), RouteError>::Err(
                                            RouteError::AmbiguousShortOption,
                                        ));
                                        assert(spec_cli_from(*router, toks, i0, st0)
                                            == Result::<CliState, RouteError>::Err(
                                            RouteError::AmbiguousShortOption,
                                        ));
                                    }
                                    return Result::Err(RouteError::AmbiguousShortOption);
                                }
                                pending = Option::Some(op);
                                proof {
                                    assert(spec_cluster(*router, toks[i0], k as int, occnow, pnow)
                                        == spec_cluster(
                                        *router,
                                        toks[i0],
                                        k + 1,
                                        c.option_occurrences@,
                                        Option::Some(op as int),
                                    ));
                                }
                            }
                        },
                        Option::None => {
                            // Unrecognized short alias: ignored.
                            proof {
                                assert(spec_cluster(*router, toks[i0], k as int, occnow, pnow)
                                    == spec_cluster(
                                    *router,
                                    toks[i0],
                                    k + 1,
                                    c.option_occurrences@,
                                    pnow,
                                ));
                            }
                        },
                    }
                    k = k + 1;
                }
                let ghost occ1 = c.option_occurrences@;
                let ghost pending1: Option<int> = if pending is Some {
                    Option::Some(pending.unwrap() as int)
                } else {
                    Option::None
                };
                proof {
                    assert(spec_cluster(*router, toks[i0], 1, st0.occurrences, Option::None)
                        == Result::<(Seq<u8>, Option<int>), RouteError>::Ok((occ1, pending1)));
                }
                match pending {
                    Option::Some(op) => {
                        let ghost c0 = c;
                        let occ0 = c.option_occurrences[op];
                        if occ0 < 255 {
                            c.option_occurrences[op] = occ0 + 1;
                        }
                        proof {
                            lemma_args_wf_untouched(c0, c, opts);
                            assert(c.option_occurrences@ =~= spec_bump(occ1, op as int));
                        }
                        let next: Option<String> = if i + 1 < args.len() {
                            Option::Some(args[i + 1].clone())
                        } else {
                            Option::None
                        };
                        let consumed: usize = if i + 1 < args.len() {
                            2
                        } else {
                            1
                        };
                        proof {
                            if i0 + 1 < toks.len() {
                                assert(next.unwrap()@ == toks[i0 + 1]);
                            }
                        }
                        match add_found_option(op, &router.options, &mut c, next) {
                            Result::Err(e) => {
                                proof {
                                    assert(spec_cli_from(*router, toks, i0, st0)
                                        == Result::<CliState, RouteError>::Err(
                                        RouteError::MissingOptionArgument,
                                    ));
                                }
                                return Result::Err(e);
                            },
                            Result::Ok(_) => {},
                        }
                        proof {
                            assert(cli_abs(c, tree_index as int, terminated) =~= (CliState {
                                occurrences: spec_bump(occ1, op as int),
                                option_args: spec_record(
                                    opts,
                                    st0.option_args,
                                    st0.arg_ranges,
                                    st0.saved,
                                    op as int,
                                    toks[i0 + 1],
                                ).0,
                                arg_ranges: spec_record(
                                    opts,
                                    st0.option_args,
                                    st0.arg_ranges,
                                    st0.saved,
                                    op as int,
                                    toks[i0 + 1],
                                ).1,
                                saved: spec_record(
                                    opts,
                                    st0.option_args,
                                    st0.arg_ranges,
                                    st0.saved,
                                    op as int,
                                    toks[i0 + 1],
                                ).2,
                                ..st0
                            }));
                            assert(spec_cli_from(*router, toks, i0, st0) == spec_cli_from(
                                *router,
                                toks,
                                i0 + 2,
                                cli_abs(c, tree_index as int, terminated),
                            ));
                        }
                        i = i + consumed;
                    },
                    Option::None => {
                        proof {
                            assert(cli_abs(c, tree_index as int, terminated) =~= (CliState {
                                occurrences: occ1,
                                ..st0
                            }));
                            assert(spec_cli_from(*router, toks, i0, st0) == spec_cli_from(
                                *router,
                                toks,
                                i0 + 1,
                                cli_abs(c, tree_index as int, terminated),
                            ));
                        }
                        i = i + 1;
                    },
                }
            }
        } else {
            // A segment name or an operand.
            let target = router.segments[c.selected as usize].operands;
            let cur: usize = c.operands.len() - c.path_params as usize;
            if target as usize != cur {
                // The selected segment still has unfilled (or
                // unbounded) operand slots.
                let ghost c0 = c;
                c.operands.push(arg.clone());
                proof {
                    lemma_args_wf_untouched(c0, c, opts);
                    assert(str_views(c.operands@) =~= st0.operands.push(toks[i0]));
                    assert(cli_abs(c, tree_index as int, terminated) =~= (CliState {
                        operands: st0.operands.push(toks[i0]),
                        ..st0
                    }));
                    assert(spec_cli_from(*router, toks, i0, st0) == spec_cli_from(
                        *router,
                        toks,
                        i0 + 1,
                        cli_abs(c, tree_index as int, terminated),
                    ));
                }
            } else {
                let d = descend(router, c.selected, tree_index, s);
                if d.matched {
                    let ghost c0 = c;
                    c.selected = d.selected;
                    tree_index = d.tree_index;
                    if d.wildcard {
                        if c.path_params < 255 {
                            c.path_params = c.path_params + 1;
                        }
                        c.operands.push(arg.clone());
                    }
                    proof {
                        lemma_args_wf_untouched(c0, c, opts);
                        if d.wildcard {
                            assert(str_views(c.operands@) =~= st0.operands.push(toks[i0]));
                            assert(cli_abs(c, tree_index as int, terminated) =~= (CliState {
                                selected: d.selected as int,
                                tree_index: d.selected as int + 1,
                                path_params: if st0.path_params < 255 {
                                    st0.path_params + 1
                                } else {
                                    st0.path_params
                                },
                                operands: st0.operands.push(toks[i0]),
                                ..st0
                            }));
                        } else {
                            assert(cli_abs(c, tree_index as int, terminated) =~= (CliState {
                                selected: d.selected as int,
                                tree_index: d.selected as int + 1,
                                ..st0
                            }));
                        }
                        assert(spec_cli_from(*router, toks, i0, st0) == spec_cli_from(
                            *router,
                            toks,
                            i0 + 1,
                            cli_abs(c, tree_index as int, terminated),
                        ));
                    }
                } else {
                    // Unrecognized segment name: ignored.
                    tree_index = d.tree_index;
                    proof {
                        assert(cli_abs(c, tree_index as int, terminated) =~= (CliState {
                            tree_index: if st0.tree_index >= st0.selected + router.tree@[
                                st0.selected
                            ].child_span + 1 {
                                st0.tree_index
                            } else {
                                st0.selected + router.tree@[st0.selected].child_span + 1
                            },
                            ..st0
                        }));
                        assert(spec_cli_from(*router, toks, i0, st0) == spec_cli_from(
                            *router,
                            toks,
                            i0 + 1,
                            cli_abs(c, tree_index as int, terminated),
                        ));
                    }
                }
            }
            i = i + 1;
        }
    }
    let ghost stx = cli_abs(c, tree_index as int, terminated);
    let ghost st1spec: CliState = if !terminated {
        CliState { operands_end: stx.operands.len() as int, ..stx }
    } else {
        stx
    };
    proof {
        assert(spec_cli_from(*router, toks, i as int, stx) == spec_cli_finish(*router, stx));
    }
    if !terminated {
        let ghost c0 = c;
        c.operands_end = c.operands.len() as u16;
        proof {
            lemma_args_wf_untouched(c0, c, opts);
        }
    }
    proof {
        assert(cli_abs(c, tree_index as int, terminated) =~= st1spec);
    }
    match validate_opt_groups(router, c.selected, &c.option_occurrences) {
        Result::Err(e) => {
            proof {
                assert(spec_cli_finish(*router, stx) == Result::<CliState, RouteError>::Err(e));
            }
            Result::Err(e)
        },
        Result::Ok(_) => {
            proof {
                assert(spec_cli_finish(*router, stx) == Result::<CliState, RouteError>::Ok(
                    st1spec,
                ));
                assert(spec_parse_cli(*router, toks) == Result::<CliState, RouteError>::Ok(
                    st1spec,
                ));
            }
            Result::Ok(c)
        },
    }
}

impl Router {
    /// Parses a CLI token sequence (the program name already
    /// stripped) against this routing table.
    pub fn parse(&self, args: Vec<String>) -> (r: Result<Context, RouteError>)
        requires
            self.wf(),
            options_sorted(*self),
            args@.len() + 1 <= u16::MAX,
        ensures
            match r {
                Result::Ok(c) => {
                    &&& spec_parse_cli(*self, str_views(args@)) is Ok
                    &&& c.selected as int == spec_parse_cli(
                        *self,
                        str_views(args@),
                    ).unwrap().selected
                    &&& c.option_occurrences@ == spec_parse_cli(
                        *self,
                        str_views(args@),
                    ).unwrap().occurrences
                    &&& c.option_args@ == spec_parse_cli(
                        *self,
                        str_views(args@),
                    ).unwrap().option_args
                    &&& c.arg_ranges@ == spec_parse_cli(
                        *self,
                        str_views(args@),
                    ).unwrap().arg_ranges
                    &&& c.saved_views() == spec_parse_cli(*self, str_views(args@)).unwrap().saved
                    &&& str_views(c.operands@) == spec_parse_cli(
                        *self,
                        str_views(args@),
                    ).unwrap().operands
                    &&& c.operands_end as int == spec_parse_cli(
                        *self,
                        str_views(args@),
                    ).unwrap().operands_end
                    &&& c.path_params as int == spec_parse_cli(
                        *self,
                        str_views(args@),
                    ).unwrap().path_params
                    &&& c.args_wf(self.options@)
                    &&& c.positions_wf()
                    &&& c.selected < self.segments@.len()
                    &&& c.option_occurrences@.len() == self.options@.len()
                    &&& groups_satisfied(
                        *self,
                        self.segments@[c.selected as int],
                        c.option_occurrences@,
                    )
                },
                Result::Err(e) => spec_parse_cli(*self, str_views(args@)) == Result::<
                    CliState,
                    RouteError,
                >::Err(e),
            },
    {
        parse_cli_route(self, args)
    }
}

/// Law: a `Single`-kind option holds at most one recorded value —
/// each occurrence overwrites the last in place — and exactly one
/// once it has a bookkeeping entry.
pub proof fn lemma_single_value_unique(c: Context, options: Seq<Opt>, o: int)
    requires
        c.args_wf(options),
        0 <= o < options.len(),
        options[o].kind is Single,
    ensures
        c.values_of(options, o).len() <= 1,
        find_entry(c.option_args@, o) is Some ==> c.values_of(options, o).len() == 1,
{
    lemma_find_entry_props(c.option_args@, o);
}

/// Law: no option's recorded value positions point into another
/// option's range — any two bookkeeping entries claim disjoint index
/// ranges of the shared value buffer.
pub proof fn lemma_claims_disjoint(c: Context, options: Seq<Opt>, j1: int, j2: int)
    requires
        c.args_wf(options),
        0 <= j1 < c.option_args@.len(),
        0 <= j2 < c.option_args@.len(),
        j1 != j2,
    ensures
        c.claim_hi(options, j1) <= c.claim_lo(options, j2) || c.claim_hi(options, j2)
            <= c.claim_lo(options, j1),
{
}

/// An iterator-like handle on one option's recorded values: the
/// half-open range of `saved_args` indices still to be read.
#[derive(Clone, Copy, Debug, PartialEq, Eq, Structural)]
pub struct Arg {
    pub start: u16,
    pub end: u16,
}

impl Arg {
    /// The next value, if one is left, advancing past it.
    pub fn value(&mut self, c: &Context) -> (r: Option<String>)
        requires
            old(self).end <= c.saved_args@.len(),
        ensures
            old(self).start >= old(self).end ==> r is None && *final(self) == *old(self),
            old(self).start < old(self).end ==> {
                &&& r is Some
                &&& r.unwrap()@ == c.saved_args@[old(self).start as int]@
                &&& final(self).start == old(self).start + 1
                &&& final(self).end == old(self).end
            },
    {
        if self.start >= self.end {
            return Option::None;
        }
        let v = c.saved_args[self.start as usize].clone();
        self.start = self.start + 1;
        Option::Some(v)
    }
}

impl Context {
    /// The range of `saved_args` holding one option's recorded
    /// values: empty when the option never occurred or is key-only,
    /// the single slot of a `Single` option, or the contiguous range
    /// of a `Multiple` option.
    pub fn opt(&self, router: &Router, option: usize) -> (r: Arg)
        requires
            self.args_wf(router.options@),
            option < router.options@.len(),
            router.options@.len() <= u16::MAX,
            self.saved_args@.len() <= u16::MAX,
            self.option_occurrences@.len() == router.options@.len(),
            self.option_occurrences@[option as int] > 0 && !(router.options@[
                option as int
            ].kind is KeyOnly) ==> find_entry(self.option_args@, option as int) is Some,
        ensures
            r.start <= r.end <= self.saved_args@.len(),
            (self.option_occurrences@[option as int] == 0 || router.options@[
                option as int
            ].kind is KeyOnly) ==> r.start == r.end,
            (self.option_occurrences@[option as int] > 0 && !(router.options@[
                option as int
            ].kind is KeyOnly)) ==> self.saved_views().subrange(r.start as int, r.end as int)
                == self.values_of(router.options@, option as int),
    {
        if self.option_occurrences[option] == 0 {
            return Arg { start: 0, end: 0 };
        }
        let keyonly = match router.options[option].kind {
            OptArgKind::KeyOnly => true,
            _ => false,
        };
        if keyonly {
            return Arg { start: 0, end: 0 };
        }
        let n = self.option_args.len();
        let mut j: usize = 0;
        let mut have: bool = false;
        while j < n && !have
            invariant
                n == self.option_args@.len(),
                j <= n,
                option < router.options@.len() <= u16::MAX,
                forall|k: int|
                    0 <= k < j ==> (#[trigger] self.option_args@[k]).0 as int != option as int,
                have ==> j < n && self.option_args@[j as int].0 as int == option as int,
            decreases n - j + if have {
                0int
            } else {
                1int
            },
        {
            if self.option_args[j].0 as usize == option {
                have = true;
            } else {
                j = j + 1;
            }
        }
        proof {
            if have {
                lemma_find_entry_first(self.option_args@, option as int, j as int);
            } else {
                lemma_find_entry_none(self.option_args@, option as int);
            }
            assert(have);
        }
        let pos = self.option_args[j].1;
        let multiple = match router.options[option].kind {
            OptArgKind::Multiple => true,
            _ => false,
        };
        if multiple {
            let rg = self.arg_ranges[pos as usize];
            proof {
                assert(self.saved_views().subrange(rg.start as int, rg.end as int)
                    == self.values_of(router.options@, option as int));
            }
            Arg { start: rg.start, end: rg.end }
        } else {
            proof {
                assert(self.saved_views().subrange(pos as int, pos as int + 1) =~= seq![
                    self.saved_args@[pos as int]@,
                ]);
            }
            Arg { start: pos, end: pos + 1 }
        }
    }
}

} // verus!
