//! The URI parser: a byte-level state machine over the scheme and
//! authority components, and a path/query matcher that reuses the
//! CLI parser's tree walk.

use crate::cli::{descend, scan_option, spec_bump, spec_descend, spec_find_option};
use crate::{Context, Router, RouteError};
use vstd::prelude::*;
use vstd::string::{StrSliceExecFns, StringSliceAdditionalSpecFns};

verus! {

/// The states of the scheme/authority scanner.
pub enum URIState {
    Scheme,
    Ipv6,
    User,
    Host,
    Port,
}

/// Each field is the byte length of its component in the source
/// string; the caller computes offsets by summing the lengths of the
/// preceding components and their separators.  "https://example.com"
/// has `scheme_len == 5` and `host_len == 11`, and "example.com"
/// starts at `scheme_len + 3` (past the "://").
#[derive(Clone, Copy, Debug, PartialEq, Eq, Structural)]
pub struct URIAuthorityLengths {
    pub scheme_len: u8,
    pub user_len: u8,
    pub host_len: u8,
    pub port_len: u8,
}

/// End-of-input resolution: a still-open state takes the remaining
/// byte count as its final length.  A user or port scan that began
/// without a "//" after the scheme was really scanning an opaque
/// remainder, so the host length falls back to zero.
pub open spec fn auth_finish(
    src: Seq<u8>,
    start: int,
    st: URIState,
    sl: int,
    ul: int,
    hl: int,
    pl: int,
) -> (int, int, int, int) {
    match st {
        URIState::User => {
            if src[sl + 1] != 47 {
                (sl, ul, 0, pl)
            } else {
                (sl, ul, src.len() - start, pl)
            }
        },
        URIState::Host => (sl, ul, src.len() - start, pl),
        URIState::Port => {
            if src[sl + 1] != 47 {
                (sl, ul, 0, pl)
            } else {
                (sl, ul, hl, src.len() - start)
            }
        },
        _ => (sl, ul, hl, pl),
    }
}

/// One pass of the scheme/authority machine from position `i` in
/// state `st`, with `start` the first byte of the component being
/// scanned and `(sl, ul, hl, pl)` the lengths fixed so far.  Bytes:
/// ':' is 58, '/' 47, '[' 91, ']' 93, '@' 64, '?' 63, '#' 35.
pub open spec fn auth_scan(
    src: Seq<u8>,
    i: int,
    start: int,
    st: URIState,
    sl: int,
    ul: int,
    hl: int,
    pl: int,
) -> (int, int, int, int)
    decreases src.len() - i,
{
    if i < 0 || i >= src.len() {
        auth_finish(src, start, st, sl, ul, hl, pl)
    } else {
        match st {
            URIState::Scheme => {
                if src[i] == 58 && i + 2 < src.len() {
                    if src[i + 1] == 47 {
                        if src[i + 2] == 47 {
                            if i + 3 < src.len() && src[i + 3] == 91 {
                                auth_scan(src, i + 3, i + 3, URIState::Ipv6, i, ul, hl, pl)
                            } else {
                                auth_scan(src, i + 3, i + 3, URIState::User, i, ul, hl, pl)
                            }
                        } else {
                            auth_scan(src, i + 1, start, URIState::User, i, ul, hl, pl)
                        }
                    } else {
                        auth_scan(src, i + 1, i + 1, URIState::User, i, ul, hl, pl)
                    }
                } else if src[i] == 47 {
                    (sl, ul, hl, pl)
                } else {
                    auth_scan(src, i + 1, start, URIState::Scheme, sl, ul, hl, pl)
                }
            },
            URIState::Ipv6 => {
                if src[i] == 93 {
                    auth_scan(src, i + 1, start, URIState::Host, sl, ul, hl, pl)
                } else {
                    auth_scan(src, i + 1, start, URIState::Ipv6, sl, ul, hl, pl)
                }
            },
            URIState::User => {
                if src[i] == 64 {
                    auth_scan(src, i + 1, i + 1, URIState::Host, sl, i - start, hl, pl)
                } else if src[i] == 58 {
                    auth_scan(src, i + 1, i + 1, URIState::Port, sl, ul, i - start, pl)
                } else if src[i] == 47 {
                    (sl, ul, i - start, pl)
                } else {
                    auth_scan(src, i + 1, start, URIState::User, sl, ul, hl, pl)
                }
            },
            URIState::Host => {
                if src[i] == 58 {
                    auth_scan(src, i + 1, i + 1, URIState::Port, sl, ul, i - start, pl)
                } else if src[i] == 47 {
                    (sl, ul, i - start, pl)
                } else {
                    auth_scan(src, i + 1, start, URIState::Host, sl, ul, hl, pl)
                }
            },
            URIState::Port => {
                if src[i] == 47 || src[i] == 63 || src[i] == 35 {
                    (sl, ul, hl, i - start)
                } else if src[i] == 58 {
                    auth_scan(
                        src,
                        i + 1,
                        start,
                        URIState::Port,
                        sl,
                        ul,
                        if hl + (i - start) > 255 {
                            255
                        } else {
                            hl + (i - start)
                        },
                        pl,
                    )
                } else {
                    auth_scan(src, i + 1, start, URIState::Port, sl, ul, hl, pl)
                }
            },
        }
    }
}

/// The four byte lengths the authority scanner yields on a source.
pub open spec fn spec_uri_authority(src: Seq<u8>) -> (int, int, int, int) {
    auth_scan(src, 0, 0, URIState::Scheme, 0, 0, 0, 0)
}

/// Parses a URI up to its authority component, leaving everything
/// after it unparsed: the result is exactly what the state machine
/// `spec_uri_authority` computes.  No content is copied or validated.
pub fn parse_uri_scheme_and_authority(source: &[u8]) -> (r: URIAuthorityLengths)
    requires
        source@.len() <= 255,
    ensures
        (r.scheme_len as int, r.user_len as int, r.host_len as int, r.port_len as int)
            == spec_uri_authority(source@),
{
    let n = source.len();
    let mut i: usize = 0;
    let mut start: usize = 0;
    let mut st = URIState::Scheme;
    let mut sl: usize = 0;
    let mut ul: usize = 0;
    let mut hl: usize = 0;
    let mut pl: usize = 0;
    while i < n
        invariant
            n == source@.len() <= 255,
            i <= n,
            start <= i,
            start <= n,
            sl <= 255,
            ul <= 255,
            hl <= 255,
            pl <= 255,
            !(st is Scheme) && !(st is Ipv6) ==> sl + 2 < n,
            st is Ipv6 ==> sl + 2 < n,
            spec_uri_authority(source@) == auth_scan(
                source@,
                i as int,
                start as int,
                st,
                sl as int,
                ul as int,
                hl as int,
                pl as int,
            ),
        decreases n - i,
    {
        let b = source[i];
        match st {
            URIState::Scheme => {
                if b == 58 && i + 2 < n {
                    sl = i;
                    if source[i + 1] == 47 {
                        if source[i + 2] == 47 {
                            if i + 3 < n && source[i + 3] == 91 {
                                st = URIState::Ipv6;
                            } else {
                                st = URIState::User;
                            }
                            start = i + 3;
                            i = start;
                        } else {
                            st = URIState::User;
                            i = i + 1;
                        }
                    } else {
                        st = URIState::User;
                        start = i + 1;
                        i = i + 1;
                    }
                } else if b == 47 {
                    return URIAuthorityLengths {
                        scheme_len: sl as u8,
                        user_len: ul as u8,
                        host_len: hl as u8,
                        port_len: pl as u8,
                    };
                } else {
                    i = i + 1;
                }
            },
            URIState::Ipv6 => {
                if b == 93 {
                    st = URIState::Host;
                }
                i = i + 1;
            },
            URIState::User => {
                if b == 64 {
                    ul = i - start;
                    st = URIState::Host;
                    start = i + 1;
                    i = i + 1;
                } else if b == 58 {
                    hl = i - start;
                    st = URIState::Port;
                    start = i + 1;
                    i = i + 1;
                } else if b == 47 {
                    hl = i - start;
                    return URIAuthorityLengths {
                        scheme_len: sl as u8,
                        user_len: ul as u8,
                        host_len: hl as u8,
                        port_len: pl as u8,
                    };
                } else {
                    i = i + 1;
                }
            },
            URIState::Host => {
                if b == 58 {
                    hl = i - start;
                    st = URIState::Port;
                    start = i + 1;
                    i = i + 1;
                } else if b == 47 {
                    hl = i - start;
                    return URIAuthorityLengths {
                        scheme_len: sl as u8,
                        user_len: ul as u8,
                        host_len: hl as u8,
                        port_len: pl as u8,
                    };
                } else {
                    i = i + 1;
                }
            },
            URIState::Port => {
                if b == 47 || b == 63 || b == 35 {
                    pl = i - start;
                    return URIAuthorityLengths {
                        scheme_len: sl as u8,
                        user_len: ul as u8,
                        host_len: hl as u8,
                        port_len: pl as u8,
                    };
                } else if b == 58 {
                    hl = if hl + (i - start) > 255 {
                        255
                    } else {
                        hl + (i - start)
                    };
                    i = i + 1;
                } else {
                    i = i + 1;
                }
            },
        }
    }
    // End of input: resolve any still-open state.
    match st {
        URIState::User => {
            if source[sl + 1] != 47 {
                hl = 0;
            } else {
                hl = n - start;
            }
        },
        URIState::Host => {
            hl = n - start;
        },
        URIState::Port => {
            if source[sl + 1] != 47 {
                hl = 0;
            } else {
                pl = n - start;
            }
        },
        _ => {},
    }
    URIAuthorityLengths {
        scheme_len: sl as u8,
        user_len: ul as u8,
        host_len: hl as u8,
        port_len: pl as u8,
    }
}


/// The bytes of an ASCII string, character for character.
pub open spec fn ascii_bytes(s: Seq<char>) -> Seq<u8> {
    Seq::new(s.len(), |k: int| s[k] as u8)
}

/// The path walk from character `index` on, `start` marking the first
/// character of the component being assembled: at each separator the
/// component tries to descend the tree, a '/' continues with the next
/// component, and anything else — end of input, '?', '#', an empty
/// component, or an exhausted walk — stops.  Yields the selected
/// segment and the position where path matching stopped.
pub open spec fn spec_uri_walk(
    router: Router,
    s: Seq<char>,
    index: int,
    start: int,
    tree_index: int,
    selected: int,
) -> (int, int)
    decreases s.len() - index,
{
    if index < 0 || start < 0 || start > index || index > s.len() || start >= s.len() {
        (selected, index)
    } else if index == s.len() || s[index] == '/' || s[index] == '?' || s[index] == '#' {
        if start == index {
            (selected, index)
        } else {
            let comp = s.subrange(start, index);
            let end = selected + router.tree@[selected].child_span + 1;
            match spec_descend(router, comp, tree_index, end) {
                Some((x, w)) => {
                    if index == s.len() || s[index] != '/' {
                        (x, index)
                    } else {
                        spec_uri_walk(router, s, index + 1, index + 1, x + 1, x)
                    }
                },
                None => {
                    let ti = if tree_index >= end {
                        tree_index
                    } else {
                        end
                    };
                    if index == s.len() || s[index] != '/' {
                        (selected, index)
                    } else {
                        spec_uri_walk(router, s, index + 1, start, ti, selected)
                    }
                },
            }
        }
    } else {
        spec_uri_walk(router, s, index + 1, start, tree_index, selected)
    }
}

/// One query parameter counted: the name (up to its first '=', or
/// whole) is looked up and its occurrence bumped; unknown names count
/// nothing.
pub open spec fn spec_query_bump(
    router: Router,
    s: Seq<char>,
    start: int,
    stop: int,
    eq: int,
    occ: Seq<u8>,
) -> Seq<u8> {
    let name = if eq > 0 {
        s.subrange(start, start + eq)
    } else {
        s.subrange(start, stop)
    };
    match spec_find_option(router, name, 0) {
        Some(o) => spec_bump(occ, o),
        None => occ,
    }
}

/// The query scan from character `index` on: parameters split on '&',
/// names split on their first '=', a '#' ends the scan after the
/// pending parameter, and end of input counts the pending parameter
/// when one is open.
pub open spec fn spec_uri_query(
    router: Router,
    s: Seq<char>,
    index: int,
    start: int,
    eq: int,
    occ: Seq<u8>,
) -> Seq<u8>
    decreases s.len() - index,
{
    if index < 0 || start < 0 || start > index || index > s.len() {
        occ
    } else if index >= s.len() || s[index] == '#' {
        if start < s.len() {
            spec_query_bump(router, s, start, index, eq, occ)
        } else {
            occ
        }
    } else if s[index] == '&' {
        spec_uri_query(
            router,
            s,
            index + 1,
            index + 1,
            0,
            spec_query_bump(router, s, start, index, eq, occ),
        )
    } else if s[index] == '=' {
        spec_uri_query(
            router,
            s,
            index + 1,
            start,
            if eq == 0 {
                index - start
            } else {
                eq
            },
            occ,
        )
    } else {
        spec_uri_query(router, s, index + 1, start, eq, occ)
    }
}

/// What follows the path walk: no '?' at the stop position means no
/// query, otherwise the query scan counts parameter occurrences.
pub open spec fn spec_uri_tail(router: Router, s: Seq<char>, sel: int, ix: int) -> (int, Seq<u8>) {
    let zeros = Seq::new(router.options@.len(), |k: int| 0u8);
    if ix >= s.len() || ix < 0 || s[ix] != '?' {
        (sel, zeros)
    } else {
        (sel, spec_uri_query(router, s, ix + 1, ix + 1, 0, zeros))
    }
}

/// The segment a URI selects and the option occurrences its query
/// yields, as a function of its characters: the authority machine
/// fixes where the path starts, the shared tree walk matches its
/// components, and the query is counted.
pub open spec fn spec_uri_route(router: Router, s: Seq<char>) -> (int, Seq<u8>) {
    let zeros = Seq::new(router.options@.len(), |k: int| 0u8);
    let lens = spec_uri_authority(ascii_bytes(s));
    let base = lens.0 + 3 + (if lens.1 > 0 {
        lens.1 + 1
    } else {
        0
    }) + lens.2 + (if lens.3 > 0 {
        lens.3 + 1
    } else {
        0
    });
    if base >= s.len() {
        (0, zeros)
    } else {
        let index0 = if s[base] == '/' {
            base + 1
        } else {
            base
        };
        let (sel, ix) = spec_uri_walk(router, s, index0, index0, 1, 0);
        spec_uri_tail(router, s, sel, ix)
    }
}

/// Parses one URI against the routing tree: the scheme and authority
/// are scanned generically, the path components are matched against
/// the tree exactly as CLI tokens are (exact name or wildcard,
/// sibling skips on a miss), query parameters are counted as option
/// occurrences (their values are not stored), and a '#' fragment ends
/// all parsing.  A URI never fails to route: unrecognized segments
/// and options are ignored, and the context's option-value
/// bookkeeping comes back empty.
///
/// The source must be ASCII: RFC 3986 URIs are, with anything beyond
/// ASCII percent-encoded, and the authority model's byte lengths
/// equal character positions only then.
pub fn parse_uri_route(router: &Router, route: &str) -> (r: Result<Context, RouteError>)
    requires
        router.wf(),
        route@.len() <= 255,
        route.is_ascii(),
    ensures
        r is Ok,
        match r {
            Result::Ok(c) => {
                &&& c.selected as int == spec_uri_route(*router, route@).0
                &&& c.option_occurrences@ == spec_uri_route(*router, route@).1
                &&& c.args_wf(router.options@)
                &&& c.positions_wf()
                &&& c.selected < router.segments@.len()
                &&& c.option_occurrences@.len() == router.options@.len()
                &&& c.saved_args@.len() == 0
                &&& c.option_args@.len() == 0
                &&& c.arg_ranges@.len() == 0
                &&& c.operands@.len() == 0
            },
            Result::Err(_) => false,
        },
{
    let ghost opts = router.options@;
    let ghost s_v = route@;
    let ghost target = spec_uri_route(*router, route@);
    let ghost zeros = Seq::new(router.options@.len(), |k: int| 0u8);
    let mut occurrences: Vec<u8> = Vec::new();
    while occurrences.len() < router.options.len()
        invariant
            occurrences@.len() <= router.options@.len(),
            forall|o: int| 0 <= o < occurrences@.len() ==> occurrences@[o] == 0,
        decreases router.options@.len() - occurrences@.len(),
    {
        occurrences.push(0);
    }
    let mut c = Context {
        operands: Vec::new(),
        saved_args: Vec::new(),
        option_args: Vec::new(),
        arg_ranges: Vec::new(),
        option_occurrences: occurrences,
        selected: 0,
        operands_end: 0,
        path_params: 0,
    };
    proof {
        assert(c.option_occurrences@ =~= zeros);
        assert forall|o: int| true implies crate::find_entry(c.option_args@, o) is None by {
            crate::cli::lemma_find_entry_props(c.option_args@, o);
        }
        assert(c.args_wf(opts));
    }
    let rlen = route.unicode_len();
    proof {
        vstd::string::is_ascii_spec_bytes(route);
        assert(route.spec_bytes() =~= ascii_bytes(route@));
    }
    let lengths = parse_uri_scheme_and_authority(route.as_bytes());

    let mut index: usize = lengths.scheme_len as usize + 3;
    if lengths.user_len > 0 {
        index = index + lengths.user_len as usize + 1;
    }
    index = index + lengths.host_len as usize;
    if lengths.port_len > 0 {
        index = index + lengths.port_len as usize + 1;
    }
    if index >= rlen {
        proof {
            assert(target == (0int, zeros));
        }
        return Result::Ok(c);
    }
    if route.get_char(index) == '/' {
        index = index + 1;
    }

    // Path components, matched by the shared tree walk.
    let ghost index0 = index as int;
    let mut tree_index: u16 = 1;
    let mut start: usize = index;
    let mut pdone: bool = false;
    proof {
        assert(target == spec_uri_tail(
            *router,
            s_v,
            spec_uri_walk(*router, s_v, index0, index0, 1, 0).0,
            spec_uri_walk(*router, s_v, index0, index0, 1, 0).1,
        ));
    }
    while !pdone && start < rlen
        invariant
            router.wf(),
            opts == router.options@,
            s_v == route@,
            zeros == Seq::new(router.options@.len(), |k: int| 0u8),
            rlen == route@.len() <= 255,
            start <= index,
            index <= rlen,
            c.selected < router.segments@.len(),
            tree_index <= router.tree@.len(),
            c.option_occurrences@ == zeros,
            c.option_occurrences@.len() == opts.len(),
            c.saved_args@.len() == 0,
            c.option_args@.len() == 0,
            c.arg_ranges@.len() == 0,
            c.operands@.len() == 0,
            c.operands_end == 0,
            c.path_params == 0,
            c.args_wf(opts),
            target == spec_uri_route(*router, route@),
            !pdone ==> target == spec_uri_tail(
                *router,
                s_v,
                spec_uri_walk(
                    *router,
                    s_v,
                    index as int,
                    start as int,
                    tree_index as int,
                    c.selected as int,
                ).0,
                spec_uri_walk(
                    *router,
                    s_v,
                    index as int,
                    start as int,
                    tree_index as int,
                    c.selected as int,
                ).1,
            ),
            pdone ==> target == spec_uri_tail(*router, s_v, c.selected as int, index as int),
        decreases rlen - index + if pdone {
            0int
        } else {
            1int
        },
    {
        let ghost sel0 = c.selected as int;
        let ghost ti0 = tree_index as int;
        let ghost start0 = start as int;
        let ghost idx0 = index as int;
        let sep = index == rlen || route.get_char(index) == '/' || route.get_char(index) == '?'
            || route.get_char(index) == '#';
        if sep {
            if start == index {
                pdone = true;
                proof {
                    assert(spec_uri_walk(*router, s_v, idx0, start0, ti0, sel0) == (sel0, idx0));
                }
            } else {
                let comp = route.substring_char(start, index);
                proof {
                    assert(comp@ == s_v.subrange(start as int, index as int));
                }
                let d = descend(router, c.selected, tree_index, comp);
                if d.matched {
                    c.selected = d.selected;
                    tree_index = d.tree_index;
                    if index == rlen {
                        proof {
                            assert(spec_uri_walk(*router, s_v, idx0, start0, ti0, sel0) == (
                                d.selected as int,
                                idx0,
                            ));
                            assert(target == spec_uri_tail(
                                *router,
                                s_v,
                                c.selected as int,
                                index as int,
                            ));
                            assert(target == (c.selected as int, zeros));
                        }
                        return Result::Ok(c);
                    }
                    if route.get_char(index) != '/' {
                        proof {
                            assert(spec_uri_walk(*router, s_v, idx0, start0, ti0, sel0) == (
                                d.selected as int,
                                idx0,
                            ));
                        }
                        pdone = true;
                        if start > index {
                            start = index;
                        }
                    } else {
                        proof {
                            assert(spec_uri_walk(*router, s_v, idx0, start0, ti0, sel0)
                                == spec_uri_walk(
                                *router,
                                s_v,
                                idx0 + 1,
                                idx0 + 1,
                                d.selected as int + 1,
                                d.selected as int,
                            ));
                        }
                        index = index + 1;
                        start = index;
                    }
                } else {
                    tree_index = d.tree_index;
                    if index == rlen {
                        proof {
                            assert(spec_uri_walk(*router, s_v, idx0, start0, ti0, sel0) == (
                                sel0,
                                idx0,
                            ));
                            assert(target == spec_uri_tail(
                                *router,
                                s_v,
                                c.selected as int,
                                index as int,
                            ));
                            assert(target == (c.selected as int, zeros));
                        }
                        return Result::Ok(c);
                    }
                    if route.get_char(index) != '/' {
                        proof {
                            assert(spec_uri_walk(*router, s_v, idx0, start0, ti0, sel0) == (
                                sel0,
                                idx0,
                            ));
                        }
                        pdone = true;
                    } else {
                        proof {
                            assert(spec_uri_walk(*router, s_v, idx0, start0, ti0, sel0)
                                == spec_uri_walk(
                                *router,
                                s_v,
                                idx0 + 1,
                                start0,
                                tree_index as int,
                                sel0,
                            ));
                        }
                        index = index + 1;
                    }
                }
            }
        } else {
            proof {
                assert(spec_uri_walk(*router, s_v, idx0, start0, ti0, sel0) == spec_uri_walk(
                    *router,
                    s_v,
                    idx0 + 1,
                    start0,
                    ti0,
                    sel0,
                ));
            }
            index = index + 1;
        }
    }
    proof {
        if !pdone {
            assert(target == spec_uri_tail(*router, s_v, c.selected as int, index as int));
        }
    }

    // A query string maps its parameter names to option occurrences;
    // a fragment is discarded.
    if index >= rlen || route.get_char(index) != '?' {
        proof {
            assert(target == (c.selected as int, zeros));
        }
        return Result::Ok(c);
    }
    let ghost sel_fin = c.selected as int;
    proof {
        assert(target == (sel_fin, spec_uri_query(
            *router,
            s_v,
            index as int + 1,
            index as int + 1,
            0,
            zeros,
        )));
    }
    index = index + 1;
    let mut start2: usize = index;
    let mut equal_sign: usize = 0;
    let mut qdone: bool = false;
    while !qdone && index < rlen
        invariant
            router.wf(),
            opts == router.options@,
            s_v == route@,
            rlen == route@.len() <= 255,
            start2 <= index,
            index <= rlen,
            equal_sign == 0 || start2 + equal_sign <= index,
            c.selected as int == sel_fin,
            c.selected < router.segments@.len(),
            c.option_occurrences@.len() == opts.len(),
            c.saved_args@.len() == 0,
            c.option_args@.len() == 0,
            c.arg_ranges@.len() == 0,
            c.operands@.len() == 0,
            c.operands_end == 0,
            c.path_params == 0,
            c.args_wf(opts),
            target.0 == sel_fin,
            target.1 == spec_uri_query(
                *router,
                s_v,
                index as int,
                start2 as int,
                equal_sign as int,
                c.option_occurrences@,
            ),
            qdone ==> index < rlen && s_v[index as int] == '#',
        decreases rlen - index + if qdone {
            0int
        } else {
            1int
        },
    {
        let ch = route.get_char(index);
        if ch == '&' {
            let name = if equal_sign > 0 {
                route.substring_char(start2, start2 + equal_sign)
            } else {
                route.substring_char(start2, index)
            };
            let ghost occ0 = c.option_occurrences@;
            match scan_option(router, name) {
                Option::Some(o) => {
                    let cur = c.option_occurrences[o];
                    if cur < 255 {
                        c.option_occurrences[o] = cur + 1;
                    }
                    proof {
                        assert(c.option_occurrences@ =~= spec_bump(occ0, o as int));
                    }
                },
                Option::None => {},
            }
            proof {
                assert(c.option_occurrences@ == spec_query_bump(
                    *router,
                    s_v,
                    start2 as int,
                    index as int,
                    equal_sign as int,
                    occ0,
                ));
            }
            equal_sign = 0;
            start2 = index + 1;
            index = index + 1;
        } else if ch == '#' {
            qdone = true;
        } else if ch == '=' {
            if equal_sign == 0 {
                equal_sign = index - start2;
            }
            index = index + 1;
        } else {
            index = index + 1;
        }
    }
    if start2 < rlen {
        let name = if equal_sign > 0 {
            route.substring_char(start2, start2 + equal_sign)
        } else {
            route.substring_char(start2, index)
        };
        let ghost occ0 = c.option_occurrences@;
        match scan_option(router, name) {
            Option::Some(o) => {
                let cur = c.option_occurrences[o];
                if cur < 255 {
                    c.option_occurrences[o] = cur + 1;
                }
                proof {
                    assert(c.option_occurrences@ =~= spec_bump(occ0, o as int));
                }
            },
            Option::None => {},
        }
        proof {
            assert(c.option_occurrences@ == spec_query_bump(
                *router,
                s_v,
                start2 as int,
                index as int,
                equal_sign as int,
                occ0,
            ));
            assert(target.1 == c.option_occurrences@);
        }
    } else {
        proof {
            assert(target.1 == c.option_occurrences@);
        }
    }
    Result::Ok(c)
}

} // verus!
