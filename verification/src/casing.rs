//! Derives option names from identifiers: a CamelCase identifier
//! becomes a kebab-case option name ("SomeManyWords" to
//! "some-many-words"), or a sentence-case name when asked.

use vstd::prelude::*;
use vstd::string::StrSliceExecFns;

verus! {

/// Which case an option name derived from an identifier takes.
pub enum NameCase {
    Lower,
    Sentence,
}

/// What `char::is_uppercase` returns: a property of the character
/// alone.
pub uninterp spec fn char_is_upper(c: char) -> bool;

/// What `char::to_lowercase` yields: the character's lowercase
/// mapping, a function of the character alone.
pub uninterp spec fn char_lower(c: char) -> Seq<char>;

/// What `char::to_uppercase` yields: the character's uppercase
/// mapping, a function of the character alone.
pub uninterp spec fn char_upper(c: char) -> Seq<char>;

/// Relies on char::is_uppercase: whether the character has the
/// Uppercase property depends on the character alone.
#[verifier::external_body]
fn is_uppercase_char(c: char) -> (r: bool)
    ensures
        r == char_is_upper(c),
{
    c.is_uppercase()
}

/// Relies on char::to_lowercase: the lowercase mapping depends on the
/// character alone, and yields one or more characters.
#[verifier::external_body]
fn to_lowercase_chars(c: char) -> (r: Vec<char>)
    ensures
        r@ == char_lower(c),
        r@.len() >= 1,
{
    c.to_lowercase().collect()
}

/// Relies on char::to_uppercase: the uppercase mapping depends on the
/// character alone, and yields one or more characters.
#[verifier::external_body]
fn to_uppercase_chars(c: char) -> (r: Vec<char>)
    ensures
        r@ == char_upper(c),
        r@.len() >= 1,
{
    c.to_uppercase().collect()
}

/// Relies on String::push: appends exactly the one character.
#[verifier::external_body]
fn push_char(s: &mut String, c: char)
    ensures
        final(s)@ == old(s)@.push(c),
{
    s.push(c);
}

/// Appends every character of `v`.
fn push_chars(out: &mut String, v: &Vec<char>)
    ensures
        final(out)@ == old(out)@ + v@,
{
    let mut k: usize = 0;
    while k < v.len()
        invariant
            k <= v@.len(),
            out@ == old(out)@ + v@.subrange(0, k as int),
        decreases v@.len() - k,
    {
        push_char(out, v[k]);
        proof {
            assert(old(out)@ + v@.subrange(0, k as int) + seq![v@[k as int]] =~= old(out)@
                + v@.subrange(0, k + 1));
        }
        k = k + 1;
    }
    proof {
        assert(old(out)@ + v@.subrange(0, v@.len() as int) =~= old(out)@ + v@);
    }
}

/// The kebab rendering of `s` from position `i` on: each uppercase
/// character becomes its lowercase mapping, preceded by '-' unless it
/// stands first; every other character passes through.
pub open spec fn lower_case_from(s: Seq<char>, i: int) -> Seq<char>
    decreases s.len() - i,
{
    if i < 0 || i >= s.len() {
        Seq::empty()
    } else {
        (if char_is_upper(s[i]) {
            (if i > 0 {
                seq!['-']
            } else {
                Seq::<char>::empty()
            }) + char_lower(s[i])
        } else {
            seq![s[i]]
        }) + lower_case_from(s, i + 1)
    }
}

/// The sentence rendering of `s` from position `i` on: each uppercase
/// character becomes '-' followed by its lowercase mapping.
pub open spec fn sentence_case_from(s: Seq<char>, i: int) -> Seq<char>
    decreases s.len() - i,
{
    if i < 0 || i >= s.len() {
        Seq::empty()
    } else {
        (if char_is_upper(s[i]) {
            seq!['-'] + char_lower(s[i])
        } else {
            seq![s[i]]
        }) + sentence_case_from(s, i + 1)
    }
}

/// What `to_case` produces: kebab case, or sentence case with the
/// first character uppercased.
pub open spec fn spec_to_case(s: Seq<char>, case: NameCase) -> Seq<char> {
    match case {
        NameCase::Lower => lower_case_from(s, 0),
        NameCase::Sentence => if s.len() == 0 {
            Seq::empty()
        } else {
            char_upper(s[0]) + sentence_case_from(s, 1)
        },
    }
}

/// Converts an identifier to an option name in the requested case.
pub fn to_case(ident: &str, case: &NameCase) -> (r: String)
    ensures
        r@ == spec_to_case(ident@, *case),
{
    let n = ident.unicode_len();
    let mut out = String::new();
    match case {
        NameCase::Lower => {
            let mut i: usize = 0;
            while i < n
                invariant
                    i <= n,
                    n == ident@.len(),
                    lower_case_from(ident@, 0) == out@ + lower_case_from(ident@, i as int),
                decreases n - i,
            {
                let ghost out0 = out@;
                let ch = ident.get_char(i);
                if is_uppercase_char(ch) {
                    if i > 0 {
                        push_char(&mut out, '-');
                    }
                    let lows = to_lowercase_chars(ch);
                    push_chars(&mut out, &lows);
                    proof {
                        if i > 0 {
                            assert(out@ =~= out0 + (seq!['-'] + char_lower(ident@[i as int])));
                        } else {
                            assert(out@ =~= out0 + (Seq::<char>::empty() + char_lower(
                                ident@[i as int],
                            )));
                        }
                    }
                } else {
                    push_char(&mut out, ch);
                    proof {
                        assert(out@ =~= out0 + seq![ident@[i as int]]);
                    }
                }
                proof {
                    assert(lower_case_from(ident@, 0) == out@ + lower_case_from(
                        ident@,
                        i + 1,
                    )) by {
                        assert(out0 + (lower_case_from(ident@, i as int)) =~= out@
                            + lower_case_from(ident@, i + 1));
                    }
                }
                i = i + 1;
            }
            proof {
                assert(out@ + lower_case_from(ident@, n as int) =~= out@);
            }
        },
        NameCase::Sentence => {
            if n == 0 {
                return out;
            }
            let ups = to_uppercase_chars(ident.get_char(0));
            push_chars(&mut out, &ups);
            proof {
                assert(out@ =~= char_upper(ident@[0]));
            }
            let mut i: usize = 1;
            while i < n
                invariant
                    1 <= i <= n,
                    n == ident@.len(),
                    char_upper(ident@[0]) + sentence_case_from(ident@, 1) == out@
                        + sentence_case_from(ident@, i as int),
                decreases n - i,
            {
                let ghost out0 = out@;
                let ch = ident.get_char(i);
                if is_uppercase_char(ch) {
                    push_char(&mut out, '-');
                    let lows = to_lowercase_chars(ch);
                    push_chars(&mut out, &lows);
                    proof {
                        assert(out@ =~= out0 + (seq!['-'] + char_lower(ident@[i as int])));
                    }
                } else {
                    push_char(&mut out, ch);
                    proof {
                        assert(out@ =~= out0 + seq![ident@[i as int]]);
                    }
                }
                proof {
                    assert(char_upper(ident@[0]) + sentence_case_from(ident@, 1) == out@
                        + sentence_case_from(ident@, i + 1)) by {
                        assert(out0 + (sentence_case_from(ident@, i as int)) =~= out@
                            + sentence_case_from(ident@, i + 1));
                    }
                }
                i = i + 1;
            }
            proof {
                assert(out@ + sentence_case_from(ident@, n as int) =~= out@);
            }
        },
    }
    out
}

} // verus!
