//! SQL identifier text: the shape of bare and quoted identifiers, dotted
//! identifier chains (`"a"."b"."c"`), and the identifier tokens occurring in
//! an expression. Quoted identifiers may escape an inner quote by doubling
//! it; single-quoted string literals are opaque.

use vstd::prelude::*;
use vstd::string::StrSliceExecFns;

use crate::text::push_char;

verus! {

/// A character that may start a bare identifier: an ASCII letter or `'_'`.
pub open spec fn is_ident_start(c: char) -> bool {
    let u = c as u32;
    (97 <= u <= 122)  // 'a' ..= 'z'
     || (65 <= u <= 90)  // 'A' ..= 'Z'
     || u == 95  // '_'

}

/// A character that may continue a bare identifier: start characters and
/// ASCII digits.
pub open spec fn is_ident_char(c: char) -> bool {
    is_ident_start(c) || (48 <= c as u32 <= 57)  // '0' ..= '9'

}

/// A lower-case bare identifier: `^[a-z_][a-z0-9_]*$`.
pub open spec fn is_lower_ident(s: Seq<char>) -> bool {
    let u0 = s[0] as u32;
    &&& s.len() > 0
    &&& ((97 <= u0 <= 122) || u0 == 95)
    &&& forall|i: int|
        0 <= i < s.len() ==> {
            let u = #[trigger] s[i] as u32;
            (97 <= u <= 122) || u == 95 || (48 <= u <= 57)
        }
}

/// A bare identifier of either case: `^[A-Za-z_][A-Za-z0-9_]*$`.
pub open spec fn is_basic_ident(s: Seq<char>) -> bool {
    &&& s.len() > 0
    &&& is_ident_start(s[0])
    &&& forall|i: int| 0 <= i < s.len() ==> is_ident_char(#[trigger] s[i])
}

/// First position at or after `i` that cannot continue a bare identifier.
pub open spec fn bare_end(s: Seq<char>, i: int) -> int
    decreases s.len() - i,
{
    if 0 <= i < s.len() && is_ident_char(s[i]) {
        bare_end(s, i + 1)
    } else {
        i
    }
}

pub proof fn lemma_bare_end(s: Seq<char>, i: int)
    requires
        0 <= i <= s.len(),
    ensures
        i <= bare_end(s, i) <= s.len(),
    decreases s.len() - i,
{
    if i < s.len() && is_ident_char(s[i]) {
        lemma_bare_end(s, i + 1);
    }
}

/// Reads a quoted identifier body starting at `i` (just after the opening
/// quote): `Some((j, v))` means the identifier closes before `j` and denotes
/// the characters `v`, a doubled quote standing for one quote; `None` means
/// the quote never closes.
pub open spec fn parse_quoted(s: Seq<char>, i: int, acc: Seq<char>) -> Option<(int, Seq<char>)>
    decreases s.len() - i,
{
    if i < 0 || i >= s.len() {
        None
    } else if s[i] == '"' {
        if i + 1 < s.len() && s[i + 1] == '"' {
            parse_quoted(s, i + 2, acc.push('"'))
        } else {
            Some((i + 1, acc))
        }
    } else {
        parse_quoted(s, i + 1, acc.push(s[i]))
    }
}

pub proof fn lemma_parse_quoted_bounds(s: Seq<char>, i: int, acc: Seq<char>)
    requires
        0 <= i,
    ensures
        parse_quoted(s, i, acc) matches Some((j, _v)) ==> i < j <= s.len(),
    decreases s.len() - i,
{
    if i < s.len() {
        if s[i] == '"' {
            if i + 1 < s.len() && s[i + 1] == '"' {
                lemma_parse_quoted_bounds(s, i + 2, acc.push('"'));
            }
        } else {
            lemma_parse_quoted_bounds(s, i + 1, acc.push(s[i]));
        }
    }
}

/// Reads one chain part at `i`: a quoted identifier or a bare identifier.
/// `Some((j, v))` means the part ends before `j` and denotes `v`.
pub open spec fn parse_part(s: Seq<char>, i: int) -> Option<(int, Seq<char>)> {
    if 0 <= i < s.len() && s[i] == '"' {
        parse_quoted(s, i + 1, Seq::<char>::empty())
    } else if 0 <= i < s.len() && is_ident_start(s[i]) {
        Some((bare_end(s, i + 1), s.subrange(i, bare_end(s, i + 1))))
    } else {
        None
    }
}

pub proof fn lemma_parse_part_bounds(s: Seq<char>, i: int)
    requires
        0 <= i,
    ensures
        parse_part(s, i) matches Some((j, _v)) ==> i < j <= s.len(),
{
    if i < s.len() && s[i] == '"' {
        lemma_parse_quoted_bounds(s, i + 1, Seq::<char>::empty());
    } else if i < s.len() && is_ident_start(s[i]) {
        lemma_bare_end(s, i + 1);
    }
}

/// The whole of `s` from `i` on is a dotted identifier chain exactly when
/// this returns `Some`, and the value is the chain's final identifier.
pub open spec fn parse_chain(s: Seq<char>, i: int) -> Option<Seq<char>>
    decreases s.len() - i,
{
    match parse_part(s, i) {
        None => None,
        Some((j, v)) => if j >= s.len() {
            Some(v)
        } else if i < j && s[j] == '.' {
            parse_chain(s, j + 1)
        } else {
            None
        },
    }
}

/// Skips a single-quoted SQL string literal whose body starts at `i`:
/// `Some(j)` is the position just after the closing quote, a doubled quote
/// standing for one quote inside the literal.
pub open spec fn skip_string_literal(s: Seq<char>, i: int) -> Option<int>
    decreases s.len() - i,
{
    if i < 0 || i >= s.len() {
        None
    } else if s[i] == '\'' {
        if i + 1 < s.len() && s[i + 1] == '\'' {
            skip_string_literal(s, i + 2)
        } else {
            Some(i + 1)
        }
    } else {
        skip_string_literal(s, i + 1)
    }
}

pub proof fn lemma_skip_string_literal_bounds(s: Seq<char>, i: int)
    requires
        0 <= i,
    ensures
        skip_string_literal(s, i) matches Some(j) ==> i < j <= s.len(),
    decreases s.len() - i,
{
    if i < s.len() {
        if s[i] == '\'' {
            if i + 1 < s.len() && s[i + 1] == '\'' {
                lemma_skip_string_literal_bounds(s, i + 2);
            }
        } else {
            lemma_skip_string_literal_bounds(s, i + 1);
        }
    }
}

/// Every identifier token of an expression, in textual order: quoted and
/// bare identifiers, with single-quoted string literals skipped. Reading
/// stops at an unterminated quote.
pub open spec fn expression_idents(s: Seq<char>, i: int) -> Seq<Seq<char>>
    decreases s.len() - i,
{
    if i < 0 || i >= s.len() {
        Seq::<Seq<char>>::empty()
    } else if s[i] == '"' {
        match parse_quoted(s, i + 1, Seq::<char>::empty()) {
            Some((j, v)) => if i < j <= s.len() {
                seq![v] + expression_idents(s, j)
            } else {
                Seq::<Seq<char>>::empty()
            },
            None => Seq::<Seq<char>>::empty(),
        }
    } else if s[i] == '\'' {
        match skip_string_literal(s, i + 1) {
            Some(j) => if i < j <= s.len() {
                expression_idents(s, j)
            } else {
                Seq::<Seq<char>>::empty()
            },
            None => Seq::<Seq<char>>::empty(),
        }
    } else if is_ident_start(s[i]) {
        let j = bare_end(s, i + 1);
        if i < j <= s.len() {
            seq![s.subrange(i, j)] + expression_idents(s, j)
        } else {
            Seq::<Seq<char>>::empty()
        }
    } else {
        expression_idents(s, i + 1)
    }
}

/// A lower-case identifier is in particular a well-formed bare identifier.
pub proof fn lemma_lower_ident_is_basic(s: Seq<char>)
    ensures
        is_lower_ident(s) ==> is_basic_ident(s),
{
    if is_lower_ident(s) {
        assert forall|i: int| 0 <= i < s.len() implies is_ident_char(#[trigger] s[i]) by {
            let u = s[i] as u32;
            assert((97 <= u <= 122) || u == 95 || (48 <= u <= 57));
        }
    }
}

fn ident_start_char(c: char) -> (r: bool)
    ensures
        r == is_ident_start(c),
{
    let u = c as u32;
    (97 <= u && u <= 122) || (65 <= u && u <= 90) || u == 95
}

fn ident_char(c: char) -> (r: bool)
    ensures
        r == is_ident_char(c),
{
    let u = c as u32;
    ident_start_char(c) || (48 <= u && u <= 57)
}

/// Does `s` match `^[A-Za-z_][A-Za-z0-9_]*$`?
pub fn basic_ident_match(s: &str) -> (r: bool)
    ensures
        r == is_basic_ident(s@),
{
    let n = s.unicode_len();
    if n == 0 {
        return false;
    }
    if !ident_start_char(s.get_char(0)) {
        return false;
    }
    let mut i: usize = 1;
    while i < n
        invariant
            n == s@.len(),
            1 <= i <= n,
            is_ident_start(s@[0]),
            forall|j: int| 0 <= j < i ==> is_ident_char(#[trigger] s@[j]),
        decreases n - i,
    {
        if !ident_char(s.get_char(i)) {
            return false;
        }
        i += 1;
    }
    true
}

/// Reads the bare identifier starting at `i`; returns the position after it
/// and its text.
fn scan_bare(s: &str, i: usize, n: usize) -> (r: (usize, String))
    requires
        n == s@.len(),
        i < n,
        is_ident_start(s@[i as int]),
    ensures
        r.0 == bare_end(s@, i + 1),
        i < r.0 <= n,
        r.1@ == s@.subrange(i as int, r.0 as int),
{
    proof {
        lemma_bare_end(s@, i + 1);
    }
    let mut tok = String::new();
    push_char(&mut tok, s.get_char(i));
    let mut k: usize = i + 1;
    while k < n && ident_char(s.get_char(k))
        invariant
            n == s@.len(),
            i < k <= n,
            bare_end(s@, i + 1) == bare_end(s@, k as int),
            tok@ =~= s@.subrange(i as int, k as int),
        decreases n - k,
    {
        push_char(&mut tok, s.get_char(k));
        proof {
            assert(tok@ =~= s@.subrange(i as int, k + 1));
        }
        k += 1;
    }
    proof {
        assert(bare_end(s@, k as int) == k);
    }
    (k, tok)
}

/// Reads the quoted identifier body starting at `i` (just after the opening
/// quote); returns the position after the closing quote and the denoted
/// characters, or `None` when the quote never closes.
fn scan_quoted(s: &str, i: usize, n: usize) -> (r: Option<(usize, String)>)
    requires
        n == s@.len(),
        i <= n,
    ensures
        ({
            let spec_r = parse_quoted(s@, i as int, Seq::<char>::empty());
            &&& r matches Some((j, v)) ==> spec_r == Some((j as int, v@)) && i < j <= n
            &&& r is None ==> spec_r is None
        }),
{
    proof {
        lemma_parse_quoted_bounds(s@, i as int, Seq::<char>::empty());
    }
    let mut acc = String::new();
    let mut k: usize = i;
    while k < n
        invariant
            n == s@.len(),
            i <= k <= n,
            parse_quoted(s@, i as int, Seq::<char>::empty()) == parse_quoted(
                s@,
                k as int,
                acc@,
            ),
        decreases n - k,
    {
        let c = s.get_char(k);
        if c == '"' {
            if k + 1 < n && s.get_char(k + 1) == '"' {
                push_char(&mut acc, '"');
                k += 2;
            } else {
                return Some((k + 1, acc));
            }
        } else {
            push_char(&mut acc, c);
            k += 1;
        }
    }
    None
}

/// If the whole expression is a bare identifier or a dotted identifier
/// chain, its final identifier; anything else yields `None`.
pub fn identifier_chain_last(s: &str) -> (r: Option<String>)
    ensures
        r.deep_view() == parse_chain(s@, 0),
{
    let n = s.unicode_len();
    let mut i: usize = 0;
    loop
        invariant
            n == s@.len(),
            i <= n,
            parse_chain(s@, 0) == parse_chain(s@, i as int),
        decreases n - i,
    {
        proof {
            lemma_parse_part_bounds(s@, i as int);
        }
        let part: Option<(usize, String)> = if i < n && s.get_char(i) == '"' {
            scan_quoted(s, i + 1, n)
        } else if i < n && ident_start_char(s.get_char(i)) {
            Some(scan_bare(s, i, n))
        } else {
            None
        };
        match part {
            None => {
                return None;
            },
            Some((j, v)) => {
                if j >= n {
                    return Some(v);
                } else if s.get_char(j) == '.' {
                    i = j + 1;
                } else {
                    return None;
                }
            },
        }
    }
}

/// All identifier tokens of an expression, in textual order.
pub fn expression_identifiers(s: &str) -> (r: Vec<String>)
    ensures
        r.deep_view() == expression_idents(s@, 0),
{
    let n = s.unicode_len();
    let mut out: Vec<String> = Vec::new();
    let mut i: usize = 0;
    proof {
        assert(out.deep_view() =~= Seq::<Seq<char>>::empty());
        assert(out.deep_view() + expression_idents(s@, 0) =~= expression_idents(s@, 0));
    }
    while i < n
        invariant
            n == s@.len(),
            i <= n,
            expression_idents(s@, 0) == out.deep_view() + expression_idents(s@, i as int),
        decreases n - i,
    {
        let ghost prev_out = out.deep_view();
        let c = s.get_char(i);
        if c == '"' {
            match scan_quoted(s, i + 1, n) {
                Some((j, v)) => {
                    out.push(v);
                    proof {
                        assert(out.deep_view() =~= prev_out.push(
                            expression_idents(s@, i as int)[0],
                        ));
                        assert(prev_out + expression_idents(s@, i as int) =~= out.deep_view()
                            + expression_idents(s@, j as int));
                    }
                    i = j;
                },
                None => {
                    proof {
                        assert(expression_idents(s@, i as int) =~= Seq::<Seq<char>>::empty());
                        assert(prev_out + expression_idents(s@, i as int) =~= out.deep_view());
                    }
                    return out;
                },
            }
        } else if c == '\'' {
            proof {
                lemma_skip_string_literal_bounds(s@, i + 1);
            }
            match skip_string_literal_exec(s, i + 1, n) {
                Some(j) => {
                    i = j;
                },
                None => {
                    proof {
                        assert(expression_idents(s@, i as int) =~= Seq::<Seq<char>>::empty());
                        assert(prev_out + expression_idents(s@, i as int) =~= out.deep_view());
                    }
                    return out;
                },
            }
        } else if ident_start_char(c) {
            let (j, tok) = scan_bare(s, i, n);
            out.push(tok);
            proof {
                assert(out.deep_view() =~= prev_out.push(expression_idents(s@, i as int)[0]));
                assert(prev_out + expression_idents(s@, i as int) =~= out.deep_view()
                    + expression_idents(s@, j as int));
            }
            i = j;
        } else {
            i += 1;
        }
    }
    proof {
        assert(expression_idents(s@, n as int) =~= Seq::<Seq<char>>::empty());
        assert(out.deep_view() + expression_idents(s@, n as int) =~= out.deep_view());
    }
    out
}

/// Skips a single-quoted string literal whose body starts at `i`.
fn skip_string_literal_exec(s: &str, i: usize, n: usize) -> (r: Option<usize>)
    requires
        n == s@.len(),
        i <= n,
    ensures
        ({
            let spec_r = skip_string_literal(s@, i as int);
            &&& r matches Some(j) ==> spec_r == Some(j as int) && i < j <= n
            &&& r is None ==> spec_r is None
        }),
{
    proof {
        lemma_skip_string_literal_bounds(s@, i as int);
    }
    let mut k: usize = i;
    while k < n
        invariant
            n == s@.len(),
            i <= k <= n,
            skip_string_literal(s@, i as int) == skip_string_literal(s@, k as int),
        decreases n - k,
    {
        let c = s.get_char(k);
        if c == '\'' {
            if k + 1 < n && s.get_char(k + 1) == '\'' {
                k += 2;
            } else {
                return Some(k + 1);
            }
        } else {
            k += 1;
        }
    }
    None
}

} // verus!
