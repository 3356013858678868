//! The engine-independent part of the query transform: the registry entries
//! for remote functions handed to the engine, and the removal of the
//! synthetic `catalog.schema.` prefix from regenerated SQL.

use vstd::prelude::*;
use vstd::string::StrSliceExecFns;

use crate::text::push_char;
use crate::text::str_eq;

verus! {

/// The kind of a remote function registered with the execution context.
#[derive(Debug, Clone, Copy, PartialEq, Eq, Structural)]
pub enum FunctionType {
    Scalar,
    Aggregate,
    Window,
}

/// Which strings read as which function kind.
pub open spec fn spec_function_type_from_str(s: Seq<char>) -> Option<FunctionType> {
    if s == "scalar"@ {
        Some(FunctionType::Scalar)
    } else if s == "aggregate"@ {
        Some(FunctionType::Aggregate)
    } else if s == "window"@ {
        Some(FunctionType::Window)
    } else {
        None
    }
}

pub fn function_type_from_str(s: &str) -> (r: Option<FunctionType>)
    ensures
        r == spec_function_type_from_str(s@),
{
    if str_eq(s, "scalar") {
        Some(FunctionType::Scalar)
    } else if str_eq(s, "aggregate") {
        Some(FunctionType::Aggregate)
    } else if str_eq(s, "window") {
        Some(FunctionType::Window)
    } else {
        None
    }
}

/// A remote function the transformer registers by name, kind and declared
/// return type: opaque to the transform, which never evaluates it.
#[derive(Debug)]
pub struct RemoteFunction {
    pub name: String,
    pub function_type: FunctionType,
    pub return_type: String,
}

/// Does `s` begin with `p`?
pub open spec fn has_prefix(s: Seq<char>, p: Seq<char>) -> bool {
    s.len() >= p.len() && forall|k: int| 0 <= k < p.len() ==> s[k] == p[k]
}

/// `s` with every occurrence of `p` removed, scanning left to right without
/// overlap: what replacing `p` by nothing leaves.
pub open spec fn remove_all(s: Seq<char>, p: Seq<char>) -> Seq<char>
    decreases s.len(),
{
    if p.len() == 0 || s.len() == 0 {
        s
    } else if has_prefix(s, p) {
        remove_all(s.skip(p.len() as int), p)
    } else {
        seq![s[0]] + remove_all(s.drop_first(), p)
    }
}

/// Does `s` carry `p` at position `i`?
#[verifier::loop_isolation(false)]
fn matches_at(s: &str, i: usize, p: &str, n: usize, m: usize) -> (r: bool)
    requires
        n == s@.len(),
        m == p@.len(),
        i <= n,
    ensures
        r == has_prefix(s@.skip(i as int), p@),
{
    if m > n - i {
        return false;
    }
    let mut k: usize = 0;
    while k < m
        invariant
            k <= m,
            i + m <= n,
            forall|k2: int| 0 <= k2 < k ==> s@[i + k2] == p@[k2],
        decreases m - k,
    {
        if s.get_char(i + k) != p.get_char(k) {
            proof {
                assert(s@.skip(i as int)[k as int] == s@[i + k]);
            }
            return false;
        }
        k += 1;
    }
    proof {
        assert forall|k2: int| 0 <= k2 < p@.len() implies s@.skip(i as int)[k2] == p@[k2] by {
            assert(s@.skip(i as int)[k2] == s@[i + k2]);
        }
    }
    true
}

/// Removes every occurrence of `pattern` from `s`: how the transformer
/// strips the synthetic `catalog.schema.` prefix out of regenerated SQL.
#[verifier::loop_isolation(false)]
pub fn remove_occurrences(s: &str, pattern: &str) -> (r: String)
    requires
        pattern@.len() > 0,
    ensures
        r@ == remove_all(s@, pattern@),
{
    let n = s.unicode_len();
    let m = pattern.unicode_len();
    let mut out = String::new();
    let mut i: usize = 0;
    proof {
        assert(s@.skip(0) =~= s@);
        assert(out@ + remove_all(s@, pattern@) =~= remove_all(s@, pattern@));
    }
    while i < n
        invariant
            i <= n,
            remove_all(s@, pattern@) == out@ + remove_all(s@.skip(i as int), pattern@),
        decreases n - i,
    {
        let ghost prev_out = out@;
        if matches_at(s, i, pattern, n, m) {
            proof {
                assert(s@.skip(i as int).len() > 0);
                assert(s@.skip(i as int).skip(m as int) =~= s@.skip(i + m));
                assert(remove_all(s@.skip(i as int), pattern@) == remove_all(
                    s@.skip(i + m),
                    pattern@,
                ));
            }
            i += m;
        } else {
            let c = s.get_char(i);
            push_char(&mut out, c);
            proof {
                assert(s@.skip(i as int)[0] == s@[i as int]);
                assert(s@.skip(i as int).drop_first() =~= s@.skip(i + 1));
                assert(remove_all(s@.skip(i as int), pattern@) == seq![s@[i as int]] + remove_all(
                    s@.skip(i + 1),
                    pattern@,
                ));
                assert(out@ =~= prev_out.push(s@[i as int]));
                assert(prev_out + remove_all(s@.skip(i as int), pattern@) =~= out@ + remove_all(
                    s@.skip(i + 1),
                    pattern@,
                ));
            }
            i += 1;
        }
    }
    proof {
        assert(s@.skip(n as int) =~= Seq::<char>::empty());
        assert(out@ + remove_all(s@.skip(n as int), pattern@) =~= out@);
    }
    out
}

} // verus!
