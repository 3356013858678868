//! Trusted bridges to the underlying SQL engine (datafusion): its reserved
//! keyword table and its canonical quoting of dotted table paths.

use vstd::prelude::*;

verus! {

/// Whether an upper-cased word stands in the engine's reserved keyword
/// table.
pub uninterp spec fn reserved_keyword(s: Seq<char>) -> bool;

/// Relies on sqlparser's `ALL_KEYWORDS` table, re-exported by datafusion: a
/// process-wide constant, so membership is a function of the word alone.
#[verifier::external_body]
pub(crate) fn is_reserved_keyword(s: &str) -> (r: bool)
    ensures
        r == reserved_keyword(s@),
{
    datafusion::logical_expr::sqlparser::keywords::ALL_KEYWORDS.contains(&s)
}

/// The canonical quoted rendering of a dotted table path, as datafusion's
/// `TableReference` parsing and quoting produce it.
pub uninterp spec fn quoted_table_ref(s: Seq<char>) -> Seq<char>;

/// Relies on datafusion's `TableReference::from` and
/// `TableReference::to_quoted_string`: parsing a dotted path and rendering
/// it back with quotes where needed is a function of the path alone.
#[verifier::external_body]
pub(crate) fn quoted_table_reference(s: &str) -> (r: String)
    ensures
        r@ == quoted_table_ref(s@),
{
    datafusion::sql::TableReference::from(s).to_quoted_string()
}

} // verus!
