//! Encoding rules of the manifest's document form: dotted table-reference
//! strings, the two accepted spellings of a join type, and the legacy
//! integer encoding of booleans.

use vstd::prelude::*;
use vstd::string::StrSliceExecFns;
use vstd::string::StringExecFns;

use crate::manifest::JoinType;
use crate::text::push_char;
use crate::text::str_eq;

verus! {

/// An error raised while reading or writing a manifest document.
#[derive(Debug)]
pub enum ManifestError {
    /// A dotted table reference with more than three non-empty segments.
    InvalidTableReference(String),
    /// A boolean field whose document form is neither a boolean nor an
    /// unsigned integer.
    InvalidBoolean,
}

impl ManifestError {
    pub fn message(&self) -> (r: String)
        ensures
            (match self {
                ManifestError::InvalidTableReference(t) => r@ == "Invalid table reference: "@
                    + t@,
                ManifestError::InvalidBoolean => r@ == "invalid type for boolean"@,
            }),
    {
        match self {
            ManifestError::InvalidTableReference(t) => {
                let mut m = "Invalid table reference: ".to_owned();
                m.append(t.as_str());
                m
            },
            ManifestError::InvalidBoolean => "invalid type for boolean".to_owned(),
        }
    }
}

/// The three-field document form of a model's physical path.
#[derive(Debug)]
pub struct TableReferenceParts {
    pub catalog: Option<String>,
    pub schema: Option<String>,
    pub table: Option<String>,
}

/// Splits `s` on `'.'`, dropping empty segments: the accumulator holds the
/// segment being read (`cur`) and the segments already read (`acc`).
pub open spec fn split_acc(s: Seq<char>, cur: Seq<char>, acc: Seq<Seq<char>>) -> Seq<Seq<char>>
    decreases s.len(),
{
    if s.len() == 0 {
        if cur.len() > 0 {
            acc.push(cur)
        } else {
            acc
        }
    } else if s[0] == '.' {
        split_acc(
            s.drop_first(),
            Seq::<char>::empty(),
            if cur.len() > 0 {
                acc.push(cur)
            } else {
                acc
            },
        )
    } else {
        split_acc(s.drop_first(), cur.push(s[0]), acc)
    }
}

/// The non-empty dot-separated segments of a table-reference string.
pub open spec fn table_reference_segments(s: Seq<char>) -> Seq<Seq<char>> {
    split_acc(s, Seq::<char>::empty(), Seq::<Seq<char>>::empty())
}

/// The segments joined back with single dots.
pub open spec fn join_segments(segs: Seq<Seq<char>>) -> Seq<char>
    decreases segs.len(),
{
    if segs.len() == 0 {
        Seq::<char>::empty()
    } else if segs.len() == 1 {
        segs[0]
    } else {
        segs[0] + seq!['.'] + join_segments(segs.drop_first())
    }
}

/// A table-reference string is valid when it is one to three non-empty
/// segments joined by single dots.
pub open spec fn valid_table_reference(s: Seq<char>) -> bool {
    let segs = table_reference_segments(s);
    &&& 1 <= segs.len() <= 3
    &&& join_segments(segs) == s
}

/// How one to three segments fill the three-field document form: the last
/// segment is the table, the one before it the schema, the one before that
/// the catalog.
pub open spec fn segments_to_parts(segs: Seq<Seq<char>>) -> (
    Option<Seq<char>>,
    Option<Seq<char>>,
    Option<Seq<char>>,
) {
    if segs.len() == 3 {
        (Some(segs[0]), Some(segs[1]), Some(segs[2]))
    } else if segs.len() == 2 {
        (None, Some(segs[0]), Some(segs[1]))
    } else if segs.len() == 1 {
        (None, None, Some(segs[0]))
    } else {
        (None, None, None)
    }
}

/// The string a three-field document form denotes: non-empty fields in
/// catalog/schema order, each of the first two followed by a dot.
pub open spec fn piece_with_dot(o: Option<Seq<char>>) -> Seq<char> {
    match o {
        Some(x) => if x.len() > 0 {
            x + seq!['.']
        } else {
            Seq::<char>::empty()
        },
        None => Seq::<char>::empty(),
    }
}

pub open spec fn last_piece(o: Option<Seq<char>>) -> Seq<char> {
    match o {
        Some(x) => x,
        None => Seq::<char>::empty(),
    }
}

pub open spec fn join_parts(
    c: Option<Seq<char>>,
    s: Option<Seq<char>>,
    t: Option<Seq<char>>,
) -> Seq<char> {
    piece_with_dot(c) + piece_with_dot(s) + last_piece(t)
}

/// Splits a dotted table-reference string into the three-field document
/// form; rejects a reference of more than three non-empty segments.
pub fn split_table_reference(s: &str) -> (r: Result<TableReferenceParts, ManifestError>)
    ensures
        r is Err <==> table_reference_segments(s@).len() > 3,
        r matches Err(e) ==> e matches ManifestError::InvalidTableReference(orig) && orig@ == s@,
        r matches Ok(p) ==> ({
            let (c, sch, t) = segments_to_parts(table_reference_segments(s@));
            &&& p.catalog.deep_view() == c
            &&& p.schema.deep_view() == sch
            &&& p.table.deep_view() == t
        }),
{
    let n = s.unicode_len();
    let mut parts: Vec<String> = Vec::new();
    let mut cur = String::new();
    let mut i: usize = 0;
    proof {
        assert(s@.skip(0) =~= s@);
        assert(parts.deep_view() =~= Seq::<Seq<char>>::empty());
    }
    while i < n
        invariant
            n == s@.len(),
            i <= n,
            split_acc(s@.skip(i as int), cur@, parts.deep_view()) == table_reference_segments(
                s@,
            ),
        decreases n - i,
    {
        let ghost prev_parts = parts.deep_view();
        let ghost prev_cur = cur@;
        let c = s.get_char(i);
        proof {
            assert(s@.skip(i as int)[0] == s@[i as int]);
            assert(s@.skip(i as int).drop_first() =~= s@.skip(i as int + 1));
        }
        if c == '.' {
            if !cur.as_str().is_empty() {
                parts.push(cur);
                cur = String::new();
                proof {
                    assert(parts.deep_view() =~= prev_parts.push(prev_cur));
                }
            }
            proof {
                assert(cur@ =~= Seq::<char>::empty());
                assert(split_acc(s@.skip(i as int), prev_cur, prev_parts) == split_acc(
                    s@.skip(i as int + 1),
                    Seq::<char>::empty(),
                    if prev_cur.len() > 0 {
                        prev_parts.push(prev_cur)
                    } else {
                        prev_parts
                    },
                ));
            }
        } else {
            push_char(&mut cur, c);
            proof {
                assert(cur@ == prev_cur.push(c));
                assert(split_acc(s@.skip(i as int), prev_cur, prev_parts) == split_acc(
                    s@.skip(i as int + 1),
                    prev_cur.push(c),
                    prev_parts,
                ));
            }
        }
        i += 1;
    }
    proof {
        assert(s@.skip(n as int) =~= Seq::<char>::empty());
    }
    let ghost last_parts = parts.deep_view();
    let ghost last_cur = cur@;
    if !cur.as_str().is_empty() {
        parts.push(cur);
        proof {
            assert(parts.deep_view() =~= last_parts.push(last_cur));
        }
    }
    proof {
        assert(parts.deep_view() == table_reference_segments(s@));
    }
    if parts.len() > 3 {
        Err(ManifestError::InvalidTableReference(s.to_owned()))
    } else if parts.len() == 3 {
        Ok(
            TableReferenceParts {
                catalog: Some(parts[0].clone()),
                schema: Some(parts[1].clone()),
                table: Some(parts[2].clone()),
            },
        )
    } else if parts.len() == 2 {
        Ok(
            TableReferenceParts {
                catalog: None,
                schema: Some(parts[0].clone()),
                table: Some(parts[1].clone()),
            },
        )
    } else if parts.len() == 1 {
        Ok(TableReferenceParts { catalog: None, schema: None, table: Some(parts[0].clone()) })
    } else {
        Ok(TableReferenceParts { catalog: None, schema: None, table: None })
    }
}

/// Joins the three-field document form back into a dotted string; an
/// entirely empty form yields `None`.
pub fn join_table_reference(p: &TableReferenceParts) -> (r: Option<String>)
    ensures
        ({
            let joined = join_parts(
                p.catalog.deep_view(),
                p.schema.deep_view(),
                p.table.deep_view(),
            );
            &&& r matches Some(x) ==> x@ == joined && joined.len() > 0
            &&& r is None <==> joined.len() == 0
        }),
{
    proof {
        reveal_strlit(".");
        assert("."@ =~= seq!['.']);
    }
    let mut out = String::new();
    if let Some(c) = &p.catalog {
        if !c.as_str().is_empty() {
            out.append(c.as_str());
            out.append(".");
        }
    }
    if let Some(sch) = &p.schema {
        if !sch.as_str().is_empty() {
            out.append(sch.as_str());
            out.append(".");
        }
    }
    if let Some(t) = &p.table {
        if !t.as_str().is_empty() {
            out.append(t.as_str());
        }
    }
    proof {
        assert(out@ =~= join_parts(
            p.catalog.deep_view(),
            p.schema.deep_view(),
            p.table.deep_view(),
        ));
    }
    if out.as_str().is_empty() {
        None
    } else {
        Some(out)
    }
}

/// Every segment the splitter produces is non-empty.
proof fn lemma_split_acc_nonempty(s: Seq<char>, cur: Seq<char>, acc: Seq<Seq<char>>)
    requires
        forall|i: int| 0 <= i < acc.len() ==> #[trigger] acc[i].len() > 0,
    ensures
        forall|i: int|
            0 <= i < split_acc(s, cur, acc).len() ==> #[trigger] split_acc(s, cur, acc)[i].len()
                > 0,
    decreases s.len(),
{
    if s.len() == 0 {
        if cur.len() > 0 {
            let res = acc.push(cur);
            assert forall|i: int| 0 <= i < res.len() implies #[trigger] res[i].len() > 0 by {
                if i < acc.len() {
                } else {
                    assert(res[i] == cur);
                }
            }
            assert(split_acc(s, cur, acc) == res);
        }
    } else if s[0] == '.' {
        let acc2 = if cur.len() > 0 {
            acc.push(cur)
        } else {
            acc
        };
        assert forall|i: int| 0 <= i < acc2.len() implies #[trigger] acc2[i].len() > 0 by {
            if cur.len() > 0 && i == acc.len() {
                assert(acc2[i] == cur);
            } else {
                assert(acc2[i] == acc[i]);
            }
        }
        lemma_split_acc_nonempty(s.drop_first(), Seq::<char>::empty(), acc2);
        assert(split_acc(s, cur, acc) == split_acc(s.drop_first(), Seq::<char>::empty(), acc2));
    } else {
        lemma_split_acc_nonempty(s.drop_first(), cur.push(s[0]), acc);
        assert(split_acc(s, cur, acc) == split_acc(s.drop_first(), cur.push(s[0]), acc));
    }
}

/// Round trip: splitting a valid table-reference string into the document
/// form and joining that form again yields the original string.
pub proof fn lemma_table_reference_round_trip(s: Seq<char>)
    requires
        valid_table_reference(s),
    ensures
        ({
            let (c, sch, t) = segments_to_parts(table_reference_segments(s));
            join_parts(c, sch, t) == s
        }),
{
    let segs = table_reference_segments(s);
    lemma_split_acc_nonempty(s, Seq::<char>::empty(), Seq::<Seq<char>>::empty());
    if segs.len() == 1 {
        assert(join_parts(None, None, Some(segs[0])) =~= segs[0]);
    } else if segs.len() == 2 {
        let rest = segs.drop_first();
        assert(rest.len() == 1);
        assert(rest[0] == segs[1]);
        assert(join_segments(rest) == rest[0]);
        assert(join_segments(segs) == segs[0] + seq!['.'] + segs[1]);
        assert(join_parts(None, Some(segs[0]), Some(segs[1])) =~= segs[0] + seq!['.'] + segs[1]);
    } else {
        let rest = segs.drop_first();
        let rest2 = rest.drop_first();
        assert(rest.len() == 2);
        assert(rest2.len() == 1);
        assert(rest[0] == segs[1]);
        assert(rest2[0] == segs[2]);
        assert(join_segments(rest2) == rest2[0]);
        assert(join_segments(rest) == rest[0] + seq!['.'] + rest2[0]);
        assert(join_segments(segs) == segs[0] + seq!['.'] + (segs[1] + seq!['.'] + segs[2]));
        assert(join_parts(Some(segs[0]), Some(segs[1]), Some(segs[2])) =~= segs[0] + seq!['.'] + (
        segs[1] + seq!['.'] + segs[2]));
    }
}

/// The document form of a JSON scalar standing where a boolean is expected:
/// a real boolean, an unsigned integer (the legacy spelling), or anything
/// else.
#[derive(Debug, Clone, Copy, PartialEq, Eq, Structural)]
pub enum JsonBool {
    Bool(bool),
    Integer(u64),
    Other,
}

/// Reads a boolean field: a boolean passes through unchanged, an integer
/// reads as `false` exactly when it is zero, anything else is rejected.
pub fn bool_from_json(v: &JsonBool) -> (r: Result<bool, ManifestError>)
    ensures
        *v matches JsonBool::Bool(b) ==> r == Ok::<bool, ManifestError>(b),
        *v matches JsonBool::Integer(n) ==> r == Ok::<bool, ManifestError>(n != 0),
        *v matches JsonBool::Other ==> r == Err::<bool, ManifestError>(
            ManifestError::InvalidBoolean,
        ),
{
    match v {
        JsonBool::Bool(b) => Ok(*b),
        JsonBool::Integer(n) => Ok(*n != 0),
        JsonBool::Other => Err(ManifestError::InvalidBoolean),
    }
}

/// The canonical document spelling of a join type.
pub open spec fn spec_join_type_to_str(jt: JoinType) -> Seq<char> {
    match jt {
        JoinType::OneToOne => "ONE_TO_ONE"@,
        JoinType::OneToMany => "ONE_TO_MANY"@,
        JoinType::ManyToOne => "MANY_TO_ONE"@,
        JoinType::ManyToMany => "MANY_TO_MANY"@,
    }
}

/// The legacy document spelling of a join type.
pub open spec fn spec_join_type_name(jt: JoinType) -> Seq<char> {
    match jt {
        JoinType::OneToOne => "one_to_one"@,
        JoinType::OneToMany => "one_to_many"@,
        JoinType::ManyToOne => "many_to_one"@,
        JoinType::ManyToMany => "many_to_many"@,
    }
}

pub fn join_type_to_str(jt: JoinType) -> (r: &'static str)
    ensures
        r@ == spec_join_type_to_str(jt),
{
    match jt {
        JoinType::OneToOne => "ONE_TO_ONE",
        JoinType::OneToMany => "ONE_TO_MANY",
        JoinType::ManyToOne => "MANY_TO_ONE",
        JoinType::ManyToMany => "MANY_TO_MANY",
    }
}

pub fn join_type_name(jt: JoinType) -> (r: &'static str)
    ensures
        r@ == spec_join_type_name(jt),
{
    match jt {
        JoinType::OneToOne => "one_to_one",
        JoinType::OneToMany => "one_to_many",
        JoinType::ManyToOne => "many_to_one",
        JoinType::ManyToMany => "many_to_many",
    }
}

/// Which strings read as which join type: both the canonical and the legacy
/// spelling are accepted.
pub open spec fn spec_join_type_from_str(s: Seq<char>) -> Option<JoinType> {
    if s == "ONE_TO_ONE"@ || s == "one_to_one"@ {
        Some(JoinType::OneToOne)
    } else if s == "ONE_TO_MANY"@ || s == "one_to_many"@ {
        Some(JoinType::OneToMany)
    } else if s == "MANY_TO_ONE"@ || s == "many_to_one"@ {
        Some(JoinType::ManyToOne)
    } else if s == "MANY_TO_MANY"@ || s == "many_to_many"@ {
        Some(JoinType::ManyToMany)
    } else {
        None
    }
}

pub fn join_type_from_str(s: &str) -> (r: Option<JoinType>)
    ensures
        r == spec_join_type_from_str(s@),
{
    if str_eq(s, "ONE_TO_ONE") || str_eq(s, "one_to_one") {
        Some(JoinType::OneToOne)
    } else if str_eq(s, "ONE_TO_MANY") || str_eq(s, "one_to_many") {
        Some(JoinType::OneToMany)
    } else if str_eq(s, "MANY_TO_ONE") || str_eq(s, "many_to_one") {
        Some(JoinType::ManyToOne)
    } else if str_eq(s, "MANY_TO_MANY") || str_eq(s, "many_to_many") {
        Some(JoinType::ManyToMany)
    } else {
        None
    }
}

} // verus!
