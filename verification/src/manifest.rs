//! The semantic-model manifest: a declarative description of models,
//! relationships, metrics and views, together with the encoding rules
//! for table references, legacy booleans and join types.

use vstd::prelude::*;

verus! {

/// One key/value annotation carried by a manifest object, in declaration order.
#[derive(Debug, PartialEq, Eq, Hash)]
pub struct Property {
    pub key: String,
    pub value: String,
}

/// The mathematical value of a `Property`.
pub ghost struct PropertyV {
    pub key: Seq<char>,
    pub value: Seq<char>,
}

impl View for Property {
    type V = PropertyV;

    open spec fn view(&self) -> PropertyV {
        PropertyV { key: self.key@, value: self.value@ }
    }
}

impl DeepView for Property {
    type V = PropertyV;

    open spec fn deep_view(&self) -> PropertyV {
        self.view()
    }
}

impl Clone for Property {
    fn clone(&self) -> (r: Self)
        ensures
            r@ == self@,
    {
        Property { key: self.key.clone(), value: self.value.clone() }
    }
}

/// A column of a model or metric. If `relationship` is set the column is a
/// cross-model reference resolved through that relationship; if `expression`
/// is absent and the column is neither calculated nor relationship-bearing,
/// it is a direct passthrough of a physical column of the same name.
#[derive(Debug, PartialEq, Eq, Hash)]
pub struct Column {
    pub name: String,
    pub column_type: String,
    pub relationship: Option<String>,
    pub is_calculated: bool,
    pub not_null: bool,
    pub expression: Option<String>,
    pub properties: Vec<Property>,
}

/// The mathematical value of a `Column`.
pub ghost struct ColumnV {
    pub name: Seq<char>,
    pub column_type: Seq<char>,
    pub relationship: Option<Seq<char>>,
    pub is_calculated: bool,
    pub not_null: bool,
    pub expression: Option<Seq<char>>,
    pub properties: Seq<PropertyV>,
}

impl View for Column {
    type V = ColumnV;

    open spec fn view(&self) -> ColumnV {
        ColumnV {
            name: self.name@,
            column_type: self.column_type@,
            relationship: self.relationship.deep_view(),
            is_calculated: self.is_calculated,
            not_null: self.not_null,
            expression: self.expression.deep_view(),
            properties: self.properties.deep_view(),
        }
    }
}

impl DeepView for Column {
    type V = ColumnV;

    open spec fn deep_view(&self) -> ColumnV {
        self.view()
    }
}

impl Clone for Column {
    fn clone(&self) -> (r: Self)
        ensures
            r@ == self@,
    {
        Column {
            name: self.name.clone(),
            column_type: self.column_type.clone(),
            relationship: clone_opt_string(&self.relationship),
            is_calculated: self.is_calculated,
            not_null: self.not_null,
            expression: clone_opt_string(&self.expression),
            properties: clone_properties(&self.properties),
        }
    }
}

fn clone_opt_string(o: &Option<String>) -> (r: Option<String>)
    ensures
        r == *o,
{
    match o {
        Some(s) => Some(s.clone()),
        None => None,
    }
}

fn clone_properties(v: &Vec<Property>) -> (r: Vec<Property>)
    ensures
        r.deep_view() == v.deep_view(),
{
    let mut r: Vec<Property> = Vec::new();
    let mut i: usize = 0;
    while i < v.len()
        invariant
            i <= v.len(),
            r@.len() == i,
            forall|j: int| 0 <= j < i ==> r@[j]@ == v@[j]@,
        decreases v.len() - i,
    {
        r.push(v[i].clone());
        i += 1;
    }
    proof {
        assert(r.deep_view() =~= v.deep_view());
    }
    r
}

fn clone_columns(v: &Vec<Column>) -> (r: Vec<Column>)
    ensures
        r.deep_view() == v.deep_view(),
{
    let mut r: Vec<Column> = Vec::new();
    let mut i: usize = 0;
    while i < v.len()
        invariant
            i <= v.len(),
            r@.len() == i,
            forall|j: int| 0 <= j < i ==> r@[j]@ == v@[j]@,
        decreases v.len() - i,
    {
        r.push(v[i].clone());
        i += 1;
    }
    proof {
        assert(r.deep_view() =~= v.deep_view());
    }
    r
}

fn clone_strings(v: &Vec<String>) -> (r: Vec<String>)
    ensures
        r@ == v@,
{
    let mut r: Vec<String> = Vec::new();
    let mut i: usize = 0;
    while i < v.len()
        invariant
            i <= v.len(),
            r@.len() == i,
            forall|j: int| 0 <= j < i ==> r@[j] == v@[j],
        decreases v.len() - i,
    {
        r.push(v[i].clone());
        i += 1;
    }
    proof {
        assert(r@ =~= v@);
    }
    r
}

/// A virtual table. At most one of `table_reference`, `ref_sql` and
/// `base_object` identifies its physical source; when all are absent every
/// column must carry its own expression.
#[derive(Debug, PartialEq, Eq, Hash)]
pub struct Model {
    pub name: String,
    pub ref_sql: Option<String>,
    pub base_object: Option<String>,
    pub table_reference: Option<String>,
    pub columns: Vec<Column>,
    pub primary_key: Option<String>,
    pub cached: bool,
    pub refresh_time: Option<String>,
    pub properties: Vec<Property>,
}

/// The mathematical value of a `Model`.
pub ghost struct ModelV {
    pub name: Seq<char>,
    pub ref_sql: Option<Seq<char>>,
    pub base_object: Option<Seq<char>>,
    pub table_reference: Option<Seq<char>>,
    pub columns: Seq<ColumnV>,
    pub primary_key: Option<Seq<char>>,
    pub cached: bool,
    pub refresh_time: Option<Seq<char>>,
    pub properties: Seq<PropertyV>,
}

impl View for Model {
    type V = ModelV;

    open spec fn view(&self) -> ModelV {
        ModelV {
            name: self.name@,
            ref_sql: self.ref_sql.deep_view(),
            base_object: self.base_object.deep_view(),
            table_reference: self.table_reference.deep_view(),
            columns: self.columns.deep_view(),
            primary_key: self.primary_key.deep_view(),
            cached: self.cached,
            refresh_time: self.refresh_time.deep_view(),
            properties: self.properties.deep_view(),
        }
    }
}

impl DeepView for Model {
    type V = ModelV;

    open spec fn deep_view(&self) -> ModelV {
        self.view()
    }
}

impl ModelV {
    /// The dotted physical path of the model, or empty when none was
    /// declared.
    pub open spec fn table_path(self) -> Seq<char> {
        match self.table_reference {
            Some(s) => s,
            None => Seq::<char>::empty(),
        }
    }
}

impl Clone for Model {
    fn clone(&self) -> (r: Self)
        ensures
            r@ == self@,
    {
        Model {
            name: self.name.clone(),
            ref_sql: clone_opt_string(&self.ref_sql),
            base_object: clone_opt_string(&self.base_object),
            table_reference: clone_opt_string(&self.table_reference),
            columns: clone_columns(&self.columns),
            primary_key: clone_opt_string(&self.primary_key),
            cached: self.cached,
            refresh_time: clone_opt_string(&self.refresh_time),
            properties: clone_properties(&self.properties),
        }
    }
}

impl Model {
    /// The dotted physical path of the model, or the empty string when none
    /// was declared.
    pub open spec fn spec_table_reference(&self) -> Seq<char> {
        match self.table_reference {
            Some(s) => s@,
            None => Seq::<char>::empty(),
        }
    }

    pub fn table_reference(&self) -> (r: &str)
        ensures
            r@ == self.spec_table_reference(),
    {
        proof {
            reveal_strlit("");
        }
        match &self.table_reference {
            Some(s) => s.as_str(),
            None => "",
        }
    }
}

/// The cardinality of a relationship join.
#[derive(Debug, Clone, Copy, PartialEq, Eq, Structural, Hash)]
pub enum JoinType {
    OneToOne,
    OneToMany,
    ManyToOne,
    ManyToMany,
}

impl JoinType {
    /// Traversing a to-one relationship preserves one-row-per-source-row
    /// semantics; a to-many traversal needs fan-out or aggregation handling.
    pub open spec fn spec_is_to_one(self) -> bool {
        self == JoinType::OneToOne || self == JoinType::ManyToOne
    }

    pub fn is_to_one(&self) -> (r: bool)
        ensures
            r == self.spec_is_to_one(),
    {
        matches!(self, JoinType::OneToOne | JoinType::ManyToOne)
    }
}

/// A named join rule between two models, with the SQL condition that links
/// them.
#[derive(Debug, PartialEq, Eq, Hash)]
pub struct Relationship {
    pub name: String,
    pub models: Vec<String>,
    pub join_type: JoinType,
    pub condition: String,
    pub properties: Vec<Property>,
}

/// The mathematical value of a `Relationship`.
pub ghost struct RelationshipV {
    pub name: Seq<char>,
    pub models: Seq<Seq<char>>,
    pub join_type: JoinType,
    pub condition: Seq<char>,
    pub properties: Seq<PropertyV>,
}

impl View for Relationship {
    type V = RelationshipV;

    open spec fn view(&self) -> RelationshipV {
        RelationshipV {
            name: self.name@,
            models: self.models.deep_view(),
            join_type: self.join_type,
            condition: self.condition@,
            properties: self.properties.deep_view(),
        }
    }
}

impl DeepView for Relationship {
    type V = RelationshipV;

    open spec fn deep_view(&self) -> RelationshipV {
        self.view()
    }
}

impl Clone for Relationship {
    fn clone(&self) -> (r: Self)
        ensures
            r@ == self@,
    {
        Relationship {
            name: self.name.clone(),
            models: clone_strings(&self.models),
            join_type: self.join_type,
            condition: self.condition.clone(),
            properties: clone_properties(&self.properties),
        }
    }
}

/// A truncation granularity a time dimension supports.
#[derive(Debug, Clone, Copy, PartialEq, Eq, Structural, Hash)]
pub enum TimeUnit {
    Year,
    Month,
    Day,
    Hour,
    Minute,
    Second,
}

/// Declares which truncation granularities the time dimension `ref_column`
/// of a metric supports.
#[derive(Debug, PartialEq, Eq, Hash)]
pub struct TimeGrain {
    pub name: String,
    pub ref_column: String,
    pub date_parts: Vec<TimeUnit>,
}

/// The mathematical value of a `TimeGrain`.
pub ghost struct TimeGrainV {
    pub name: Seq<char>,
    pub ref_column: Seq<char>,
    pub date_parts: Seq<TimeUnit>,
}

impl View for TimeGrain {
    type V = TimeGrainV;

    open spec fn view(&self) -> TimeGrainV {
        TimeGrainV {
            name: self.name@,
            ref_column: self.ref_column@,
            date_parts: self.date_parts@,
        }
    }
}

impl DeepView for TimeGrain {
    type V = TimeGrainV;

    open spec fn deep_view(&self) -> TimeGrainV {
        self.view()
    }
}

impl Clone for TimeGrain {
    fn clone(&self) -> (r: Self)
        ensures
            r@ == self@,
    {
        let mut parts: Vec<TimeUnit> = Vec::new();
        let mut i: usize = 0;
        while i < self.date_parts.len()
            invariant
                i <= self.date_parts.len(),
                parts@.len() == i,
                forall|j: int| 0 <= j < i ==> parts@[j] == self.date_parts@[j],
            decreases self.date_parts.len() - i,
        {
            let u = self.date_parts[i];
            parts.push(u);
            i += 1;
        }
        proof {
            assert(parts@ =~= self.date_parts@);
        }
        TimeGrain {
            name: self.name.clone(),
            ref_column: self.ref_column.clone(),
            date_parts: parts,
        }
    }
}

/// A virtual pre-aggregated relation over a base model: rows grouped by
/// `dimension` and aggregated by `measure`.
#[derive(Debug, PartialEq, Eq, Hash)]
pub struct Metric {
    pub name: String,
    pub base_object: String,
    pub dimension: Vec<Column>,
    pub measure: Vec<Column>,
    pub time_grain: Vec<TimeGrain>,
    pub cached: bool,
    pub refresh_time: Option<String>,
    pub properties: Vec<Property>,
}

/// The mathematical value of a `Metric`.
pub ghost struct MetricV {
    pub name: Seq<char>,
    pub base_object: Seq<char>,
    pub dimension: Seq<ColumnV>,
    pub measure: Seq<ColumnV>,
    pub time_grain: Seq<TimeGrainV>,
    pub cached: bool,
    pub refresh_time: Option<Seq<char>>,
    pub properties: Seq<PropertyV>,
}

impl View for Metric {
    type V = MetricV;

    open spec fn view(&self) -> MetricV {
        MetricV {
            name: self.name@,
            base_object: self.base_object@,
            dimension: self.dimension.deep_view(),
            measure: self.measure.deep_view(),
            time_grain: self.time_grain.deep_view(),
            cached: self.cached,
            refresh_time: self.refresh_time.deep_view(),
            properties: self.properties.deep_view(),
        }
    }
}

impl DeepView for Metric {
    type V = MetricV;

    open spec fn deep_view(&self) -> MetricV {
        self.view()
    }
}

impl Clone for Metric {
    fn clone(&self) -> (r: Self)
        ensures
            r@ == self@,
    {
        Metric {
            name: self.name.clone(),
            base_object: self.base_object.clone(),
            dimension: clone_columns(&self.dimension),
            measure: clone_columns(&self.measure),
            time_grain: clone_time_grains(&self.time_grain),
            cached: self.cached,
            refresh_time: clone_opt_string(&self.refresh_time),
            properties: clone_properties(&self.properties),
        }
    }
}

fn clone_time_grains(v: &Vec<TimeGrain>) -> (r: Vec<TimeGrain>)
    ensures
        r.deep_view() == v.deep_view(),
{
    let mut r: Vec<TimeGrain> = Vec::new();
    let mut i: usize = 0;
    while i < v.len()
        invariant
            i <= v.len(),
            r@.len() == i,
            forall|j: int| 0 <= j < i ==> r@[j]@ == v@[j]@,
        decreases v.len() - i,
    {
        r.push(v[i].clone());
        i += 1;
    }
    proof {
        assert(r.deep_view() =~= v.deep_view());
    }
    r
}

impl Metric {
    pub fn name(&self) -> (r: &str)
        ensures
            r@ == self.name@,
    {
        self.name.as_str()
    }
}

/// A named, reusable virtual query.
#[derive(Debug, PartialEq, Eq, Hash)]
pub struct SqlView {
    pub name: String,
    pub statement: String,
    pub properties: Vec<Property>,
}

/// The mathematical value of a `SqlView`.
pub ghost struct SqlViewV {
    pub name: Seq<char>,
    pub statement: Seq<char>,
    pub properties: Seq<PropertyV>,
}

impl View for SqlView {
    type V = SqlViewV;

    open spec fn view(&self) -> SqlViewV {
        SqlViewV {
            name: self.name@,
            statement: self.statement@,
            properties: self.properties.deep_view(),
        }
    }
}

impl DeepView for SqlView {
    type V = SqlViewV;

    open spec fn deep_view(&self) -> SqlViewV {
        self.view()
    }
}

impl Clone for SqlView {
    fn clone(&self) -> (r: Self)
        ensures
            r@ == self@,
    {
        SqlView {
            name: self.name.clone(),
            statement: self.statement.clone(),
            properties: clone_properties(&self.properties),
        }
    }
}

impl SqlView {
    pub fn name(&self) -> (r: &str)
        ensures
            r@ == self.name@,
    {
        self.name.as_str()
    }
}

/// The whole semantic-model document: the unit that is loaded once and from
/// which the model index and lineage are derived.
#[derive(Debug, PartialEq, Eq, Hash)]
pub struct Manifest {
    pub catalog: String,
    pub schema: String,
    pub models: Vec<Model>,
    pub relationships: Vec<Relationship>,
    pub metrics: Vec<Metric>,
    pub views: Vec<SqlView>,
}

/// The mathematical value of a `Manifest`.
pub ghost struct ManifestV {
    pub catalog: Seq<char>,
    pub schema: Seq<char>,
    pub models: Seq<ModelV>,
    pub relationships: Seq<RelationshipV>,
    pub metrics: Seq<MetricV>,
    pub views: Seq<SqlViewV>,
}

impl View for Manifest {
    type V = ManifestV;

    open spec fn view(&self) -> ManifestV {
        ManifestV {
            catalog: self.catalog@,
            schema: self.schema@,
            models: self.models.deep_view(),
            relationships: self.relationships.deep_view(),
            metrics: self.metrics.deep_view(),
            views: self.views.deep_view(),
        }
    }
}

} // verus!
