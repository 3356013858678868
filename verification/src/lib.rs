//! A semantic-layer query rewriter core: callers describe a virtual business
//! model (models, relationships, metrics, views) in a manifest; the library
//! indexes every qualified column, resolves column lineage across
//! relationship joins, infers physical schemas, and decides dialect-correct
//! identifier quoting for regenerated SQL.

pub mod codec;
mod engine;
pub mod ident;
pub mod lineage;
pub mod manifest;
pub mod transform;
mod text;

use vstd::prelude::*;
use vstd::string::StringExecFns;

use crate::engine::is_reserved_keyword;
use crate::engine::quoted_table_ref;
use crate::engine::quoted_table_reference;
use crate::engine::reserved_keyword;
use crate::ident::basic_ident_match;
use crate::ident::identifier_chain_last;
use crate::ident::parse_chain;
use crate::ident::is_basic_ident;
use crate::ident::is_lower_ident;
use crate::manifest::Column;
use crate::manifest::ColumnV;
use crate::manifest::Manifest;
use crate::manifest::ManifestV;
use crate::manifest::Metric;
use crate::manifest::MetricV;
use crate::manifest::Model;
use crate::manifest::ModelV;
use crate::manifest::Relationship;
use crate::manifest::RelationshipV;
use crate::manifest::SqlView;
use crate::manifest::SqlViewV;
use crate::lineage::calc_edges_complete;
use crate::lineage::cycle_witness;
use crate::lineage::edges_justified;
use crate::lineage::is_leaf_column;
use crate::lineage::is_plain_calculated;
use crate::lineage::rel_edges_complete;
use crate::lineage::unresolved_relationship;
use crate::lineage::Lineage;
use crate::lineage::LineageError;
use crate::text::arc_clone;
use crate::text::lower_of;
use crate::text::str_eq;
use crate::text::to_lowercase_str;
use crate::text::to_uppercase_str;
use crate::text::upper_of;

verus! {

/// A resolvable owner of columns: a model or a metric.
#[derive(Debug)]
pub enum Dataset {
    Model(Model),
    Metric(Metric),
}

/// The mathematical value of a `Dataset`.
pub ghost enum DatasetV {
    Model(ModelV),
    Metric(MetricV),
}

impl DatasetV {
    pub open spec fn name(self) -> Seq<char> {
        match self {
            DatasetV::Model(m) => m.name,
            DatasetV::Metric(m) => m.name,
        }
    }
}

impl View for Dataset {
    type V = DatasetV;

    open spec fn view(&self) -> DatasetV {
        match self {
            Dataset::Model(m) => DatasetV::Model(m@),
            Dataset::Metric(m) => DatasetV::Metric(m@),
        }
    }
}

impl DeepView for Dataset {
    type V = DatasetV;

    open spec fn deep_view(&self) -> DatasetV {
        self.view()
    }
}

impl Clone for Dataset {
    fn clone(&self) -> (r: Self)
        ensures
            r@ == self@,
    {
        match self {
            Dataset::Model(m) => Dataset::Model(m.clone()),
            Dataset::Metric(m) => Dataset::Metric(m.clone()),
        }
    }
}

impl Dataset {
    pub fn name(&self) -> (r: &str)
        ensures
            r@ == self@.name(),
    {
        match self {
            Dataset::Model(m) => m.name.as_str(),
            Dataset::Metric(m) => m.name.as_str(),
        }
    }
}

/// A cheap-to-copy handle identifying one resolvable column of a dataset.
#[derive(Debug)]
pub struct ColumnReference {
    pub dataset: Dataset,
    pub column: Column,
}

/// The mathematical value of a `ColumnReference`.
pub ghost struct ColumnReferenceV {
    pub dataset: DatasetV,
    pub column: ColumnV,
}

impl View for ColumnReference {
    type V = ColumnReferenceV;

    open spec fn view(&self) -> ColumnReferenceV {
        ColumnReferenceV { dataset: self.dataset@, column: self.column@ }
    }
}

impl DeepView for ColumnReference {
    type V = ColumnReferenceV;

    open spec fn deep_view(&self) -> ColumnReferenceV {
        self.view()
    }
}

impl Clone for ColumnReference {
    fn clone(&self) -> (r: Self)
        ensures
            r@ == self@,
    {
        ColumnReference { dataset: self.dataset.clone(), column: self.column.clone() }
    }
}

impl ColumnReference {
    pub fn new(dataset: Dataset, column: Column) -> (r: Self)
        ensures
            r.dataset == dataset,
            r.column == column,
    {
        ColumnReference { dataset, column }
    }

    /// `dataset.column`, the short qualified name of the column.
    pub fn get_qualified_name(&self) -> (r: String)
        ensures
            r@ == self@.dataset.name() + "."@ + self@.column.name,
    {
        let mut s = String::new();
        s.append(self.dataset.name());
        s.append(".");
        s.append(self.column.name.as_str());
        proof {
            assert(s@ =~= self@.dataset.name() + "."@ + self@.column.name);
        }
        s
    }
}

/// The four-part key under which a column is indexed:
/// `catalog.schema.dataset.column`, kept as separate parts so that distinct
/// parts can never run together.
#[derive(Debug)]
pub struct QualifiedName {
    pub catalog: String,
    pub schema: String,
    pub dataset: String,
    pub column: String,
}

/// The mathematical value of a `QualifiedName`.
pub ghost struct QualifiedNameV {
    pub catalog: Seq<char>,
    pub schema: Seq<char>,
    pub dataset: Seq<char>,
    pub column: Seq<char>,
}

impl View for QualifiedName {
    type V = QualifiedNameV;

    open spec fn view(&self) -> QualifiedNameV {
        QualifiedNameV {
            catalog: self.catalog@,
            schema: self.schema@,
            dataset: self.dataset@,
            column: self.column@,
        }
    }
}

impl DeepView for QualifiedName {
    type V = QualifiedNameV;

    open spec fn deep_view(&self) -> QualifiedNameV {
        self.view()
    }
}

impl Clone for QualifiedName {
    fn clone(&self) -> (r: Self)
        ensures
            r@ == self@,
    {
        QualifiedName {
            catalog: self.catalog.clone(),
            schema: self.schema.clone(),
            dataset: self.dataset.clone(),
            column: self.column.clone(),
        }
    }
}

impl QualifiedName {
    pub fn new(catalog: &str, schema: &str, dataset: &str, column: &str) -> (r: Self)
        ensures
            r@ == (QualifiedNameV {
                catalog: catalog@,
                schema: schema@,
                dataset: dataset@,
                column: column@,
            }),
    {
        QualifiedName {
            catalog: catalog.to_owned(),
            schema: schema.to_owned(),
            dataset: dataset.to_owned(),
            column: column.to_owned(),
        }
    }

    /// Exact match on all four parts.
    pub fn matches(&self, other: &QualifiedName) -> (r: bool)
        ensures
            r == (self@ == other@),
    {
        let r = self.catalog == other.catalog && self.schema == other.schema && self.dataset
            == other.dataset && self.column == other.column;
        proof {
            if self@.catalog == other@.catalog && self@.schema == other@.schema && self@.dataset
                == other@.dataset && self@.column == other@.column {
                assert(self@ == other@);
            }
        }
        r
    }
}

/// One field of an inferred physical schema.
#[derive(Debug)]
pub struct SourceField {
    pub name: String,
    pub field_type: String,
    pub not_null: bool,
}

/// The mathematical value of a `SourceField`.
pub ghost struct SourceFieldV {
    pub name: Seq<char>,
    pub field_type: Seq<char>,
    pub not_null: bool,
}

impl View for SourceField {
    type V = SourceFieldV;

    open spec fn view(&self) -> SourceFieldV {
        SourceFieldV { name: self.name@, field_type: self.field_type@, not_null: self.not_null }
    }
}

impl DeepView for SourceField {
    type V = SourceFieldV;

    open spec fn deep_view(&self) -> SourceFieldV {
        self.view()
    }
}

/// A handle for a registered physical source: the schema it exposes.
#[derive(Debug)]
pub struct DataSource {
    pub fields: Vec<SourceField>,
}

/// The mathematical value of a `DataSource`.
pub ghost struct DataSourceV {
    pub fields: Seq<SourceFieldV>,
}

impl View for DataSource {
    type V = DataSourceV;

    open spec fn view(&self) -> DataSourceV {
        DataSourceV { fields: self.fields.deep_view() }
    }
}

impl DeepView for DataSource {
    type V = DataSourceV;

    open spec fn deep_view(&self) -> DataSourceV {
        self.view()
    }
}

/// Does regenerated SQL have to quote this identifier? Yes when its
/// upper-case form is a reserved keyword of the engine, when it is not a
/// plain identifier, or when lower-casing would change it.
pub open spec fn requires_quote(s: Seq<char>) -> bool {
    ||| reserved_keyword(upper_of(s))
    ||| !is_basic_ident(s)
    ||| lower_of(s) != s
}

/// Is the string changed by lower-casing?
pub fn non_lowercase(s: &str) -> (r: bool)
    ensures
        r == (lower_of(s@) != s@),
        is_lower_ident(s@) ==> !r,
        (exists|i: int| 0 <= i < s@.len() && 65 <= #[trigger] (s@[i] as u32) <= 90) ==> r,
{
    let low = to_lowercase_str(s);
    !str_eq(low.as_str(), s)
}

/// The quoting dialect of regenerated SQL: stricter than the engine's
/// default, so that identifiers survive a round trip through parsing
/// unchanged.
#[derive(Debug)]
pub struct WrenDialect {}

impl WrenDialect {
    /// The quote character to put around `identifier`, or `None` when it is
    /// safe bare. A lower-case plain identifier that is no reserved keyword
    /// stays unquoted; a keyword collision, a character outside
    /// `[A-Za-z0-9_]`, a leading digit, or any character changed by
    /// lower-casing forces quotes.
    pub fn identifier_quote_style(&self, identifier: &str) -> (r: Option<char>)
        ensures
            r == (if requires_quote(identifier@) {
                Some('"')
            } else {
                None
            }),
            is_lower_ident(identifier@) && !reserved_keyword(upper_of(identifier@)) ==> r is None,
            reserved_keyword(upper_of(identifier@)) ==> r == Some('"'),
            !is_basic_ident(identifier@) ==> r == Some('"'),
            (exists|i: int| 0 <= i < identifier@.len() && 65 <= #[trigger] (identifier@[i] as u32)
                <= 90) ==> r == Some('"'),
    {
        proof {
            crate::ident::lemma_lower_ident_is_basic(identifier@);
        }
        let upper = to_uppercase_str(identifier);
        if is_reserved_keyword(upper.as_str()) || !basic_ident_match(identifier) || non_lowercase(
            identifier,
        ) {
            Some('"')
        } else {
            None
        }
    }
}


/// The index entry for one column of a dataset: the four-part key and the
/// column reference it resolves to. The key always includes the dataset
/// name, so two columns of the same short name in different datasets never
/// collide.
pub open spec fn column_entry(cat: Seq<char>, sch: Seq<char>, ds: DatasetV, c: ColumnV) -> (
    QualifiedNameV,
    ColumnReferenceV,
) {
    (
        QualifiedNameV { catalog: cat, schema: sch, dataset: ds.name(), column: c.name },
        ColumnReferenceV { dataset: ds, column: c },
    )
}

/// Index entries of a run of columns owned by one dataset, in order.
pub open spec fn entries_of_columns(
    cat: Seq<char>,
    sch: Seq<char>,
    ds: DatasetV,
    cols: Seq<ColumnV>,
) -> Seq<(QualifiedNameV, ColumnReferenceV)>
    decreases cols.len(),
{
    if cols.len() == 0 {
        Seq::<(QualifiedNameV, ColumnReferenceV)>::empty()
    } else {
        entries_of_columns(cat, sch, ds, cols.drop_last()) + seq![
            column_entry(cat, sch, ds, cols.last()),
        ]
    }
}

/// Index entries of one model: one per column.
pub open spec fn model_entries(cat: Seq<char>, sch: Seq<char>, md: ModelV) -> Seq<
    (QualifiedNameV, ColumnReferenceV),
> {
    entries_of_columns(cat, sch, DatasetV::Model(md), md.columns)
}

/// Index entries of one metric: its dimensions, then its measures.
pub open spec fn metric_entries(cat: Seq<char>, sch: Seq<char>, mt: MetricV) -> Seq<
    (QualifiedNameV, ColumnReferenceV),
> {
    entries_of_columns(cat, sch, DatasetV::Metric(mt), mt.dimension) + entries_of_columns(
        cat,
        sch,
        DatasetV::Metric(mt),
        mt.measure,
    )
}

pub open spec fn entries_of_models(cat: Seq<char>, sch: Seq<char>, models: Seq<ModelV>) -> Seq<
    (QualifiedNameV, ColumnReferenceV),
>
    decreases models.len(),
{
    if models.len() == 0 {
        Seq::<(QualifiedNameV, ColumnReferenceV)>::empty()
    } else {
        entries_of_models(cat, sch, models.drop_last()) + model_entries(cat, sch, models.last())
    }
}

pub open spec fn entries_of_metrics(cat: Seq<char>, sch: Seq<char>, metrics: Seq<MetricV>) -> Seq<
    (QualifiedNameV, ColumnReferenceV),
>
    decreases metrics.len(),
{
    if metrics.len() == 0 {
        Seq::<(QualifiedNameV, ColumnReferenceV)>::empty()
    } else {
        entries_of_metrics(cat, sch, metrics.drop_last()) + metric_entries(
            cat,
            sch,
            metrics.last(),
        )
    }
}

/// Every index entry of a manifest: all model columns, then all metric
/// dimensions and measures.
pub open spec fn index_entries(m: ManifestV) -> Seq<(QualifiedNameV, ColumnReferenceV)> {
    entries_of_models(m.catalog, m.schema, m.models) + entries_of_metrics(
        m.catalog,
        m.schema,
        m.metrics,
    )
}

/// Looking a key up among the entries: the entry registered last wins, as
/// repeated insertion into a map would have it.
pub open spec fn lookup_entry(
    entries: Seq<(QualifiedNameV, ColumnReferenceV)>,
    q: QualifiedNameV,
) -> Option<ColumnReferenceV>
    decreases entries.len(),
{
    if entries.len() == 0 {
        None
    } else if entries.last().0 == q {
        Some(entries.last().1)
    } else {
        lookup_entry(entries.drop_last(), q)
    }
}

/// Looking a physical table up among the registered sources, last
/// registration first.
pub open spec fn lookup_table(tables: Seq<(String, DataSource)>, n: Seq<char>) -> Option<
    DataSource,
>
    decreases tables.len(),
{
    if tables.len() == 0 {
        None
    } else if tables.last().0@ == n {
        Some(tables.last().1)
    } else {
        lookup_table(tables.drop_last(), n)
    }
}

/// First model of the given name.
pub open spec fn find_model(models: Seq<ModelV>, name: Seq<char>) -> Option<ModelV>
    decreases models.len(),
{
    if models.len() == 0 {
        None
    } else if models[0].name == name {
        Some(models[0])
    } else {
        find_model(models.drop_first(), name)
    }
}

/// First view of the given name.
pub open spec fn find_view(views: Seq<SqlViewV>, name: Seq<char>) -> Option<SqlViewV>
    decreases views.len(),
{
    if views.len() == 0 {
        None
    } else if views[0].name == name {
        Some(views[0])
    } else {
        find_view(views.drop_first(), name)
    }
}

/// First relationship of the given name.
pub open spec fn find_relationship(rels: Seq<RelationshipV>, name: Seq<char>) -> Option<
    RelationshipV,
>
    decreases rels.len(),
{
    if rels.len() == 0 {
        None
    } else if rels[0].name == name {
        Some(rels[0])
    } else {
        find_relationship(rels.drop_first(), name)
    }
}

/// The resolved model index: every qualified column of the manifest under
/// its four-part key, plus the registry of physical sources. Built once,
/// read-only afterwards but for late source registration.
#[derive(Debug)]
pub struct WrenMDL {
    pub manifest: Manifest,
    pub qualified_references: Vec<(QualifiedName, ColumnReference)>,
    pub register_tables: Vec<(String, DataSource)>,
    pub catalog_schema_prefix: String,
}

impl WrenMDL {
    /// Builds the index: one entry per model column, then one per metric
    /// dimension and measure, each under `catalog.schema.dataset.column`.
    #[verifier::loop_isolation(false)]
    pub fn new(manifest: Manifest) -> (r: WrenMDL)
        ensures
            r.manifest == manifest,
            r.qualified_references.deep_view() == index_entries(manifest@),
            r.register_tables@.len() == 0,
            r.catalog_schema_prefix@ == manifest.catalog@ + "."@ + manifest.schema@ + "."@,
    {
        let ghost cat = manifest@.catalog;
        let ghost sch = manifest@.schema;
        let mut entries: Vec<(QualifiedName, ColumnReference)> = Vec::new();
        let mut mi: usize = 0;
        proof {
            assert(manifest@.models.take(0) =~= Seq::<ModelV>::empty());
            assert(entries.deep_view() =~= entries_of_models(cat, sch, manifest@.models.take(0)));
        }
        while mi < manifest.models.len()
            invariant
                mi <= manifest.models.len(),
                manifest@.models.len() == manifest.models.len(),
                entries.deep_view() == entries_of_models(cat, sch, manifest@.models.take(mi as int)),
                cat == manifest@.catalog,
                sch == manifest@.schema,
            decreases manifest.models.len() - mi,
        {
            let ghost before_model = entries.deep_view();
            let model = &manifest.models[mi];
            let ghost ds = DatasetV::Model(model@);
            let mut ci: usize = 0;
            proof {
                assert(model@.columns.take(0) =~= Seq::<ColumnV>::empty());
                assert(entries.deep_view() =~= before_model + entries_of_columns(
                    cat,
                    sch,
                    ds,
                    model@.columns.take(0),
                ));
            }
            while ci < model.columns.len()
                invariant
                    ci <= model.columns.len(),
                    model@.columns.len() == model.columns.len(),
                    entries.deep_view() == before_model + entries_of_columns(
                        cat,
                        sch,
                        ds,
                        model@.columns.take(ci as int),
                    ),
                decreases model.columns.len() - ci,
            {
                let ghost before = entries.deep_view();
                let column = &model.columns[ci];
                let qn = QualifiedName::new(
                    manifest.catalog.as_str(),
                    manifest.schema.as_str(),
                    model.name.as_str(),
                    column.name.as_str(),
                );
                let cr = ColumnReference {
                    dataset: Dataset::Model(model.clone()),
                    column: column.clone(),
                };
                entries.push((qn, cr));
                proof {
                    let cols1 = model@.columns.take(ci + 1);
                    assert(cols1.drop_last() =~= model@.columns.take(ci as int));
                    assert(cols1.last() == model@.columns[ci as int]);
                    assert(entries.deep_view() =~= before + seq![
                        column_entry(cat, sch, ds, model@.columns[ci as int]),
                    ]);
                    assert(before_model + entries_of_columns(cat, sch, ds, cols1)
                        =~= entries.deep_view());
                }
                ci += 1;
            }
            proof {
                assert(model@.columns.take(model.columns.len() as int) =~= model@.columns);
                let ms1 = manifest@.models.take(mi + 1);
                assert(ms1.drop_last() =~= manifest@.models.take(mi as int));
                assert(ms1.last() == model@);
                assert(entries.deep_view() =~= entries_of_models(cat, sch, ms1));
            }
            mi += 1;
        }
        proof {
            assert(manifest@.models.take(manifest.models.len() as int) =~= manifest@.models);
        }
        let ghost after_models = entries.deep_view();
        let mut ti: usize = 0;
        proof {
            assert(manifest@.metrics.take(0) =~= Seq::<MetricV>::empty());
            assert(entries.deep_view() =~= after_models + entries_of_metrics(
                cat,
                sch,
                manifest@.metrics.take(0),
            ));
        }
        while ti < manifest.metrics.len()
            invariant
                ti <= manifest.metrics.len(),
                manifest@.metrics.len() == manifest.metrics.len(),
                after_models == entries_of_models(cat, sch, manifest@.models),
                entries.deep_view() == after_models + entries_of_metrics(
                    cat,
                    sch,
                    manifest@.metrics.take(ti as int),
                ),
                cat == manifest@.catalog,
                sch == manifest@.schema,
            decreases manifest.metrics.len() - ti,
        {
            let ghost before_metric = entries.deep_view();
            let metric = &manifest.metrics[ti];
            let ghost ds = DatasetV::Metric(metric@);
            let mut ci: usize = 0;
            proof {
                assert(metric@.dimension.take(0) =~= Seq::<ColumnV>::empty());
                assert(entries.deep_view() =~= before_metric + entries_of_columns(
                    cat,
                    sch,
                    ds,
                    metric@.dimension.take(0),
                ));
            }
            while ci < metric.dimension.len()
                invariant
                    ci <= metric.dimension.len(),
                    metric@.dimension.len() == metric.dimension.len(),
                    entries.deep_view() == before_metric + entries_of_columns(
                        cat,
                        sch,
                        ds,
                        metric@.dimension.take(ci as int),
                    ),
                decreases metric.dimension.len() - ci,
            {
                let ghost before = entries.deep_view();
                let column = &metric.dimension[ci];
                let qn = QualifiedName::new(
                    manifest.catalog.as_str(),
                    manifest.schema.as_str(),
                    metric.name.as_str(),
                    column.name.as_str(),
                );
                let cr = ColumnReference {
                    dataset: Dataset::Metric(metric.clone()),
                    column: column.clone(),
                };
                entries.push((qn, cr));
                proof {
                    let cols1 = metric@.dimension.take(ci + 1);
                    assert(cols1.drop_last() =~= metric@.dimension.take(ci as int));
                    assert(cols1.last() == metric@.dimension[ci as int]);
                    assert(entries.deep_view() =~= before + seq![
                        column_entry(cat, sch, ds, metric@.dimension[ci as int]),
                    ]);
                    assert(before_metric + entries_of_columns(cat, sch, ds, cols1)
                        =~= entries.deep_view());
                }
                ci += 1;
            }
            proof {
                assert(metric@.dimension.take(metric.dimension.len() as int) =~= metric@.dimension);
            }
            let ghost after_dims = entries.deep_view();
            let mut mj: usize = 0;
            proof {
                assert(metric@.measure.take(0) =~= Seq::<ColumnV>::empty());
                assert(entries.deep_view() =~= after_dims + entries_of_columns(
                    cat,
                    sch,
                    ds,
                    metric@.measure.take(0),
                ));
            }
            while mj < metric.measure.len()
                invariant
                    mj <= metric.measure.len(),
                    metric@.measure.len() == metric.measure.len(),
                    after_dims == before_metric + entries_of_columns(cat, sch, ds, metric@.dimension),
                    entries.deep_view() == after_dims + entries_of_columns(
                        cat,
                        sch,
                        ds,
                        metric@.measure.take(mj as int),
                    ),
                decreases metric.measure.len() - mj,
            {
                let ghost before = entries.deep_view();
                let column = &metric.measure[mj];
                let qn = QualifiedName::new(
                    manifest.catalog.as_str(),
                    manifest.schema.as_str(),
                    metric.name.as_str(),
                    column.name.as_str(),
                );
                let cr = ColumnReference {
                    dataset: Dataset::Metric(metric.clone()),
                    column: column.clone(),
                };
                entries.push((qn, cr));
                proof {
                    let cols1 = metric@.measure.take(mj + 1);
                    assert(cols1.drop_last() =~= metric@.measure.take(mj as int));
                    assert(cols1.last() == metric@.measure[mj as int]);
                    assert(entries.deep_view() =~= before + seq![
                        column_entry(cat, sch, ds, metric@.measure[mj as int]),
                    ]);
                    assert(after_dims + entries_of_columns(cat, sch, ds, cols1)
                        =~= entries.deep_view());
                }
                mj += 1;
            }
            proof {
                assert(metric@.measure.take(metric.measure.len() as int) =~= metric@.measure);
                let ts1 = manifest@.metrics.take(ti + 1);
                assert(ts1.drop_last() =~= manifest@.metrics.take(ti as int));
                assert(ts1.last() == metric@);
                assert(entries.deep_view() =~= after_models + entries_of_metrics(cat, sch, ts1));
            }
            ti += 1;
        }
        proof {
            assert(manifest@.metrics.take(manifest.metrics.len() as int) =~= manifest@.metrics);
        }
        let mut prefix = manifest.catalog.clone();
        prefix.append(".");
        prefix.append(manifest.schema.as_str());
        prefix.append(".");
        proof {
            assert(prefix@ =~= manifest.catalog@ + "."@ + manifest.schema@ + "."@);
        }
        WrenMDL {
            manifest,
            qualified_references: entries,
            register_tables: Vec::new(),
            catalog_schema_prefix: prefix,
        }
    }
}


impl WrenMDL {
    pub fn new_ref(manifest: Manifest) -> (r: std::sync::Arc<WrenMDL>)
        ensures
            r.manifest == manifest,
            r.qualified_references.deep_view() == index_entries(manifest@),
            r.register_tables@.len() == 0,
            r.catalog_schema_prefix@ == manifest.catalog@ + "."@ + manifest.schema@ + "."@,
    {
        std::sync::Arc::new(WrenMDL::new(manifest))
    }

    /// Registers a physical source under a table name; a later registration
    /// of the same name wins on lookup.
    pub fn register_table(&mut self, name: String, table: DataSource)
        ensures
            final(self).register_tables@ == old(self).register_tables@.push((name, table)),
            final(self).manifest == old(self).manifest,
            final(self).qualified_references == old(self).qualified_references,
            final(self).catalog_schema_prefix == old(self).catalog_schema_prefix,
    {
        self.register_tables.push((name, table));
    }

    #[verifier::loop_isolation(false)]
    pub fn get_table(&self, name: &str) -> (r: Option<&DataSource>)
        ensures
            r matches Some(d) ==> lookup_table(self.register_tables@, name@) == Some(*d),
            r is None <==> lookup_table(self.register_tables@, name@) is None,
    {
        let tables = &self.register_tables;
        let ghost full = tables@;
        let mut i: usize = tables.len();
        proof {
            assert(full.take(tables.len() as int) =~= full);
        }
        while i > 0
            invariant
                i <= tables.len(),
                lookup_table(full, name@) == lookup_table(full.take(i as int), name@),
            decreases i,
        {
            i -= 1;
            proof {
                assert(full.take(i + 1).drop_last() =~= full.take(i as int));
                assert(full.take(i + 1).last() == full[i as int]);
            }
            if str_eq(tables[i].0.as_str(), name) {
                return Some(&tables[i].1);
            }
        }
        proof {
            assert(full.take(0) =~= Seq::<(String, DataSource)>::empty());
        }
        None
    }

    pub fn get_register_tables(&self) -> (r: &Vec<(String, DataSource)>)
        ensures
            r@ == self.register_tables@,
    {
        &self.register_tables
    }

    pub fn catalog(&self) -> (r: &str)
        ensures
            r@ == self.manifest.catalog@,
    {
        self.manifest.catalog.as_str()
    }

    pub fn schema(&self) -> (r: &str)
        ensures
            r@ == self.manifest.schema@,
    {
        self.manifest.schema.as_str()
    }

    pub fn models(&self) -> (r: &Vec<Model>)
        ensures
            r@ == self.manifest.models@,
    {
        &self.manifest.models
    }

    /// First model of the given name.
    #[verifier::loop_isolation(false)]
    pub fn get_model(&self, name: &str) -> (r: Option<&Model>)
        ensures
            r.deep_view() == find_model(self.manifest@.models, name@),
    {
        let models = &self.manifest.models;
        let ghost full = self.manifest@.models;
        let mut i: usize = 0;
        proof {
            assert(full.skip(0) =~= full);
        }
        while i < models.len()
            invariant
                i <= models.len(),
                find_model(full, name@) == find_model(full.skip(i as int), name@),
            decreases models.len() - i,
        {
            proof {
                assert(full.skip(i as int)[0] == full[i as int]);
                assert(full.skip(i as int).drop_first() =~= full.skip(i + 1));
            }
            if str_eq(models[i].name.as_str(), name) {
                return Some(&models[i]);
            }
            i += 1;
        }
        proof {
            assert(full.skip(models.len() as int) =~= Seq::<ModelV>::empty());
        }
        None
    }

    /// First view of the given name.
    #[verifier::loop_isolation(false)]
    pub fn get_view(&self, name: &str) -> (r: Option<&SqlView>)
        ensures
            r.deep_view() == find_view(self.manifest@.views, name@),
    {
        let views = &self.manifest.views;
        let ghost full = self.manifest@.views;
        let mut i: usize = 0;
        proof {
            assert(full.skip(0) =~= full);
        }
        while i < views.len()
            invariant
                i <= views.len(),
                find_view(full, name@) == find_view(full.skip(i as int), name@),
            decreases views.len() - i,
        {
            proof {
                assert(full.skip(i as int)[0] == full[i as int]);
                assert(full.skip(i as int).drop_first() =~= full.skip(i + 1));
            }
            if str_eq(views[i].name.as_str(), name) {
                return Some(&views[i]);
            }
            i += 1;
        }
        proof {
            assert(full.skip(views.len() as int) =~= Seq::<SqlViewV>::empty());
        }
        None
    }

    /// First relationship of the given name.
    #[verifier::loop_isolation(false)]
    pub fn get_relationship(&self, name: &str) -> (r: Option<&Relationship>)
        ensures
            r.deep_view() == find_relationship(self.manifest@.relationships, name@),
    {
        let rels = &self.manifest.relationships;
        let ghost full = self.manifest@.relationships;
        let mut i: usize = 0;
        proof {
            assert(full.skip(0) =~= full);
        }
        while i < rels.len()
            invariant
                i <= rels.len(),
                find_relationship(full, name@) == find_relationship(full.skip(i as int), name@),
            decreases rels.len() - i,
        {
            proof {
                assert(full.skip(i as int)[0] == full[i as int]);
                assert(full.skip(i as int).drop_first() =~= full.skip(i + 1));
            }
            if str_eq(rels[i].name.as_str(), name) {
                return Some(&rels[i]);
            }
            i += 1;
        }
        proof {
            assert(full.skip(rels.len() as int) =~= Seq::<RelationshipV>::empty());
        }
        None
    }

    /// Exact lookup of a four-part qualified name; the entry registered last
    /// wins.
    #[verifier::loop_isolation(false)]
    pub fn get_column_reference(&self, name: &QualifiedName) -> (r: Option<ColumnReference>)
        ensures
            r.deep_view() == lookup_entry(self.qualified_references.deep_view(), name@),
    {
        let entries = &self.qualified_references;
        let ghost full = entries.deep_view();
        let mut i: usize = entries.len();
        proof {
            assert(full.take(entries.len() as int) =~= full);
        }
        while i > 0
            invariant
                i <= entries.len(),
                lookup_entry(full, name@) == lookup_entry(full.take(i as int), name@),
            decreases i,
        {
            i -= 1;
            proof {
                assert(full.take(i + 1).drop_last() =~= full.take(i as int));
                assert(full.take(i + 1).last() == full[i as int]);
            }
            if entries[i].0.matches(name) {
                return Some(entries[i].1.clone());
            }
        }
        proof {
            assert(full.take(0) =~= Seq::<(QualifiedNameV, ColumnReferenceV)>::empty());
        }
        None
    }

    pub fn catalog_schema_prefix(&self) -> (r: &str)
        ensures
            r@ == self.catalog_schema_prefix@,
    {
        self.catalog_schema_prefix.as_str()
    }
}

/// What physical field a column contributes to its model's inferred schema:
/// a calculated or relationship-bearing column contributes none; a column
/// without an expression passes through under its own name; a column whose
/// expression is a bare or dotted identifier chain contributes the chain's
/// final identifier; any other expression shape cannot be inferred.
pub open spec fn spec_infer_source_column(c: ColumnV) -> Option<SourceFieldV> {
    if c.is_calculated || c.relationship is Some {
        None
    } else {
        match c.expression {
            None => Some(
                SourceFieldV { name: c.name, field_type: c.column_type, not_null: c.not_null },
            ),
            Some(e) => match parse_chain(e, 0) {
                Some(last) => Some(
                    SourceFieldV {
                        name: last,
                        field_type: c.column_type,
                        not_null: c.not_null,
                    },
                ),
                None => None,
            },
        }
    }
}

/// The inferred physical schema of a run of columns, in order.
pub open spec fn inferred_fields(cols: Seq<ColumnV>) -> Seq<SourceFieldV>
    decreases cols.len(),
{
    if cols.len() == 0 {
        Seq::<SourceFieldV>::empty()
    } else {
        inferred_fields(cols.drop_last()) + (match spec_infer_source_column(cols.last()) {
            Some(f) => seq![f],
            None => Seq::<SourceFieldV>::empty(),
        })
    }
}

impl WrenMDL {
    /// Infers the physical source field behind one column, when its
    /// expression allows it.
    pub fn infer_source_column(column: &Column) -> (r: Option<SourceField>)
        ensures
            r.deep_view() == spec_infer_source_column(column@),
    {
        if column.is_calculated || column.relationship.is_some() {
            return None;
        }
        match &column.expression {
            None => Some(
                SourceField {
                    name: column.name.clone(),
                    field_type: column.column_type.clone(),
                    not_null: column.not_null,
                },
            ),
            Some(e) => match identifier_chain_last(e.as_str()) {
                Some(last) => Some(
                    SourceField {
                        name: last,
                        field_type: column.column_type.clone(),
                        not_null: column.not_null,
                    },
                ),
                None => None,
            },
        }
    }

    /// Builds the index and registers, for every model, the minimal physical
    /// schema its non-calculated columns imply, under the engine's quoted
    /// rendering of the model's table path.
    #[verifier::loop_isolation(false)]
    pub fn infer_and_register_remote_table(manifest: Manifest) -> (r: WrenMDL)
        ensures
            r.manifest == manifest,
            r.qualified_references.deep_view() == index_entries(manifest@),
            r.catalog_schema_prefix@ == manifest.catalog@ + "."@ + manifest.schema@ + "."@,
            r.register_tables@.len() == manifest@.models.len(),
            forall|i: int|
                0 <= i < manifest@.models.len() ==> {
                    &&& (#[trigger] r.register_tables@[i]).0@ == quoted_table_ref(
                        manifest@.models[i].table_path(),
                    )
                    &&& r.register_tables@[i].1@.fields == inferred_fields(
                        manifest@.models[i].columns,
                    )
                },
    {
        let mut mdl = WrenMDL::new(manifest);
        let mut sources: Vec<(String, DataSource)> = Vec::new();
        let mut mi: usize = 0;
        while mi < mdl.manifest.models.len()
            invariant
                mi <= mdl.manifest.models.len(),
                sources@.len() == mi,
                forall|k: int|
                    0 <= k < mi ==> {
                        &&& (#[trigger] sources@[k]).0@ == quoted_table_ref(
                            mdl.manifest@.models[k].table_path(),
                        )
                        &&& sources@[k].1@.fields == inferred_fields(
                            mdl.manifest@.models[k].columns,
                        )
                    },
            decreases mdl.manifest.models.len() - mi,
        {
            let model = &mdl.manifest.models[mi];
            let mut fields: Vec<SourceField> = Vec::new();
            let mut ci: usize = 0;
            proof {
                assert(model@.columns.take(0) =~= Seq::<ColumnV>::empty());
                assert(fields.deep_view() =~= inferred_fields(model@.columns.take(0)));
            }
            while ci < model.columns.len()
                invariant
                    ci <= model.columns.len(),
                    fields.deep_view() == inferred_fields(model@.columns.take(ci as int)),
                decreases model.columns.len() - ci,
            {
                let ghost before = fields.deep_view();
                let inferred = WrenMDL::infer_source_column(&model.columns[ci]);
                match inferred {
                    Some(f) => {
                        fields.push(f);
                        proof {
                            assert(fields.deep_view() =~= before + seq![f@]);
                        }
                    },
                    None => {},
                }
                proof {
                    let cols1 = model@.columns.take(ci + 1);
                    assert(cols1.drop_last() =~= model@.columns.take(ci as int));
                    assert(cols1.last() == model@.columns[ci as int]);
                    assert(fields.deep_view() =~= inferred_fields(cols1));
                }
                ci += 1;
            }
            proof {
                assert(model@.columns.take(model.columns.len() as int) =~= model@.columns);
            }
            let qname = quoted_table_reference(model.table_reference());
            proof {
                assert(model.spec_table_reference() == model@.table_path());
            }
            sources.push((qname, DataSource { fields }));
            mi += 1;
        }
        mdl.register_tables = sources;
        mdl
    }
}

/// Every index entry's key carries the manifest's catalog and schema, the
/// owning dataset's name, and the column's own name.
pub open spec fn entry_key_wf(m: ManifestV, e: (QualifiedNameV, ColumnReferenceV)) -> bool {
    &&& e.0.catalog == m.catalog
    &&& e.0.schema == m.schema
    &&& e.0.dataset == e.1.dataset.name()
    &&& e.0.column == e.1.column.name
}

proof fn lemma_entries_of_columns_keys(
    cat: Seq<char>,
    sch: Seq<char>,
    ds: DatasetV,
    cols: Seq<ColumnV>,
)
    ensures
        entries_of_columns(cat, sch, ds, cols).len() == cols.len(),
        forall|k: int|
            0 <= k < cols.len() ==> #[trigger] entries_of_columns(cat, sch, ds, cols)[k]
                == column_entry(cat, sch, ds, cols[k]),
    decreases cols.len(),
{
    if cols.len() > 0 {
        lemma_entries_of_columns_keys(cat, sch, ds, cols.drop_last());
        assert forall|k: int| 0 <= k < cols.len() implies #[trigger] entries_of_columns(
            cat,
            sch,
            ds,
            cols,
        )[k] == column_entry(cat, sch, ds, cols[k]) by {
            if k < cols.len() - 1 {
                assert(cols.drop_last()[k] == cols[k]);
            }
        }
    }
}

proof fn lemma_entries_of_models_keys(m: ManifestV, models: Seq<ModelV>)
    ensures
        forall|k: int|
            0 <= k < entries_of_models(m.catalog, m.schema, models).len() ==> entry_key_wf(
                m,
                #[trigger] entries_of_models(m.catalog, m.schema, models)[k],
            ),
    decreases models.len(),
{
    if models.len() > 0 {
        lemma_entries_of_models_keys(m, models.drop_last());
        lemma_entries_of_columns_keys(
            m.catalog,
            m.schema,
            DatasetV::Model(models.last()),
            models.last().columns,
        );
        let e = entries_of_models(m.catalog, m.schema, models);
        let left = entries_of_models(m.catalog, m.schema, models.drop_last());
        let right = model_entries(m.catalog, m.schema, models.last());
        assert forall|k: int| 0 <= k < e.len() implies entry_key_wf(m, #[trigger] e[k]) by {
            if k < left.len() {
                assert(e[k] == left[k]);
            } else {
                assert(e[k] == right[k - left.len()]);
                assert(right[k - left.len()] == column_entry(
                    m.catalog,
                    m.schema,
                    DatasetV::Model(models.last()),
                    models.last().columns[k - left.len()],
                ));
            }
        }
    }
}

proof fn lemma_entries_of_metrics_keys(m: ManifestV, metrics: Seq<MetricV>)
    ensures
        forall|k: int|
            0 <= k < entries_of_metrics(m.catalog, m.schema, metrics).len() ==> entry_key_wf(
                m,
                #[trigger] entries_of_metrics(m.catalog, m.schema, metrics)[k],
            ),
    decreases metrics.len(),
{
    if metrics.len() > 0 {
        lemma_entries_of_metrics_keys(m, metrics.drop_last());
        let mt = metrics.last();
        let ds = DatasetV::Metric(mt);
        lemma_entries_of_columns_keys(m.catalog, m.schema, ds, mt.dimension);
        lemma_entries_of_columns_keys(m.catalog, m.schema, ds, mt.measure);
        let e = entries_of_metrics(m.catalog, m.schema, metrics);
        let left = entries_of_metrics(m.catalog, m.schema, metrics.drop_last());
        let dims = entries_of_columns(m.catalog, m.schema, ds, mt.dimension);
        let meas = entries_of_columns(m.catalog, m.schema, ds, mt.measure);
        assert forall|k: int| 0 <= k < e.len() implies entry_key_wf(m, #[trigger] e[k]) by {
            if k < left.len() {
                assert(e[k] == left[k]);
            } else if k < left.len() + dims.len() {
                assert(e[k] == dims[k - left.len()]);
                assert(dims[k - left.len()] == column_entry(
                    m.catalog,
                    m.schema,
                    ds,
                    mt.dimension[k - left.len()],
                ));
            } else {
                assert(e[k] == meas[k - left.len() - dims.len()]);
                assert(meas[k - left.len() - dims.len()] == column_entry(
                    m.catalog,
                    m.schema,
                    ds,
                    mt.measure[k - left.len() - dims.len()],
                ));
            }
        }
    }
}

/// Every entry of the model index keys the pair it resolves to.
pub proof fn lemma_index_entry_keys(m: ManifestV)
    ensures
        forall|k: int|
            0 <= k < index_entries(m).len() ==> entry_key_wf(m, #[trigger] index_entries(m)[k]),
{
    lemma_entries_of_models_keys(m, m.models);
    lemma_entries_of_metrics_keys(m, m.metrics);
}

/// Qualified-name uniqueness: two index entries made for different datasets,
/// or for differently named columns, always stand under distinct keys.
pub proof fn lemma_qualified_name_uniqueness(m: ManifestV, i: int, j: int)
    requires
        0 <= i < index_entries(m).len(),
        0 <= j < index_entries(m).len(),
        index_entries(m)[i].1.dataset.name() != index_entries(m)[j].1.dataset.name()
            || index_entries(m)[i].1.column.name != index_entries(m)[j].1.column.name,
    ensures
        index_entries(m)[i].0 != index_entries(m)[j].0,
{
    lemma_index_entry_keys(m);
}


/// The analyzed model: the immutable unit shared by reference across
/// concurrent transforms — the model index together with its lineage, which
/// carries the witness that the column dependency graph is acyclic.
#[derive(Debug)]
pub struct AnalyzedWrenMDL {
    pub wren_mdl: std::sync::Arc<WrenMDL>,
    pub lineage: std::sync::Arc<Lineage>,
}

impl AnalyzedWrenMDL {
    /// The lineage fits the index: one dependency list per indexed column,
    /// ordered without cycles.
    pub open spec fn wf(self) -> bool {
        self.lineage.wf(self.wren_mdl.qualified_references@.len() as int)
    }

    /// Builds the index with inferred physical sources and resolves
    /// lineage. Succeeds unless the manifest's column dependencies are
    /// cyclic or a column names a relationship that does not exist, and an
    /// error always carries its witness: an unresolved-reference error
    /// names a relationship some indexed column bears that resolves to
    /// nothing, and a cycle error names a set of columns each depending on
    /// another of the set.
    pub fn analyze(manifest: Manifest) -> (r: Result<AnalyzedWrenMDL, LineageError>)
        ensures
            r matches Ok(a) ==> ({
                &&& a.wren_mdl.manifest == manifest
                &&& a.wren_mdl.qualified_references.deep_view() == index_entries(manifest@)
                &&& a.wren_mdl.register_tables@.len() == manifest@.models.len()
                &&& a.wren_mdl.catalog_schema_prefix@ == manifest.catalog@ + "."@
                    + manifest.schema@ + "."@
                &&& a.wf()
                &&& forall|k: int|
                    0 <= k < a.lineage.deps@.len() && is_leaf_column(
                        #[trigger] index_entries(manifest@)[k],
                    ) ==> a.lineage.deps@[k]@.len() == 0
                &&& forall|k: int|
                    0 <= k < a.lineage.deps@.len() && is_plain_calculated(
                        #[trigger] index_entries(manifest@)[k],
                    ) ==> calc_edges_complete(
                        index_entries(manifest@),
                        a.lineage.deps@[k]@,
                        k,
                    )
                &&& forall|k: int|
                    0 <= k < a.lineage.deps@.len() ==> rel_edges_complete(
                        index_entries(manifest@),
                        manifest@.relationships,
                        (#[trigger] a.lineage.deps@[k])@,
                        k,
                    )
                &&& forall|k: int|
                    0 <= k < a.lineage.deps@.len() ==> edges_justified(
                        index_entries(manifest@),
                        manifest@.relationships,
                        (#[trigger] a.lineage.deps@[k])@,
                        k,
                    )
            }),
            r matches Err(e) ==> (match e {
                LineageError::Cycle(names) => cycle_witness(
                    index_entries(manifest@),
                    manifest@.relationships,
                    names.deep_view(),
                ),
                LineageError::UnresolvedReference(n) => unresolved_relationship(
                    index_entries(manifest@),
                    manifest@.relationships,
                    n@,
                ),
            }),
    {
        let mdl = WrenMDL::infer_and_register_remote_table(manifest);
        let lin = match Lineage::new(&mdl) {
            Ok(l) => l,
            Err(e) => {
                proof {
                    assert(mdl.qualified_references.deep_view() == index_entries(manifest@));
                    assert(mdl.manifest@.relationships == manifest@.relationships);
                }
                return Err(e);
            },
        };
        Ok(
            AnalyzedWrenMDL {
                wren_mdl: std::sync::Arc::new(mdl),
                lineage: std::sync::Arc::new(lin),
            },
        )
    }

    /// Builds the index with the given physical sources registered instead
    /// of inferred ones, and resolves lineage. Succeeds and fails exactly
    /// as [`Self::analyze`] does, with the same error witnesses.
    pub fn analyze_with_tables(manifest: Manifest, register_tables: Vec<(String, DataSource)>) -> (r:
        Result<AnalyzedWrenMDL, LineageError>)
        ensures
            r matches Ok(a) ==> ({
                &&& a.wren_mdl.manifest == manifest
                &&& a.wren_mdl.qualified_references.deep_view() == index_entries(manifest@)
                &&& a.wren_mdl.register_tables@ == register_tables@
                &&& a.wren_mdl.catalog_schema_prefix@ == manifest.catalog@ + "."@
                    + manifest.schema@ + "."@
                &&& a.wf()
                &&& forall|k: int|
                    0 <= k < a.lineage.deps@.len() && is_leaf_column(
                        #[trigger] index_entries(manifest@)[k],
                    ) ==> a.lineage.deps@[k]@.len() == 0
                &&& forall|k: int|
                    0 <= k < a.lineage.deps@.len() && is_plain_calculated(
                        #[trigger] index_entries(manifest@)[k],
                    ) ==> calc_edges_complete(
                        index_entries(manifest@),
                        a.lineage.deps@[k]@,
                        k,
                    )
                &&& forall|k: int|
                    0 <= k < a.lineage.deps@.len() ==> rel_edges_complete(
                        index_entries(manifest@),
                        manifest@.relationships,
                        (#[trigger] a.lineage.deps@[k])@,
                        k,
                    )
                &&& forall|k: int|
                    0 <= k < a.lineage.deps@.len() ==> edges_justified(
                        index_entries(manifest@),
                        manifest@.relationships,
                        (#[trigger] a.lineage.deps@[k])@,
                        k,
                    )
            }),
            r matches Err(e) ==> (match e {
                LineageError::Cycle(names) => cycle_witness(
                    index_entries(manifest@),
                    manifest@.relationships,
                    names.deep_view(),
                ),
                LineageError::UnresolvedReference(n) => unresolved_relationship(
                    index_entries(manifest@),
                    manifest@.relationships,
                    n@,
                ),
            }),
    {
        let mut mdl = WrenMDL::new(manifest);
        mdl.register_tables = register_tables;
        let lin = match Lineage::new(&mdl) {
            Ok(l) => l,
            Err(e) => {
                proof {
                    assert(mdl.qualified_references.deep_view() == index_entries(manifest@));
                    assert(mdl.manifest@.relationships == manifest@.relationships);
                }
                return Err(e);
            },
        };
        Ok(
            AnalyzedWrenMDL {
                wren_mdl: std::sync::Arc::new(mdl),
                lineage: std::sync::Arc::new(lin),
            },
        )
    }

    /// A shared handle to the model index.
    pub fn wren_mdl(&self) -> (r: std::sync::Arc<WrenMDL>)
        ensures
            r == self.wren_mdl,
    {
        arc_clone(&self.wren_mdl)
    }

    /// The resolved lineage.
    pub fn lineage(&self) -> (r: &Lineage)
        ensures
            *r == self.lineage,
    {
        &*self.lineage
    }
}

impl Default for AnalyzedWrenMDL {
    /// The analyzed form of an empty manifest.
    fn default() -> (r: Self)
        ensures
            r.wf(),
            r.wren_mdl.manifest@.models.len() == 0,
            r.wren_mdl.manifest@.metrics.len() == 0,
    {
        let manifest = Manifest {
            catalog: "wren".to_owned(),
            schema: "public".to_owned(),
            models: Vec::new(),
            relationships: Vec::new(),
            metrics: Vec::new(),
            views: Vec::new(),
        };
        proof {
            assert(manifest@.models =~= Seq::<ModelV>::empty());
            assert(manifest@.metrics =~= Seq::<MetricV>::empty());
        }
        let mdl = WrenMDL::new(manifest);
        let lin = Lineage { deps: Vec::new(), order: Vec::new(), required: Vec::new() };
        proof {
            assert(index_entries(mdl.manifest@) =~= Seq::<(QualifiedNameV, ColumnReferenceV)>::empty());
            assert(mdl.qualified_references.deep_view().len() == 0);
            assert(lin.wf(0));
        }
        AnalyzedWrenMDL {
            wren_mdl: std::sync::Arc::new(mdl),
            lineage: std::sync::Arc::new(lin),
        }
    }
}

/// Hook for decision-point analysis of a statement; a no-op at this layer.
pub fn decision_point_analyze(_wren_mdl: std::sync::Arc<WrenMDL>, _sql: &str) {
}

} // verus!



