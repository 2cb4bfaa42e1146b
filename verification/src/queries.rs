//! The compiled query representation: the JSON-shaped element sequence,
//! the directed join graph, and the statement rendering.

use crate::arguments::{
    is_pagination, Filter, FilterOp, FilterPredV, FilterV, ParamType, ParamTypeV, QueryParams,
    ScalarV, ScalarValue,
};
use crate::strmap::StrMap;
use vstd::prelude::*;

verus! {

/// The view of one element of the compiled projection.
#[verifier::ext_equal]
pub enum QueryElementV {
    FieldV { key: Seq<char>, value: Seq<char> },
    OpenV { key: Seq<char> },
    CloseV,
}

/// One element of the compiled projection: a column under its key, or a
/// boundary of a nested object.
#[derive(Clone, Debug, PartialEq)]
pub enum QueryElement {
    Field { key: String, value: String },
    ObjectOpeningBoundary { key: String },
    ObjectClosingBoundary,
}

impl View for QueryElement {
    type V = QueryElementV;

    open spec fn view(&self) -> QueryElementV {
        match self {
            QueryElement::Field { key, value } => QueryElementV::FieldV {
                key: key@,
                value: value@,
            },
            QueryElement::ObjectOpeningBoundary { key } => QueryElementV::OpenV { key: key@ },
            QueryElement::ObjectClosingBoundary => QueryElementV::CloseV,
        }
    }
}

pub open spec fn elems_view(es: Seq<QueryElement>) -> Seq<QueryElementV> {
    Seq::new(es.len(), |i: int| es[i]@)
}

/// The opening boundaries in the sequence.
pub open spec fn count_opens(es: Seq<QueryElementV>) -> int
    decreases es.len(),
{
    if es.len() == 0 {
        0
    } else {
        count_opens(es.drop_last()) + if es.last() is OpenV {
            1int
        } else {
            0int
        }
    }
}

/// The closing boundaries in the sequence.
pub open spec fn count_closes(es: Seq<QueryElementV>) -> int
    decreases es.len(),
{
    if es.len() == 0 {
        0
    } else {
        count_closes(es.drop_last()) + if es.last() is CloseV {
            1int
        } else {
            0int
        }
    }
}

/// Boundary balance: openings and closings pair up, and no prefix
/// closes an object it never opened.
pub open spec fn balanced(es: Seq<QueryElementV>) -> bool {
    &&& count_opens(es) == count_closes(es)
    &&& forall|k: int|
        0 <= k <= es.len() ==> count_closes(#[trigger] es.subrange(0, k)) <= count_opens(
            es.subrange(0, k),
        )
}

/// The view of one join condition.
#[verifier::ext_equal]
pub struct JoinConditionV {
    pub referencing_key_table: Seq<char>,
    pub referencing_key_col: Seq<char>,
    pub primary_key_table: Seq<char>,
    pub primary_key_col: Seq<char>,
}

/// One join: the referencing table's column equated with the primary
/// table's key column.
#[derive(Clone, Debug, PartialEq)]
pub struct JoinCondition {
    pub referencing_key_table: String,
    pub referencing_key_col: String,
    pub primary_key_table: String,
    pub primary_key_col: String,
}

impl View for JoinCondition {
    type V = JoinConditionV;

    open spec fn view(&self) -> JoinConditionV {
        JoinConditionV {
            referencing_key_table: self.referencing_key_table@,
            referencing_key_col: self.referencing_key_col@,
            primary_key_table: self.primary_key_table@,
            primary_key_col: self.primary_key_col@,
        }
    }
}

/// One table's place in the directed join graph: the joins it depends
/// on, and the joins that depend on it.
#[derive(Debug, PartialEq)]
pub struct QueryJoinNode {
    pub dependencies: StrMap<JoinCondition>,
    pub dependents: StrMap<JoinCondition>,
}

#[verifier::ext_equal]
pub struct QueryJoinNodeV {
    pub dependencies: Seq<(Seq<char>, JoinConditionV)>,
    pub dependents: Seq<(Seq<char>, JoinConditionV)>,
}

impl View for QueryJoinNode {
    type V = QueryJoinNodeV;

    open spec fn view(&self) -> QueryJoinNodeV {
        QueryJoinNodeV { dependencies: self.dependencies@, dependents: self.dependents@ }
    }
}

/// The directed edges of the join graph: one `(referencing, primary)`
/// table pair per dependency entry.
pub open spec fn join_edges(
    joins: Seq<(Seq<char>, QueryJoinNodeV)>,
) -> Set<(Seq<char>, Seq<char>)> {
    Set::new(
        |e: (Seq<char>, Seq<char>)|
            exists|i: int, j: int|
                0 <= i < joins.len() && 0 <= j < (#[trigger] joins[i]).1.dependencies.len()
                    && e == (joins[i].0, (#[trigger] joins[i].1.dependencies[j]).0),
    )
}

/// A cycle in an edge relation: consecutive nodes are edges, and the
/// last node steps back to the first.
pub open spec fn is_cycle(rel: Set<(Seq<char>, Seq<char>)>, path: Seq<Seq<char>>) -> bool {
    &&& path.len() > 0
    &&& forall|k: int| 0 <= k < path.len() - 1 ==> rel.contains((#[trigger] path[k], path[k + 1]))
    &&& rel.contains((path.last(), path[0]))
}

pub open spec fn acyclic(rel: Set<(Seq<char>, Seq<char>)>) -> bool {
    forall|path: Seq<Seq<char>>| !(#[trigger] is_cycle(rel, path))
}

/// Join acyclicity: a graph whose edges all come from an acyclic
/// relation holds no cycle. The compiler only inserts edges drawn from
/// the schema's foreign-key dictionary, so its join graph is acyclic
/// whenever the schema's table references are.
pub proof fn lemma_join_acyclicity(
    edges: Set<(Seq<char>, Seq<char>)>,
    rel: Set<(Seq<char>, Seq<char>)>,
)
    requires
        edges.subset_of(rel),
        acyclic(rel),
    ensures
        acyclic(edges),
{
    assert forall|path: Seq<Seq<char>>| !(#[trigger] is_cycle(edges, path)) by {
        if is_cycle(edges, path) {
            assert forall|k: int| 0 <= k < path.len() - 1 implies rel.contains(
                (#[trigger] path[k], path[k + 1]),
            ) by {
                assert(edges.contains((path[k], path[k + 1])));
            }
            assert(edges.contains((path.last(), path[0])));
            assert(is_cycle(rel, path));
        }
    }
}

/// A compiled query: the element sequence, the join graph, and the
/// parameters, under the namespaced root entity.
#[derive(Debug, PartialEq)]
pub struct UserQuery {
    pub elements: Vec<QueryElement>,
    pub joins: StrMap<QueryJoinNode>,
    pub namespace_identifier: String,
    pub entity_name: String,
    pub query_params: QueryParams,
    pub alias: Option<String>,
}



/// The rendered form of a scalar literal.
pub open spec fn scalar_chars(v: ScalarV) -> Seq<char> {
    match v {
        ScalarV::IntV(n) => crate::strutil::dec_seq_i64(n),
        ScalarV::StrV(t) => "'"@ + t + "'"@,
        ScalarV::BoolV(b) => if b {
            "true"@
        } else {
            "false"@
        },
    }
}

/// The rendered form of a comparison.
pub open spec fn op_chars(op: FilterOp) -> Seq<char> {
    match op {
        FilterOp::EqOp => " = "@,
        FilterOp::NeOp => " != "@,
        FilterOp::LtOp => " < "@,
        FilterOp::LeOp => " <= "@,
        FilterOp::GtOp => " > "@,
        FilterOp::GeOp => " >= "@,
        FilterOp::InOp => " IN "@,
        FilterOp::LikeOp => " LIKE "@,
        FilterOp::BetweenOp => " >= "@,
        FilterOp::HasOp => " = "@,
    }
}

pub open spec fn pred_chars(scope: Seq<char>, p: FilterPredV) -> Seq<char> {
    scope + "."@ + p.field + op_chars(p.op) + (if p.args.len() > 0 {
        scalar_chars(p.args[0])
    } else {
        Seq::empty()
    })
}

/// The rendered form of a predicate tree under its owning table.
pub open spec fn filter_chars(scope: Seq<char>, f: FilterV) -> Seq<char>
    decreases f,
{
    match f {
        FilterV::PredV(p) => pred_chars(scope, p),
        FilterV::AndV(a, b) => "("@ + filter_chars(scope, *a) + " AND "@ + filter_chars(
            scope,
            *b,
        ) + ")"@,
        FilterV::OrV(a, b) => "("@ + filter_chars(scope, *a) + " OR "@ + filter_chars(
            scope,
            *b,
        ) + ")"@,
        FilterV::NotV(a) => "NOT ("@ + filter_chars(scope, *a) + ")"@,
    }
}

/// One element's piece of the JSON projection, under the comma state.
pub open spec fn proj_piece(e: QueryElementV, need_comma: bool) -> (Seq<char>, bool) {
    match e {
        QueryElementV::FieldV { key, value } => (
            (if need_comma {
                ", "@
            } else {
                Seq::empty()
            }) + "'"@ + key + "', "@ + value,
            true,
        ),
        QueryElementV::OpenV { key } => (
            (if need_comma {
                ", "@
            } else {
                Seq::empty()
            }) + "'"@ + key + "', json_build_object("@,
            false,
        ),
        QueryElementV::CloseV => (")"@, true),
    }
}

/// The JSON projection of an element sequence, with its comma state.
pub open spec fn proj_fold(es: Seq<QueryElementV>) -> (Seq<char>, bool)
    decreases es,
{
    if es.len() == 0 {
        (Seq::empty(), false)
    } else {
        let prev = proj_fold(es.drop_last());
        let piece = proj_piece(es.last(), prev.1);
        (prev.0 + piece.0, piece.1)
    }
}

/// One join clause.
pub open spec fn join_chars(jc: JoinConditionV) -> Seq<char> {
    " INNER JOIN "@ + jc.primary_key_table + " ON "@ + jc.referencing_key_table + "."@
        + jc.referencing_key_col + " = "@ + jc.primary_key_table + "."@ + jc.primary_key_col
}

pub open spec fn deps_chars(deps: Seq<(Seq<char>, JoinConditionV)>) -> Seq<char>
    decreases deps,
{
    if deps.len() == 0 {
        Seq::empty()
    } else {
        deps_chars(deps.drop_last()) + join_chars(deps.last().1)
    }
}

/// The join clauses of the whole graph, in discovery order.
pub open spec fn joins_chars(joins: Seq<(Seq<char>, QueryJoinNodeV)>) -> Seq<char>
    decreases joins,
{
    if joins.len() == 0 {
        Seq::empty()
    } else {
        joins_chars(joins.drop_last()) + deps_chars(joins.last().1.dependencies)
    }
}

/// The clause state the parameters fold into: the WHERE conjuncts, the
/// last ORDER BY, and the last LIMIT or OFFSET.
#[verifier::ext_equal]
pub struct ClauseState {
    pub where_sql: Seq<char>,
    pub has_where: bool,
    pub order_sql: Seq<char>,
    pub tail_sql: Seq<char>,
}

pub open spec fn where_and(st: ClauseState, piece: Seq<char>) -> ClauseState {
    ClauseState {
        where_sql: st.where_sql + (if st.has_where {
            " AND "@
        } else {
            Seq::empty()
        }) + piece,
        has_where: true,
        order_sql: st.order_sql,
        tail_sql: st.tail_sql,
    }
}

pub open spec fn clause_step(st: ClauseState, p: ParamTypeV, scope: Seq<char>) -> ClauseState {
    match p {
        ParamTypeV::FilterPV(f) => where_and(st, filter_chars(scope, f)),
        ParamTypeV::IdEqV(n) => where_and(st, scope + ".id = "@ + crate::strutil::dec_seq_i64(n)),
        ParamTypeV::SortV { field, descending } => ClauseState {
            where_sql: st.where_sql,
            has_where: st.has_where,
            order_sql: " ORDER BY "@ + scope + "."@ + field + (if descending {
                " DESC"@
            } else {
                " ASC"@
            }),
            tail_sql: st.tail_sql,
        },
        ParamTypeV::FirstV(n) => ClauseState {
            where_sql: st.where_sql,
            has_where: st.has_where,
            order_sql: st.order_sql,
            tail_sql: " LIMIT "@ + crate::strutil::dec_seq(n as nat),
        },
        ParamTypeV::LastV(n) => ClauseState {
            where_sql: st.where_sql,
            has_where: st.has_where,
            order_sql: st.order_sql,
            tail_sql: " LIMIT "@ + crate::strutil::dec_seq(n as nat),
        },
        ParamTypeV::OffsetV(n) => ClauseState {
            where_sql: st.where_sql,
            has_where: st.has_where,
            order_sql: st.order_sql,
            tail_sql: " OFFSET "@ + crate::strutil::dec_seq(n as nat),
        },
        ParamTypeV::AfterV(v) => where_and(st, scope + ".id > "@ + scalar_chars(v)),
        ParamTypeV::BeforeV(v) => where_and(st, scope + ".id < "@ + scalar_chars(v)),
    }
}

pub open spec fn clauses_fold(ps: Seq<(ParamTypeV, Seq<char>)>) -> ClauseState
    decreases ps,
{
    if ps.len() == 0 {
        ClauseState {
            where_sql: Seq::empty(),
            has_where: false,
            order_sql: Seq::empty(),
            tail_sql: Seq::empty(),
        }
    } else {
        clause_step(clauses_fold(ps.drop_last()), ps.last().0, ps.last().1)
    }
}

/// The statement a compiled query renders to.
pub open spec fn sql_chars(
    elems: Seq<QueryElementV>,
    joins: Seq<(Seq<char>, QueryJoinNodeV)>,
    ns_id: Seq<char>,
    entity: Seq<char>,
    params: Seq<(ParamTypeV, Seq<char>)>,
) -> Seq<char> {
    let st = clauses_fold(params);
    "SELECT json_build_object("@ + proj_fold(elems).0 + ") FROM "@ + ns_id + "."@ + entity
        + joins_chars(joins) + (if st.has_where {
        " WHERE "@ + st.where_sql
    } else {
        Seq::empty()
    }) + st.order_sql + st.tail_sql
}

fn render_scalar(v: &ScalarValue) -> (r: String)
    ensures
        r@ == scalar_chars(v@),
{
    match v {
        ScalarValue::IntScalar(n) => crate::strutil::i64_to_string(*n),
        ScalarValue::StrScalar(t) => {
            let mut s: String = "'".to_owned();
            s.append(t.as_str());
            s.append("'");
            s
        },
        ScalarValue::BoolScalar(b) => if *b {
            "true".to_owned()
        } else {
            "false".to_owned()
        },
    }
}

fn render_op(op: FilterOp) -> (r: &'static str)
    ensures
        r@ == op_chars(op),
{
    match op {
        FilterOp::EqOp => " = ",
        FilterOp::NeOp => " != ",
        FilterOp::LtOp => " < ",
        FilterOp::LeOp => " <= ",
        FilterOp::GtOp => " > ",
        FilterOp::GeOp => " >= ",
        FilterOp::InOp => " IN ",
        FilterOp::LikeOp => " LIKE ",
        FilterOp::BetweenOp => " >= ",
        FilterOp::HasOp => " = ",
    }
}

/// Renders a predicate tree under its owning table.
fn render_filter(scope: &String, f: &Filter) -> (r: String)
    ensures
        r@ == filter_chars(scope@, f@),
    decreases f,
{
    match f {
        Filter::Pred(p) => {
            let mut s = scope.clone();
            s.append(".");
            s.append(p.field.as_str());
            s.append(render_op(p.op));
            if p.args.len() > 0 {
                let v = render_scalar(&p.args[0]);
                s.append(v.as_str());
            }
            s
        },
        Filter::AndOp(a, b) => {
            let mut s: String = "(".to_owned();
            let left = render_filter(scope, a);
            s.append(left.as_str());
            s.append(" AND ");
            let right = render_filter(scope, b);
            s.append(right.as_str());
            s.append(")");
            s
        },
        Filter::OrOp(a, b) => {
            let mut s: String = "(".to_owned();
            let left = render_filter(scope, a);
            s.append(left.as_str());
            s.append(" OR ");
            let right = render_filter(scope, b);
            s.append(right.as_str());
            s.append(")");
            s
        },
        Filter::NotOp(a) => {
            let mut s: String = "NOT (".to_owned();
            let inner = render_filter(scope, a);
            s.append(inner.as_str());
            s.append(")");
            s
        },
    }
}

impl UserQuery {
    /// Renders the compiled query: a SELECT whose JSON projection
    /// mirrors the element sequence, the joins in discovery order, and
    /// the parameters as WHERE, ORDER BY and LIMIT/OFFSET clauses. A
    /// paginated query without an ordering refuses with
    /// `UnorderedPaginatedQuery`, and only such a query does.
    pub fn to_sql(&self, db_type: &crate::tables::DbType) -> (r: Result<
        String,
        crate::graphql::GraphqlError,
    >)
        ensures
            ({
                let paginated = exists|i: int|
                    0 <= i < self.query_params@.len() && is_pagination(
                        (#[trigger] self.query_params@[i]).0,
                    );
                let ordered = exists|j: int|
                    0 <= j < self.query_params@.len() && (#[trigger] self.query_params@[j]).0
                        is SortV;
                match r {
                    Ok(s) => !(paginated && !ordered) && s@ == sql_chars(
                        elems_view(self.elements@),
                        self.joins@,
                        self.namespace_identifier@,
                        self.entity_name@,
                        self.query_params@,
                    ),
                    Err(e) => e is UnorderedPaginatedQuery && paginated && !ordered,
                }
            }),
    {
        if self.query_params.has_pagination() && !self.query_params.has_order() {
            return Err(crate::graphql::GraphqlError::UnorderedPaginatedQuery);
        }
        let _ = db_type;
        let ghost ev = elems_view(self.elements@);
        let mut proj = String::new();
        let mut need_comma = false;
        let mut i: usize = 0;
        proof {
            assert(ev.subrange(0, 0) =~~= Seq::<QueryElementV>::empty());
            assert(proj@ =~~= proj_fold(ev.subrange(0, 0)).0);
        }
        while i < self.elements.len()
            invariant
                i <= self.elements@.len(),
                ev == elems_view(self.elements@),
                proj@ == proj_fold(ev.subrange(0, i as int)).0,
                need_comma == proj_fold(ev.subrange(0, i as int)).1,
            decreases self.elements@.len() - i,
        {
            match &self.elements[i] {
                QueryElement::Field { key, value } => {
                    if need_comma {
                        proj.append(", ");
                    }
                    proj.append("'");
                    proj.append(key.as_str());
                    proj.append("', ");
                    proj.append(value.as_str());
                    need_comma = true;
                },
                QueryElement::ObjectOpeningBoundary { key } => {
                    if need_comma {
                        proj.append(", ");
                    }
                    proj.append("'");
                    proj.append(key.as_str());
                    proj.append("', json_build_object(");
                    need_comma = false;
                },
                QueryElement::ObjectClosingBoundary => {
                    proj.append(")");
                    need_comma = true;
                },
            }
            proof {
                assert(ev.subrange(0, i + 1).drop_last() =~~= ev.subrange(0, i as int));
                assert(ev.subrange(0, i + 1).last() == ev[i as int]);
                assert(ev[i as int] == self.elements@[i as int]@);
                assert(proj@ =~~= proj_fold(ev.subrange(0, i + 1)).0);
            }
            i = i + 1;
        }
        proof {
            assert(ev.subrange(0, ev.len() as int) =~~= ev);
        }
        let mut sql: String = "SELECT json_build_object(".to_owned();
        sql.append(proj.as_str());
        sql.append(") FROM ");
        sql.append(self.namespace_identifier.as_str());
        sql.append(".");
        sql.append(self.entity_name.as_str());
        let ghost base = sql@;
        let ghost jv = self.joins@;
        let mut t: usize = 0;
        proof {
            assert(jv.subrange(0, 0) =~~= Seq::<(Seq<char>, QueryJoinNodeV)>::empty());
            assert(sql@ =~~= base + joins_chars(jv.subrange(0, 0)));
        }
        while t < self.joins.entries.len()
            invariant
                t <= self.joins.entries@.len(),
                jv == self.joins@,
                jv.len() == self.joins.entries@.len(),
                sql@ == base + joins_chars(jv.subrange(0, t as int)),
            decreases self.joins.entries@.len() - t,
        {
            let node = &self.joins.entries[t].1;
            let ghost head = sql@;
            let ghost dv = node@.dependencies;
            let mut d: usize = 0;
            proof {
                assert(jv[t as int].1 == node@);
                assert(dv.subrange(0, 0) =~~= Seq::<(Seq<char>, JoinConditionV)>::empty());
                assert(sql@ =~~= head + deps_chars(dv.subrange(0, 0)));
            }
            while d < node.dependencies.entries.len()
                invariant
                    d <= node.dependencies.entries@.len(),
                    dv == node@.dependencies,
                    dv.len() == node.dependencies.entries@.len(),
                    sql@ == head + deps_chars(dv.subrange(0, d as int)),
                decreases node.dependencies.entries@.len() - d,
            {
                let jc = &node.dependencies.entries[d].1;
                sql.append(" INNER JOIN ");
                sql.append(jc.primary_key_table.as_str());
                sql.append(" ON ");
                sql.append(jc.referencing_key_table.as_str());
                sql.append(".");
                sql.append(jc.referencing_key_col.as_str());
                sql.append(" = ");
                sql.append(jc.primary_key_table.as_str());
                sql.append(".");
                sql.append(jc.primary_key_col.as_str());
                proof {
                    assert(dv.subrange(0, d + 1).drop_last() =~~= dv.subrange(0, d as int));
                    assert(dv.subrange(0, d + 1).last() == dv[d as int]);
                    assert(dv[d as int].1 == jc@);
                    assert(sql@ =~~= head + deps_chars(dv.subrange(0, d + 1)));
                }
                d = d + 1;
            }
            proof {
                assert(dv.subrange(0, dv.len() as int) =~~= dv);
                assert(jv.subrange(0, t + 1).drop_last() =~~= jv.subrange(0, t as int));
                assert(jv.subrange(0, t + 1).last() == jv[t as int]);
                assert(sql@ =~~= base + joins_chars(jv.subrange(0, t + 1)));
            }
            t = t + 1;
        }
        proof {
            assert(jv.subrange(0, jv.len() as int) =~~= jv);
        }
        let ghost pv = self.query_params@;
        let mut where_sql = String::new();
        let mut has_where = false;
        let mut order_sql = String::new();
        let mut tail_sql = String::new();
        let mut p: usize = 0;
        proof {
            assert(pv.subrange(0, 0) =~~= Seq::<(ParamTypeV, Seq<char>)>::empty());
            assert(clauses_fold(pv.subrange(0, 0)) =~~= ClauseState {
                where_sql: where_sql@,
                has_where,
                order_sql: order_sql@,
                tail_sql: tail_sql@,
            });
        }
        while p < self.query_params.params.len()
            invariant
                p <= self.query_params.params@.len(),
                pv == self.query_params@,
                pv.len() == self.query_params.params@.len(),
                clauses_fold(pv.subrange(0, p as int)) == (ClauseState {
                    where_sql: where_sql@,
                    has_where,
                    order_sql: order_sql@,
                    tail_sql: tail_sql@,
                }),
            decreases self.query_params.params@.len() - p,
        {
            let scope = &self.query_params.params[p].1;
            proof {
                assert(pv[p as int] == (self.query_params.params@[p as int].0@, scope@));
            }
            match &self.query_params.params[p].0 {
                ParamType::FilterParam(f) => {
                    if has_where {
                        where_sql.append(" AND ");
                    }
                    let rendered = render_filter(scope, f);
                    where_sql.append(rendered.as_str());
                    has_where = true;
                },
                ParamType::IdEq(n) => {
                    if has_where {
                        where_sql.append(" AND ");
                    }
                    where_sql.append(scope.as_str());
                    where_sql.append(".id = ");
                    let v = crate::strutil::i64_to_string(*n);
                    where_sql.append(v.as_str());
                    has_where = true;
                },
                ParamType::Sort { field, descending } => {
                    let mut o: String = " ORDER BY ".to_owned();
                    o.append(scope.as_str());
                    o.append(".");
                    o.append(field.as_str());
                    if *descending {
                        o.append(" DESC");
                    } else {
                        o.append(" ASC");
                    }
                    order_sql = o;
                },
                ParamType::First(n) => {
                    let mut l: String = " LIMIT ".to_owned();
                    let v = crate::strutil::u64_to_string(*n);
                    l.append(v.as_str());
                    tail_sql = l;
                },
                ParamType::Last(n) => {
                    let mut l: String = " LIMIT ".to_owned();
                    let v = crate::strutil::u64_to_string(*n);
                    l.append(v.as_str());
                    tail_sql = l;
                },
                ParamType::Offset(n) => {
                    let mut l: String = " OFFSET ".to_owned();
                    let v = crate::strutil::u64_to_string(*n);
                    l.append(v.as_str());
                    tail_sql = l;
                },
                ParamType::After(v) => {
                    if has_where {
                        where_sql.append(" AND ");
                    }
                    where_sql.append(scope.as_str());
                    where_sql.append(".id > ");
                    let rendered = render_scalar(v);
                    where_sql.append(rendered.as_str());
                    has_where = true;
                },
                ParamType::Before(v) => {
                    if has_where {
                        where_sql.append(" AND ");
                    }
                    where_sql.append(scope.as_str());
                    where_sql.append(".id < ");
                    let rendered = render_scalar(v);
                    where_sql.append(rendered.as_str());
                    has_where = true;
                },
            }
            proof {
                assert(pv.subrange(0, p + 1).drop_last() =~~= pv.subrange(0, p as int));
                assert(pv.subrange(0, p + 1).last() == pv[p as int]);
                assert(clauses_fold(pv.subrange(0, p + 1)) =~~= ClauseState {
                    where_sql: where_sql@,
                    has_where,
                    order_sql: order_sql@,
                    tail_sql: tail_sql@,
                });
            }
            p = p + 1;
        }
        proof {
            assert(pv.subrange(0, pv.len() as int) =~~= pv);
        }
        if has_where {
            sql.append(" WHERE ");
            sql.append(where_sql.as_str());
        }
        sql.append(order_sql.as_str());
        sql.append(tail_sql.as_str());
        proof {
            assert(sql@ =~~= sql_chars(
                elems_view(self.elements@),
                self.joins@,
                self.namespace_identifier@,
                self.entity_name@,
                self.query_params@,
            ));
        }
        Ok(sql)
    }
}

} // verus!
