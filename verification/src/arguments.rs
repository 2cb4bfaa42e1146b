//! Field arguments and their lowering into query parameters: filters,
//! ordering, pagination and the id shorthand.

use crate::query_text::GqlValue;
use vstd::prelude::*;

verus! {

/// A scalar literal an argument may carry.
#[derive(Debug, PartialEq)]
pub enum ScalarValue {
    IntScalar(i64),
    StrScalar(String),
    BoolScalar(bool),
}

/// The view of a scalar literal.
#[verifier::ext_equal]
pub enum ScalarV {
    IntV(int),
    StrV(Seq<char>),
    BoolV(bool),
}

impl View for ScalarValue {
    type V = ScalarV;

    open spec fn view(&self) -> ScalarV {
        match self {
            ScalarValue::IntScalar(n) => ScalarV::IntV(*n as int),
            ScalarValue::StrScalar(s) => ScalarV::StrV(s@),
            ScalarValue::BoolScalar(b) => ScalarV::BoolV(*b),
        }
    }
}

impl Clone for ScalarValue {
    fn clone(&self) -> (r: Self)
        ensures
            r@ == self@,
    {
        match self {
            ScalarValue::IntScalar(n) => ScalarValue::IntScalar(*n),
            ScalarValue::StrScalar(s) => ScalarValue::StrScalar(s.clone()),
            ScalarValue::BoolScalar(b) => ScalarValue::BoolScalar(*b),
        }
    }
}

/// A comparison over one field.
#[derive(Clone, Copy, Debug, PartialEq, Eq, Structural)]
pub enum FilterOp {
    EqOp,
    NeOp,
    LtOp,
    LeOp,
    GtOp,
    GeOp,
    InOp,
    LikeOp,
    BetweenOp,
    HasOp,
}

/// One predicate of a filter: an operation over a named field with its
/// scalar operands.
#[derive(Debug, PartialEq)]
pub struct FilterPred {
    pub op: FilterOp,
    pub field: String,
    pub args: Vec<ScalarValue>,
}

#[verifier::ext_equal]
pub struct FilterPredV {
    pub op: FilterOp,
    pub field: Seq<char>,
    pub args: Seq<ScalarV>,
}

impl View for FilterPred {
    type V = FilterPredV;

    open spec fn view(&self) -> FilterPredV {
        FilterPredV {
            op: self.op,
            field: self.field@,
            args: Seq::new(self.args@.len(), |i: int| self.args@[i]@),
        }
    }
}

impl Clone for FilterPred {
    fn clone(&self) -> (r: Self)
        ensures
            r@ == self@,
    {
        let mut args: Vec<ScalarValue> = Vec::new();
        let mut i: usize = 0;
        while i < self.args.len()
            invariant
                i <= self.args@.len(),
                args@.len() == i,
                forall|j: int| 0 <= j < i ==> (#[trigger] args@[j])@ == self.args@[j]@,
            decreases self.args@.len() - i,
        {
            args.push(self.args[i].clone());
            i = i + 1;
        }
        let r = FilterPred { op: self.op, field: self.field.clone(), args };
        proof {
            assert(r@ =~~= self@);
        }
        r
    }
}

/// A boolean predicate tree.
#[derive(Debug, PartialEq)]
pub enum Filter {
    Pred(FilterPred),
    AndOp(Box<Filter>, Box<Filter>),
    OrOp(Box<Filter>, Box<Filter>),
    NotOp(Box<Filter>),
}

#[verifier::ext_equal]
pub enum FilterV {
    PredV(FilterPredV),
    AndV(Box<FilterV>, Box<FilterV>),
    OrV(Box<FilterV>, Box<FilterV>),
    NotV(Box<FilterV>),
}

pub open spec fn filter_view(f: Filter) -> FilterV
    decreases f,
{
    match f {
        Filter::Pred(p) => FilterV::PredV(p@),
        Filter::AndOp(a, b) => FilterV::AndV(Box::new(filter_view(*a)), Box::new(filter_view(*b))),
        Filter::OrOp(a, b) => FilterV::OrV(Box::new(filter_view(*a)), Box::new(filter_view(*b))),
        Filter::NotOp(a) => FilterV::NotV(Box::new(filter_view(*a))),
    }
}

impl View for Filter {
    type V = FilterV;

    open spec fn view(&self) -> FilterV {
        filter_view(*self)
    }
}

impl Clone for Filter {
    fn clone(&self) -> (r: Self)
        ensures
            r@ == self@,
        decreases self,
    {
        match self {
            Filter::Pred(p) => Filter::Pred(p.clone()),
            Filter::AndOp(a, b) => Filter::AndOp(
                Box::new((**a).clone()),
                Box::new((**b).clone()),
            ),
            Filter::OrOp(a, b) => Filter::OrOp(
                Box::new((**a).clone()),
                Box::new((**b).clone()),
            ),
            Filter::NotOp(a) => Filter::NotOp(Box::new((**a).clone())),
        }
    }
}

/// One recognised argument, lowered.
#[derive(Debug, PartialEq)]
pub enum ParamType {
    FilterParam(Filter),
    Sort { field: String, descending: bool },
    First(u64),
    Last(u64),
    Offset(u64),
    After(ScalarValue),
    Before(ScalarValue),
    IdEq(i64),
}

#[verifier::ext_equal]
pub enum ParamTypeV {
    FilterPV(FilterV),
    SortV { field: Seq<char>, descending: bool },
    FirstV(int),
    LastV(int),
    OffsetV(int),
    AfterV(ScalarV),
    BeforeV(ScalarV),
    IdEqV(int),
}

impl View for ParamType {
    type V = ParamTypeV;

    open spec fn view(&self) -> ParamTypeV {
        match self {
            ParamType::FilterParam(f) => ParamTypeV::FilterPV(filter_view(*f)),
            ParamType::Sort { field, descending } => ParamTypeV::SortV {
                field: field@,
                descending: *descending,
            },
            ParamType::First(n) => ParamTypeV::FirstV(*n as int),
            ParamType::Last(n) => ParamTypeV::LastV(*n as int),
            ParamType::Offset(n) => ParamTypeV::OffsetV(*n as int),
            ParamType::After(v) => ParamTypeV::AfterV(v@),
            ParamType::Before(v) => ParamTypeV::BeforeV(v@),
            ParamType::IdEq(n) => ParamTypeV::IdEqV(*n as int),
        }
    }
}

impl Clone for ParamType {
    fn clone(&self) -> (r: Self)
        ensures
            r@ == self@,
    {
        match self {
            ParamType::FilterParam(f) => ParamType::FilterParam(f.clone()),
            ParamType::Sort { field, descending } => ParamType::Sort {
                field: field.clone(),
                descending: *descending,
            },
            ParamType::First(n) => ParamType::First(*n),
            ParamType::Last(n) => ParamType::Last(*n),
            ParamType::Offset(n) => ParamType::Offset(*n),
            ParamType::After(v) => ParamType::After(v.clone()),
            ParamType::Before(v) => ParamType::Before(v.clone()),
            ParamType::IdEq(n) => ParamType::IdEq(*n),
        }
    }
}

/// True of the pagination arguments.
pub open spec fn is_pagination(p: ParamTypeV) -> bool {
    p is FirstV || p is LastV || p is OffsetV || p is AfterV || p is BeforeV
}

/// The parameters accumulated while compiling one query, each scoped to
/// its owning table.
#[derive(Debug, PartialEq)]
pub struct QueryParams {
    pub params: Vec<(ParamType, String)>,
}

pub open spec fn params_view(ps: Seq<(ParamType, String)>) -> Seq<(ParamTypeV, Seq<char>)> {
    Seq::new(ps.len(), |i: int| (ps[i].0@, ps[i].1@))
}

impl View for QueryParams {
    type V = Seq<(ParamTypeV, Seq<char>)>;

    open spec fn view(&self) -> Seq<(ParamTypeV, Seq<char>)> {
        params_view(self.params@)
    }
}

/// A paginated request without an ordering cannot be rendered; every
/// pagination argument needs some `order` in scope.
pub open spec fn pagination_ordered(ps: Seq<(ParamTypeV, Seq<char>)>) -> bool {
    (exists|i: int| 0 <= i < ps.len() && is_pagination((#[trigger] ps[i]).0)) ==> (exists|
        j: int,
    |
        0 <= j < ps.len() && (#[trigger] ps[j]).0 is SortV)
}

impl Default for QueryParams {
    fn default() -> (r: Self)
        ensures
            r@ == Seq::<(ParamTypeV, Seq<char>)>::empty(),
    {
        let r = QueryParams { params: Vec::new() };
        proof {
            assert(r@ =~~= Seq::<(ParamTypeV, Seq<char>)>::empty());
        }
        r
    }
}

impl QueryParams {
    /// Appends every parameter under the given table scope, in order.
    pub fn add_params(&mut self, params: Vec<ParamType>, scope: String)
        ensures
            final(self)@ == old(self)@ + Seq::new(
                params@.len(),
                |i: int| (params@[i]@, scope@),
            ),
    {
        let ghost base = self@;
        let n = params.len();
        let mut rest = params;
        let mut i: usize = 0;
        while i < n
            invariant
                i <= n,
                n == rest@.len() + i,
                forall|j: int|
                    0 <= j < rest@.len() ==> (#[trigger] rest@[j])@ == params@[j + i]@,
                self@ == base + Seq::new(i as nat, |j: int| (params@[j]@, scope@)),
            decreases n - i,
        {
            let p = rest.remove(0);
            let ghost pv = p@;
            let sc = scope.clone();
            let ghost scv = sc@;
            let ghost prev_params = self.params@;
            self.params.push((p, sc));
            proof {
                assert(params_view(self.params@) =~~= params_view(prev_params).push(
                    (pv, scv),
                ));
                assert(params_view(prev_params).push((pv, scv)) =~~= base + Seq::new(
                    (i + 1) as nat,
                    |j: int| (params@[j]@, scope@),
                ));
            }
            i = i + 1;
        }
        proof {
            assert(base + Seq::new(params@.len(), |j: int| (params@[j]@, scope@)) =~~= self@);
        }
    }

    /// True when some pagination argument stands among the parameters.
    pub fn has_pagination(&self) -> (r: bool)
        ensures
            r == exists|i: int| 0 <= i < self@.len() && is_pagination((#[trigger] self@[i]).0),
    {
        let mut i: usize = 0;
        while i < self.params.len()
            invariant
                i <= self.params@.len(),
                forall|j: int| 0 <= j < i ==> !is_pagination((#[trigger] self@[j]).0),
            decreases self.params@.len() - i,
        {
            let found = match &self.params[i].0 {
                ParamType::First(_) => true,
                ParamType::Last(_) => true,
                ParamType::Offset(_) => true,
                ParamType::After(_) => true,
                ParamType::Before(_) => true,
                _ => false,
            };
            if found {
                proof {
                    assert(is_pagination(self@[i as int].0));
                }
                return true;
            }
            i = i + 1;
        }
        false
    }

    /// True when some ordering stands among the parameters.
    pub fn has_order(&self) -> (r: bool)
        ensures
            r == exists|i: int| 0 <= i < self@.len() && (#[trigger] self@[i]).0 is SortV,
    {
        let mut i: usize = 0;
        while i < self.params.len()
            invariant
                i <= self.params@.len(),
                forall|j: int| 0 <= j < i ==> !((#[trigger] self@[j]).0 is SortV),
            decreases self.params@.len() - i,
        {
            let found = match &self.params[i].0 {
                ParamType::Sort { .. } => true,
                _ => false,
            };
            if found {
                proof {
                    assert(self@[i as int].0 is SortV);
                }
                return true;
            }
            i = i + 1;
        }
        false
    }
}


/// The argument names that carry pagination.
pub open spec fn is_pagination_arg(arg: Seq<char>) -> bool {
    arg == "first"@ || arg == "last"@ || arg == "offset"@ || arg == "after"@ || arg
        == "before"@
}

/// The recognised argument names.
pub open spec fn is_known_arg(arg: Seq<char>) -> bool {
    arg == "filter"@ || arg == "order"@ || arg == "id"@ || is_pagination_arg(arg)
}

/// The errors the argument lowering raises; the selection builder
/// propagates exactly these.
pub open spec fn is_argument_error(e: crate::graphql::GraphqlError) -> bool {
    ||| e is UnrecognizedArgument
    ||| e is UnableToParseValue
    ||| e is NoPredicatesInFilter
    ||| e is UnsupportedNegation
    ||| e is UnsupportedFilterOperation
    ||| e is MissingPartnerForBinaryLogicalOperator
}

/// The scalar a literal stands for, if it is string, bool or integer.
pub open spec fn scalar_of(v: GqlValue) -> Option<ScalarV> {
    match v {
        GqlValue::IntVal(n) => Some(ScalarV::IntV(n as int)),
        GqlValue::StrVal(t) => Some(ScalarV::StrV(t@)),
        GqlValue::BoolVal(b) => Some(ScalarV::BoolV(b)),
        _ => None,
    }
}

/// The comparison a filter key names, if any.
pub open spec fn op_of_key(key: Seq<char>) -> Option<FilterOp> {
    if key == "eq"@ { Some(FilterOp::EqOp) } else if key == "ne"@ { Some(FilterOp::NeOp) }
    else if key == "lt"@ { Some(FilterOp::LtOp) } else if key == "le"@ { Some(FilterOp::LeOp) }
    else if key == "gt"@ { Some(FilterOp::GtOp) } else if key == "ge"@ { Some(FilterOp::GeOp) }
    else if key == "in"@ { Some(FilterOp::InOp) } else if key == "like"@ {
        Some(FilterOp::LikeOp)
    } else if key == "between"@ { Some(FilterOp::BetweenOp) } else if key == "has"@ {
        Some(FilterOp::HasOp)
    } else { None }
}

/// True of the comparisons negation does not support.
pub open spec fn neg_unsupported(op: FilterOp) -> bool {
    op == FilterOp::InOp || op == FilterOp::LikeOp || op == FilterOp::BetweenOp || op
        == FilterOp::HasOp
}

/// The predicate one filter entry stands for: the comparison key against
/// an object binding one field to a scalar. Every comparison here takes
/// exactly one operand; a range key names its lower bound, which the
/// renderer writes as `>=`, and any other operand shape is refused.
pub open spec fn pred_of(key: Seq<char>, value: GqlValue) -> Option<FilterPredV> {
    match op_of_key(key) {
        None => None,
        Some(op) => match value {
            GqlValue::ObjVal(entries) => if entries@.len() != 1 {
                None
            } else {
                match scalar_of(entries@[0].1) {
                    None => None,
                    Some(sv) => Some(
                        FilterPredV { op, field: entries@[0].0@, args: seq![sv] },
                    ),
                }
            },
            _ => None,
        },
    }
}

/// The tree a filter-entry list folds to, entry by entry: the outer
/// `None` is a refusal, the inner `None` an empty accumulator.
pub open spec fn filter_acc(entries: Seq<(String, GqlValue)>) -> Option<Option<FilterV>>
    decreases entries,
{
    if entries.len() == 0 {
        Some(None)
    } else {
        match filter_acc(entries.drop_last()) {
            None => None,
            Some(acc) => {
                let kk = entries.last().0@;
                let v = entries.last().1;
                if kk == "and"@ || kk == "or"@ {
                    match acc {
                        None => None,
                        Some(l) => match v {
                            GqlValue::ObjVal(sub) => match filter_acc(sub@) {
                                Some(Some(r)) => Some(
                                    Some(
                                        if kk == "and"@ {
                                            FilterV::AndV(Box::new(l), Box::new(r))
                                        } else {
                                            FilterV::OrV(Box::new(l), Box::new(r))
                                        },
                                    ),
                                ),
                                _ => None,
                            },
                            _ => None,
                        },
                    }
                } else if kk == "not"@ {
                    match v {
                        GqlValue::ObjVal(sub) => if sub@.len() == 1 && (op_of_key(
                            sub@[0].0@,
                        ) matches Some(op) && neg_unsupported(op)) {
                            None
                        } else {
                            match filter_acc(sub@) {
                                Some(Some(inner)) => Some(
                                    Some(
                                        match acc {
                                            Some(l) => FilterV::AndV(
                                                Box::new(l),
                                                Box::new(FilterV::NotV(Box::new(inner))),
                                            ),
                                            None => FilterV::NotV(Box::new(inner)),
                                        },
                                    ),
                                ),
                                _ => None,
                            }
                        },
                        _ => None,
                    }
                } else {
                    match pred_of(kk, v) {
                        None => None,
                        Some(p) => Some(
                            Some(
                                match acc {
                                    Some(l) => FilterV::AndV(
                                        Box::new(l),
                                        Box::new(FilterV::PredV(p)),
                                    ),
                                    None => FilterV::PredV(p),
                                },
                            ),
                        ),
                    }
                }
            },
        }
    }
}

/// The tree a `filter:` object lowers to, `None` where it refuses; an
/// empty object refuses.
pub open spec fn filter_of(entries: Seq<(String, GqlValue)>) -> Option<FilterV> {
    match filter_acc(entries) {
        Some(Some(f)) => Some(f),
        _ => None,
    }
}

/// The parameter an argument lowers to, `None` where it refuses.
pub open spec fn param_of(arg: Seq<char>, value: GqlValue) -> Option<ParamTypeV> {
    if arg == "filter"@ {
        match value {
            GqlValue::ObjVal(entries) => match filter_of(entries@) {
                Some(f) => Some(ParamTypeV::FilterPV(f)),
                None => None,
            },
            _ => None,
        }
    } else if arg == "order"@ {
        match value {
            GqlValue::ObjVal(entries) => if entries@.len() == 1 {
                match entries@[0].1 {
                    GqlValue::EnumVal(dir) => if dir@ == "asc"@ {
                        Some(ParamTypeV::SortV { field: entries@[0].0@, descending: false })
                    } else if dir@ == "desc"@ {
                        Some(ParamTypeV::SortV { field: entries@[0].0@, descending: true })
                    } else {
                        None
                    },
                    _ => None,
                }
            } else {
                None
            },
            _ => None,
        }
    } else if arg == "first"@ {
        match value {
            GqlValue::IntVal(n) => if n >= 0 {
                Some(ParamTypeV::FirstV(n as int))
            } else {
                None
            },
            _ => None,
        }
    } else if arg == "last"@ {
        match value {
            GqlValue::IntVal(n) => if n >= 0 {
                Some(ParamTypeV::LastV(n as int))
            } else {
                None
            },
            _ => None,
        }
    } else if arg == "offset"@ {
        match value {
            GqlValue::IntVal(n) => if n >= 0 {
                Some(ParamTypeV::OffsetV(n as int))
            } else {
                None
            },
            _ => None,
        }
    } else if arg == "after"@ {
        match scalar_of(value) {
            Some(sv) => Some(ParamTypeV::AfterV(sv)),
            None => None,
        }
    } else if arg == "before"@ {
        match scalar_of(value) {
            Some(sv) => Some(ParamTypeV::BeforeV(sv)),
            None => None,
        }
    } else if arg == "id"@ {
        match value {
            GqlValue::IntVal(n) => Some(ParamTypeV::IdEqV(n as int)),
            _ => None,
        }
    } else {
        None
    }
}

/// The scalar a literal stands for, if it is string, bool or integer.
fn scalar_of_value(v: &GqlValue) -> (r: Option<ScalarValue>)
    ensures
        match r {
            Some(s) => scalar_of(*v) == Some(s@),
            None => scalar_of(*v) is None,
        },
{
    match v {
        GqlValue::IntVal(n) => Some(ScalarValue::IntScalar(*n)),
        GqlValue::StrVal(t) => Some(ScalarValue::StrScalar(t.clone())),
        GqlValue::BoolVal(b) => Some(ScalarValue::BoolScalar(*b)),
        _ => None,
    }
}

/// The comparison named by a filter key, if any.
fn filter_op_of(key: &str) -> (r: Option<FilterOp>)
    ensures
        r == op_of_key(key@),
{
    if crate::strutil::str_eq(key, "eq") { Some(FilterOp::EqOp) }
    else if crate::strutil::str_eq(key, "ne") { Some(FilterOp::NeOp) }
    else if crate::strutil::str_eq(key, "lt") { Some(FilterOp::LtOp) }
    else if crate::strutil::str_eq(key, "le") { Some(FilterOp::LeOp) }
    else if crate::strutil::str_eq(key, "gt") { Some(FilterOp::GtOp) }
    else if crate::strutil::str_eq(key, "ge") { Some(FilterOp::GeOp) }
    else if crate::strutil::str_eq(key, "in") { Some(FilterOp::InOp) }
    else if crate::strutil::str_eq(key, "like") { Some(FilterOp::LikeOp) }
    else if crate::strutil::str_eq(key, "between") { Some(FilterOp::BetweenOp) }
    else if crate::strutil::str_eq(key, "has") { Some(FilterOp::HasOp) }
    else { None }
}

/// True of the comparisons negation does not support.
fn negation_unsupported(op: FilterOp) -> (r: bool)
    ensures
        r == (op == FilterOp::InOp || op == FilterOp::LikeOp || op == FilterOp::BetweenOp
            || op == FilterOp::HasOp),
{
    match op {
        FilterOp::InOp => true,
        FilterOp::LikeOp => true,
        FilterOp::BetweenOp => true,
        FilterOp::HasOp => true,
        _ => false,
    }
}

/// Parses one predicate entry: the comparison key against an object
/// binding a field to a scalar.
fn parse_predicate(
    key: &String,
    value: &GqlValue,
) -> (r: Result<FilterPred, crate::graphql::GraphqlError>)
    ensures
        match r {
            Ok(p) => pred_of(key@, *value) == Some(p@),
            Err(e) => pred_of(key@, *value) is None && is_argument_error(e)
                && !(e is UnrecognizedArgument),
        },
{
    let op = match filter_op_of(key.as_str()) {
        Some(op) => op,
        None => {
            return Err(crate::graphql::GraphqlError::UnsupportedFilterOperation(key.clone()));
        },
    };
    match value {
        GqlValue::ObjVal(entries) => {
            if entries.len() != 1 {
                return Err(
                    crate::graphql::GraphqlError::UnableToParseValue(key.clone()),
                );
            }
            let field = entries[0].0.clone();
            let scalar = match scalar_of_value(&entries[0].1) {
                Some(s) => s,
                None => {
                    return Err(crate::graphql::GraphqlError::UnableToParseValue(field));
                },
            };
            let mut args: Vec<ScalarValue> = Vec::new();
            args.push(scalar);
            Ok(FilterPred { op, field, args })
        },
        _ => Err(crate::graphql::GraphqlError::UnableToParseValue(key.clone())),
    }
}

/// A refusal in a prefix of the fold refuses the whole list.
proof fn lemma_filter_acc_none_prop(entries: Seq<(String, GqlValue)>, j: int)
    requires
        0 <= j <= entries.len(),
        filter_acc(entries.subrange(0, j)) is None,
    ensures
        filter_acc(entries) is None,
    decreases entries.len() - j,
{
    if j < entries.len() {
        assert(entries.subrange(0, j + 1).drop_last() =~~= entries.subrange(0, j));
        lemma_filter_acc_none_prop(entries, j + 1);
    } else {
        assert(entries.subrange(0, j) =~~= entries);
    }
}

/// Parses the entries of a `filter:` object into a predicate tree.
/// An empty filter, a leading binary connective and an unsupported
/// negation each fail with their own error.
fn parse_filter_entries(
    entries: &Vec<(String, GqlValue)>,
) -> (r: Result<Filter, crate::graphql::GraphqlError>)
    ensures
        match r {
            Ok(f) => filter_of(entries@) == Some(f@),
            Err(e) => filter_of(entries@) is None && is_argument_error(e)
                && !(e is UnrecognizedArgument),
        },
    decreases entries@,
{
    if entries.len() == 0 {
        proof {
            assert(entries@ =~~= Seq::<(String, GqlValue)>::empty());
        }
        return Err(crate::graphql::GraphqlError::NoPredicatesInFilter);
    }
    let mut acc: Option<Filter> = None;
    let mut i: usize = 0;
    proof {
        assert(entries@.subrange(0, 0) =~~= Seq::<(String, GqlValue)>::empty());
    }
    while i < entries.len()
        invariant
            i <= entries@.len(),
            i > 0 ==> acc is Some,
            filter_acc(entries@.subrange(0, i as int)) == (match acc {
                None => Some(None::<FilterV>),
                Some(f) => Some(Some(f@)),
            }),
        decreases entries@.len() - i,
    {
        let ghost pre = entries@.subrange(0, i as int);
        let ghost cur = entries@.subrange(0, i + 1);
        proof {
            assert(cur.drop_last() =~~= pre);
            assert(cur.last() == entries@[i as int]);
        }
        let key = &entries[i].0;
        let value = &entries[i].1;
        let is_and = crate::strutil::str_eq(key.as_str(), "and");
        let is_or = crate::strutil::str_eq(key.as_str(), "or");
        let is_not = crate::strutil::str_eq(key.as_str(), "not");
        if is_and || is_or {
            let left = match acc {
                Some(f) => f,
                None => {
                    proof {
                        assert(filter_acc(cur) is None);
                        lemma_filter_acc_none_prop(entries@, i + 1);
                    }
                    return Err(
                        crate::graphql::GraphqlError::MissingPartnerForBinaryLogicalOperator,
                    );
                },
            };
            let ghost leftv = left@;
            let right = match value {
                GqlValue::ObjVal(sub) => {
                    match parse_filter_entries(sub) {
                        Ok(f) => f,
                        Err(e) => {
                            proof {
                                assert(filter_acc(cur) is None);
                                lemma_filter_acc_none_prop(entries@, i + 1);
                            }
                            return Err(e);
                        },
                    }
                },
                _ => {
                    proof {
                        assert(filter_acc(cur) is None);
                        lemma_filter_acc_none_prop(entries@, i + 1);
                    }
                    return Err(
                        crate::graphql::GraphqlError::UnableToParseValue(key.clone()),
                    );
                },
            };
            acc = Some(
                if is_and {
                    Filter::AndOp(Box::new(left), Box::new(right))
                } else {
                    Filter::OrOp(Box::new(left), Box::new(right))
                },
            );
            proof {
                match &acc {
                    Some(f) => {
                        assert(filter_acc(cur) =~~= Some(Some(f@)));
                    },
                    None => {
                        assert(filter_acc(cur) =~~= Some(None::<FilterV>));
                    },
                }
                assert(filter_acc(cur) =~~= (match acc {
                    None => Some(None::<FilterV>),
                    Some(f) => Some(Some(f@)),
                }));
            }
        } else if is_not {
            match value {
                GqlValue::ObjVal(sub) => {
                    if sub.len() == 1 {
                        match filter_op_of(sub[0].0.as_str()) {
                            Some(op) => {
                                if negation_unsupported(op) {
                                    proof {
                                        assert(sub@[0].0@ == sub[0].0@);
                                        assert(filter_acc(cur) is None);
                                        lemma_filter_acc_none_prop(entries@, i + 1);
                                    }
                                    return Err(
                                        crate::graphql::GraphqlError::UnsupportedNegation(
                                            sub[0].0.clone(),
                                        ),
                                    );
                                }
                            },
                            None => {},
                        }
                    }
                    let inner = match parse_filter_entries(sub) {
                        Ok(f) => f,
                        Err(e) => {
                            proof {
                                assert(filter_acc(cur) is None);
                                lemma_filter_acc_none_prop(entries@, i + 1);
                            }
                            return Err(e);
                        },
                    };
                    let ghost innerv = inner@;
                    let ghost acc0 = acc;
                    let neg = Filter::NotOp(Box::new(inner));
                    proof {
                        assert(neg@ == FilterV::NotV(Box::new(innerv)));
                    }
                    let new_acc = match acc {
                        Some(f) => Filter::AndOp(Box::new(f), Box::new(neg)),
                        None => neg,
                    };
                    proof {
                        if acc0 is Some {
                            assert(new_acc@ == FilterV::AndV(
                                Box::new(acc0->0@),
                                Box::new(FilterV::NotV(Box::new(innerv))),
                            ));
                        } else {
                            assert(new_acc@ == FilterV::NotV(Box::new(innerv)));
                        }
                    }
                    acc = Some(new_acc);
                    proof {
                        assert(filter_acc(sub@) == Some(Some(innerv)));
                        assert(cur.last().1 is ObjVal && cur.last().1->ObjVal_0@ == sub@);
                        if acc0 is Some {
                            assert(filter_acc(cur) =~~= Some(
                                Some(
                                    FilterV::AndV(
                                        Box::new(acc0->0@),
                                        Box::new(FilterV::NotV(Box::new(innerv))),
                                    ),
                                ),
                            ));
                        } else {
                            assert(filter_acc(cur) =~~= Some(
                                Some(FilterV::NotV(Box::new(innerv))),
                            ));
                        }
                        match &acc {
                            Some(f) => {
                                assert(filter_acc(cur) =~~= Some(Some(f@)));
                            },
                            None => {
                                assert(filter_acc(cur) =~~= Some(None::<FilterV>));
                            },
                        }
                        assert(filter_acc(cur) =~~= (match acc {
                            None => Some(None::<FilterV>),
                            Some(f) => Some(Some(f@)),
                        }));
                    }
                },
                _ => {
                    proof {
                        assert(filter_acc(cur) is None);
                        lemma_filter_acc_none_prop(entries@, i + 1);
                    }
                    return Err(
                        crate::graphql::GraphqlError::UnableToParseValue(key.clone()),
                    );
                },
            }
        } else {
            let pred = match parse_predicate(key, value) {
                Ok(p) => p,
                Err(e) => {
                    proof {
                        assert(filter_acc(cur) is None);
                        lemma_filter_acc_none_prop(entries@, i + 1);
                    }
                    return Err(e);
                },
            };
            let ghost predv = pred@;
            let node = Filter::Pred(pred);
            acc = match acc {
                Some(f) => Some(Filter::AndOp(Box::new(f), Box::new(node))),
                None => Some(node),
            };
            proof {
                assert(pred_of(cur.last().0@, cur.last().1) == Some(predv));
                match &acc {
                    Some(f) => {
                        assert(filter_acc(cur) =~~= Some(Some(f@)));
                    },
                    None => {
                        assert(filter_acc(cur) =~~= Some(None::<FilterV>));
                    },
                }
                assert(filter_acc(cur) =~~= (match acc {
                    None => Some(None::<FilterV>),
                    Some(f) => Some(Some(f@)),
                }));
            }
        }
        i = i + 1;
    }
    proof {
        assert(entries@.subrange(0, entries@.len() as int) =~~= entries@);
    }
    match acc {
        Some(f) => Ok(f),
        None => Err(crate::graphql::GraphqlError::NoPredicatesInFilter),
    }
}

/// Lowers one field argument: `filter` to a predicate tree, `order` to
/// an ordering, `first`, `last`, `offset`, `after` and `before` to
/// pagination, `id` to the equality shorthand; any other name fails
/// with `UnrecognizedArgument`.
#[verifier::rlimit(50)]
pub fn parse_argument_into_param(
    subfield_type: &str,
    arg: &str,
    value: &GqlValue,
    _schema: &crate::tables::Schema,
) -> (r: Result<ParamType, crate::graphql::GraphqlError>)
    ensures
        r is Ok <==> param_of(arg@, *value) is Some,
        r is Ok ==> r->Ok_0@ == param_of(arg@, *value)->Some_0,
        r is Err ==> is_argument_error(r->Err_0),
        !is_known_arg(arg@) <==> (r is Err && r->Err_0 is UnrecognizedArgument),
{
    proof {
        reveal_strlit("filter");
        reveal_strlit("order");
        reveal_strlit("first");
        reveal_strlit("last");
        reveal_strlit("offset");
        reveal_strlit("after");
        reveal_strlit("before");
        reveal_strlit("id");
        assert("filter"@.len() == 6);
        assert("order"@.len() == 5);
        assert("first"@.len() == 5);
        assert("last"@.len() == 4);
        assert("offset"@.len() == 6);
        assert("after"@.len() == 5);
        assert("before"@.len() == 6);
        assert("id"@.len() == 2);
        assert("order"@[0] == 'o' && "first"@[0] == 'f' && "after"@[0] == 'a');
        assert("filter"@[0] == 'f' && "offset"@[0] == 'o' && "before"@[0] == 'b');
    }
    if crate::strutil::str_eq(arg, "filter") {
        match value {
            GqlValue::ObjVal(entries) => {
                match parse_filter_entries(entries) {
                    Ok(f) => Ok(ParamType::FilterParam(f)),
                    Err(e) => Err(e),
                }
            },
            _ => Err(crate::graphql::GraphqlError::UnableToParseValue(arg.to_owned())),
        }
    } else if crate::strutil::str_eq(arg, "order") {
        match value {
            GqlValue::ObjVal(entries) => {
                if entries.len() != 1 {
                    return Err(
                        crate::graphql::GraphqlError::UnableToParseValue(arg.to_owned()),
                    );
                }
                let field = entries[0].0.clone();
                match &entries[0].1 {
                    GqlValue::EnumVal(dir) => {
                        if crate::strutil::str_eq(dir.as_str(), "asc") {
                            Ok(ParamType::Sort { field, descending: false })
                        } else if crate::strutil::str_eq(dir.as_str(), "desc") {
                            Ok(ParamType::Sort { field, descending: true })
                        } else {
                            Err(crate::graphql::GraphqlError::UnableToParseValue(
                                dir.clone(),
                            ))
                        }
                    },
                    _ => Err(
                        crate::graphql::GraphqlError::UnableToParseValue(arg.to_owned()),
                    ),
                }
            },
            _ => Err(crate::graphql::GraphqlError::UnableToParseValue(arg.to_owned())),
        }
    } else if crate::strutil::str_eq(arg, "first") {
        match value {
            GqlValue::IntVal(n) => {
                if *n >= 0 {
                    Ok(ParamType::First(*n as u64))
                } else {
                    Err(crate::graphql::GraphqlError::UnableToParseValue(arg.to_owned()))
                }
            },
            _ => Err(crate::graphql::GraphqlError::UnableToParseValue(arg.to_owned())),
        }
    } else if crate::strutil::str_eq(arg, "last") {
        match value {
            GqlValue::IntVal(n) => {
                if *n >= 0 {
                    Ok(ParamType::Last(*n as u64))
                } else {
                    Err(crate::graphql::GraphqlError::UnableToParseValue(arg.to_owned()))
                }
            },
            _ => Err(crate::graphql::GraphqlError::UnableToParseValue(arg.to_owned())),
        }
    } else if crate::strutil::str_eq(arg, "offset") {
        match value {
            GqlValue::IntVal(n) => {
                if *n >= 0 {
                    Ok(ParamType::Offset(*n as u64))
                } else {
                    Err(crate::graphql::GraphqlError::UnableToParseValue(arg.to_owned()))
                }
            },
            _ => Err(crate::graphql::GraphqlError::UnableToParseValue(arg.to_owned())),
        }
    } else if crate::strutil::str_eq(arg, "after") {
        match scalar_of_value(value) {
            Some(s) => Ok(ParamType::After(s)),
            None => Err(crate::graphql::GraphqlError::UnableToParseValue(arg.to_owned())),
        }
    } else if crate::strutil::str_eq(arg, "before") {
        match scalar_of_value(value) {
            Some(s) => Ok(ParamType::Before(s)),
            None => Err(crate::graphql::GraphqlError::UnableToParseValue(arg.to_owned())),
        }
    } else if crate::strutil::str_eq(arg, "id") {
        match value {
            GqlValue::IntVal(n) => Ok(ParamType::IdEq(*n)),
            _ => Err(crate::graphql::GraphqlError::UnableToParseValue(arg.to_owned())),
        }
    } else {
        let _ = subfield_type;
        Err(
            crate::graphql::GraphqlError::UnrecognizedArgument(
                subfield_type.to_owned(),
                arg.to_owned(),
            ),
        )
    }
}

} // verus!
