//! The query compiler's front half: the selection tree built against the
//! reflection schema, fragment resolution, and the lowering of one
//! operation into compiled queries.

use crate::arguments::{ParamType, ParamTypeV, QueryParams};
use crate::queries::{
    balanced, count_closes, count_opens, elems_view, join_edges, JoinCondition, QueryElement,
    QueryElementV, QueryJoinNode, UserQuery,
};
use crate::strmap::{sm_contains, sm_get, sm_insert, StrMap};
use crate::strutil::{lower_seq, str_eq, to_lower};
use crate::query_text::{GqlValue, OpKind, QueryDoc, RawDefinition, RawField, RawSelection};
use crate::tables::{field_type_spec, strings_view, Schema};
use vstd::prelude::*;

verus! {

/// One node of a selection set: a named field with arguments, nested
/// selections and an optional alias, or a fragment spread awaiting
/// resolution.
#[derive(Debug, PartialEq)]
pub enum Selection {
    Field(String, Vec<ParamType>, Selections, Option<String>),
    Fragment(String),
}

/// An ordered selection set under one field type.
#[derive(Debug, PartialEq)]
pub struct Selections {
    pub field_type: String,
    pub has_fragments: bool,
    pub selections: Vec<Selection>,
}

/// The view of one selection.
#[verifier::ext_equal]
pub enum SelectionV {
    FieldV {
        name: Seq<char>,
        params: Seq<ParamTypeV>,
        subs: SelectionsV,
        alias: Option<Seq<char>>,
    },
    FragmentV { name: Seq<char> },
}

/// The view of a selection set.
#[verifier::ext_equal]
pub struct SelectionsV {
    pub field_type: Seq<char>,
    pub has_fragments: bool,
    pub selections: Seq<SelectionV>,
}

pub open spec fn sel_view(s: Selection) -> SelectionV
    decreases s,
{
    match s {
        Selection::Field(name, params, subs, alias) => SelectionV::FieldV {
            name: name@,
            params: Seq::new(params@.len(), |i: int| params@[i]@),
            subs: sels_struct_view(subs),
            alias: match alias {
                Some(a) => Some(a@),
                None => None,
            },
        },
        Selection::Fragment(name) => SelectionV::FragmentV { name: name@ },
    }
}

pub open spec fn sels_struct_view(s: Selections) -> SelectionsV
    decreases s,
{
    SelectionsV {
        field_type: s.field_type@,
        has_fragments: s.has_fragments,
        selections: sels_view(s.selections@),
    }
}

pub open spec fn sels_view(ss: Seq<Selection>) -> Seq<SelectionV>
    decreases ss,
{
    if ss.len() == 0 {
        Seq::empty()
    } else {
        seq![sel_view(ss[0])] + sels_view(ss.drop_first())
    }
}

impl View for Selection {
    type V = SelectionV;

    open spec fn view(&self) -> SelectionV {
        sel_view(*self)
    }
}

impl View for Selections {
    type V = SelectionsV;

    open spec fn view(&self) -> SelectionsV {
        sels_struct_view(*self)
    }
}

pub proof fn lemma_sels_view_len(ss: Seq<Selection>)
    ensures
        sels_view(ss).len() == ss.len(),
        forall|i: int| 0 <= i < ss.len() ==> #[trigger] sels_view(ss)[i] == sel_view(ss[i]),
    decreases ss,
{
    if ss.len() > 0 {
        lemma_sels_view_len(ss.drop_first());
        assert forall|i: int| 0 <= i < ss.len() implies #[trigger] sels_view(ss)[i] == sel_view(
            ss[i],
        ) by {
            if i > 0 {
                assert(sels_view(ss)[i] == sels_view(ss.drop_first())[i - 1]);
                assert(ss.drop_first()[i - 1] == ss[i]);
            }
        }
    }
}

pub proof fn lemma_sels_view_push(ss: Seq<Selection>, s: Selection)
    ensures
        sels_view(ss.push(s)) == sels_view(ss).push(sel_view(s)),
    decreases ss,
{
    lemma_sels_view_len(ss.push(s));
    lemma_sels_view_len(ss);
    assert forall|i: int| 0 <= i < ss.len() + 1 implies #[trigger] sels_view(ss.push(s))[i]
        == sels_view(ss).push(sel_view(s))[i] by {
        if i < ss.len() {
            assert(ss.push(s)[i] == ss[i]);
        } else {
            assert(ss.push(s)[i] == s);
        }
    }
    assert(sels_view(ss.push(s)) =~~= sels_view(ss).push(sel_view(s)));
}

fn clone_alias(a: &Option<String>) -> (r: Option<String>)
    ensures
        match a {
            Some(x) => r is Some && r->Some_0@ == x@,
            None => r is None,
        },
{
    match a {
        Some(x) => Some(x.clone()),
        None => None,
    }
}

fn clone_params(ps: &Vec<ParamType>) -> (r: Vec<ParamType>)
    ensures
        r@.len() == ps@.len(),
        forall|i: int| 0 <= i < ps@.len() ==> (#[trigger] r@[i])@ == ps@[i]@,
{
    let mut out: Vec<ParamType> = Vec::new();
    let mut i: usize = 0;
    while i < ps.len()
        invariant
            i <= ps@.len(),
            out@.len() == i,
            forall|j: int| 0 <= j < i ==> (#[trigger] out@[j])@ == ps@[j]@,
        decreases ps@.len() - i,
    {
        out.push(ps[i].clone());
        i = i + 1;
    }
    out
}

impl Clone for Selection {
    fn clone(&self) -> (r: Self)
        ensures
            r@ == self@,
        decreases self,
    {
        match self {
            Selection::Fragment(name) => Selection::Fragment(name.clone()),
            Selection::Field(name, params, subs, alias) => {
                let r = Selection::Field(
                    name.clone(),
                    clone_params(params),
                    subs.clone(),
                    clone_alias(alias),
                );
                proof {
                    assert(r@ =~~= self@);
                }
                r
            },
        }
    }
}

impl Clone for Selections {
    fn clone(&self) -> (r: Self)
        ensures
            r@ == self@,
        decreases self,
    {
        let mut selections: Vec<Selection> = Vec::new();
        let mut i: usize = 0;
        proof {
            lemma_sels_view_len(self.selections@);
        }
        while i < self.selections.len()
            invariant
                i <= self.selections@.len(),
                selections@.len() == i,
                forall|j: int|
                    0 <= j < i ==> (#[trigger] selections@[j])@ == self.selections@[j]@,
            decreases self.selections@.len() - i,
        {
            selections.push(self.selections[i].clone());
            i = i + 1;
        }
        let r = Selections {
            field_type: self.field_type.clone(),
            has_fragments: self.has_fragments,
            selections,
        };
        proof {
            lemma_sels_view_len(r.selections@);
            assert(sels_view(r.selections@) =~~= sels_view(self.selections@));
            assert(r@ =~~= self@);
        }
        r
    }
}

impl Selections {
    /// The nodes of the set, value for value.
    pub fn get_selections(&self) -> (r: Vec<Selection>)
        ensures
            sels_view(r@) == sels_view(self.selections@),
            r@.len() == self.selections@.len(),
    {
        let mut out: Vec<Selection> = Vec::new();
        let mut i: usize = 0;
        proof {
            lemma_sels_view_len(self.selections@);
        }
        while i < self.selections.len()
            invariant
                i <= self.selections@.len(),
                out@.len() == i,
                forall|j: int| 0 <= j < i ==> (#[trigger] out@[j])@ == self.selections@[j]@,
            decreases self.selections@.len() - i,
        {
            out.push(self.selections[i].clone());
            i = i + 1;
        }
        proof {
            lemma_sels_view_len(out@);
            assert(sels_view(out@) =~~= sels_view(self.selections@));
        }
        out
    }
}

/// A named fragment: a type condition and the selections it stands for.
#[derive(Debug, PartialEq)]
pub struct Fragment {
    pub cond: String,
    pub selections: Selections,
}

/// The view of a fragment.
#[verifier::ext_equal]
pub struct FragmentV {
    pub cond: Seq<char>,
    pub selections: SelectionsV,
}

impl View for Fragment {
    type V = FragmentV;

    open spec fn view(&self) -> FragmentV {
        FragmentV { cond: self.cond@, selections: sels_struct_view(self.selections) }
    }
}

impl Clone for Fragment {
    fn clone(&self) -> (r: Self)
        ensures
            r@ == self@,
    {
        let r = Fragment { cond: self.cond.clone(), selections: self.selections.clone() };
        proof {
            assert(r@ =~~= self@);
        }
        r
    }
}

impl Fragment {
    /// True when the fragment may be spread in the given context type.
    pub fn check_cond(&self, cond: &str) -> (r: bool)
        ensures
            r == (self.cond@ == cond@),
    {
        str_eq(self.cond.as_str(), cond)
    }

    /// True while the fragment's own body still holds unresolved
    /// spreads.
    pub fn has_fragments(&self) -> (r: bool)
        ensures
            r == self.selections.has_fragments,
    {
        self.selections.has_fragments
    }
}

/// The query compiler's error taxonomy.
#[derive(Debug)]
pub enum GraphqlError {
    ParseError(String),
    UnrecognizedType(String),
    UnrecognizedField(String, String),
    UnrecognizedArgument(String, String),
    OperationNotSupported(String),
    InvalidFragmentSelection(Fragment, String),
    UnsupportedValueType(String),
    FragmentResolverFailed,
    SelectionNotSupported,
    UnsupportedNegation(String),
    NoPredicatesInFilter,
    UnsupportedFilterOperation(String),
    UnableToParseValue(String),
    MissingPartnerForBinaryLogicalOperator,
    UnorderedPaginatedQuery,
}


/// The two-level field dictionary of the reflection schema.
pub type FieldsV = Seq<(Seq<char>, Seq<(Seq<char>, Seq<char>)>)>;

/// The resolved-fragment table.
pub type FragsV = Seq<(Seq<char>, FragmentV)>;

/// Every field of the tree is declared by the schema under its context
/// type.
pub open spec fn tree_consistent(fields: FieldsV, cond: Seq<char>, ss: Seq<SelectionV>) -> bool
    decreases ss,
{
    if ss.len() == 0 {
        true
    } else {
        (match ss[0] {
            SelectionV::FieldV { name, subs, .. } => field_type_spec(fields, cond, name)
                is Some && tree_consistent(
                fields,
                field_type_spec(fields, cond, name)->Some_0,
                subs.selections,
            ),
            SelectionV::FragmentV { .. } => true,
        }) && tree_consistent(fields, cond, ss.drop_first())
    }
}

/// One resolution pass over a selection set: every known fragment spread
/// is replaced by its body, fields recurse, and the pass reports how
/// many spreads it replaced and whether any unknown spread remains at
/// the top level. `None` stands for a spread whose type condition does
/// not match its context.
pub open spec fn subst_sels(
    fields: FieldsV,
    frags: FragsV,
    cond: Seq<char>,
    ss: Seq<SelectionV>,
) -> Option<(Seq<SelectionV>, int, bool)>
    decreases ss,
{
    if ss.len() == 0 {
        Some((Seq::empty(), 0, false))
    } else {
        match subst_sels(fields, frags, cond, ss.drop_first()) {
            None => None,
            Some(rest) => match ss[0] {
                SelectionV::FragmentV { name } => {
                    if sm_contains(frags, name) {
                        let fr = sm_get(frags, name);
                        if fr.cond == cond {
                            Some((fr.selections.selections + rest.0, rest.1 + 1, rest.2))
                        } else {
                            None
                        }
                    } else {
                        Some((seq![ss[0]] + rest.0, rest.1, true))
                    }
                },
                SelectionV::FieldV { name, params, subs, alias } => {
                    let ft = field_type_spec(fields, cond, name);
                    match subst_sels(fields, frags, ft->Some_0, subs.selections) {
                        None => None,
                        Some(sub2) => Some(
                            (
                                seq![
                                    SelectionV::FieldV {
                                        name,
                                        params,
                                        subs: SelectionsV {
                                            field_type: subs.field_type,
                                            has_fragments: sub2.2,
                                            selections: sub2.0,
                                        },
                                        alias,
                                    },
                                ] + rest.0,
                                rest.1,
                                rest.2,
                            ),
                        ),
                    }
                },
            },
        }
    }
}

/// True of a fully resolved tree: no fragment spread stands at any
/// depth, and no selection set still claims one.
pub open spec fn fully_resolved(ss: Seq<SelectionV>) -> bool
    decreases ss,
{
    if ss.len() == 0 {
        true
    } else {
        (match ss[0] {
            SelectionV::FieldV { subs, .. } => subs.has_fragments == false && fully_resolved(
                subs.selections,
            ),
            SelectionV::FragmentV { .. } => false,
        }) && fully_resolved(ss.drop_first())
    }
}

/// Fragment resolution is idempotent: on a fully resolved tree - as a
/// pass that left no spread behind produces - a further resolution pass
/// changes nothing, replaces nothing, and reports no spread.
pub proof fn lemma_resolve_idempotent(
    fields: FieldsV,
    frags: FragsV,
    cond: Seq<char>,
    ss: Seq<SelectionV>,
)
    requires
        tree_consistent(fields, cond, ss),
        fully_resolved(ss),
    ensures
        subst_sels(fields, frags, cond, ss) == Some((ss, 0int, false)),
    decreases ss,
{
    if ss.len() == 0 {
        assert(Seq::<SelectionV>::empty() =~~= ss);
    } else {
        lemma_resolve_idempotent(fields, frags, cond, ss.drop_first());
        match ss[0] {
            SelectionV::FieldV { name, params, subs, alias } => {
                let ft = field_type_spec(fields, cond, name);
                lemma_resolve_idempotent(fields, frags, ft->Some_0, subs.selections);
                assert(SelectionsV {
                    field_type: subs.field_type,
                    has_fragments: false,
                    selections: subs.selections,
                } =~~= subs);
                assert(seq![ss[0]] + ss.drop_first() =~~= ss);
            },
            SelectionV::FragmentV { .. } => {
                assert(false);
            },
        }
    }
}

impl Selections {
    /// One fragment-resolution pass, front to back: known spreads are
    /// replaced by their bodies, fields recurse into their selections,
    /// and the return value counts the spreads replaced at this level.
    /// A spread whose type condition does not match the context fails
    /// with `InvalidFragmentSelection`.
    pub fn resolve_fragments(
        &mut self,
        schema: &Schema,
        cond: &str,
        fragments: &StrMap<Fragment>,
    ) -> (r: Result<usize, GraphqlError>)
        requires
            schema.wf(),
            fragments.wf(),
            tree_consistent(schema.fields@, cond@, sels_view(old(self).selections@)),
        ensures
            match r {
                Ok(n) => {
                    let out = subst_sels(
                        schema.fields@,
                        fragments@,
                        cond@,
                        sels_view(old(self).selections@),
                    );
                    &&& out is Some
                    &&& sels_view(final(self).selections@) == out->Some_0.0
                    &&& n as int == out->Some_0.1
                    &&& final(self).has_fragments == out->Some_0.2
                    &&& final(self).field_type@ == old(self).field_type@
                },
                Err(e) => {
                    &&& e is InvalidFragmentSelection
                    &&& subst_sels(
                        schema.fields@,
                        fragments@,
                        cond@,
                        sels_view(old(self).selections@),
                    ) is None
                    &&& sels_view(final(self).selections@) == sels_view(
                        old(self).selections@,
                    )
                    &&& final(self).has_fragments == old(self).has_fragments
                    &&& final(self).field_type@ == old(self).field_type@
                },
            },
        decreases *old(self),
    {
        let ghost fieldsv = schema.fields@;
        let ghost fragsv = fragments@;
        let ghost orig = sels_view(old(self).selections@);
        // A copy to put back on the error path: the set is left as it
        // stood.
        let backup = self.get_selections();
        let n0 = self.selections.len();
        let mut out: Vec<Selection> = Vec::new();
        let mut resolved: usize = 0;
        let mut has_frags = false;
        let mut i: usize = 0;
        proof {
            lemma_sels_view_len(self.selections@);
            assert(self.selections@.subrange(0, n0 as int) =~= self.selections@);
            if subst_sels(fieldsv, fragsv, cond@, orig) is Some {
                assert(Seq::<SelectionV>::empty() + subst_sels(
                    fieldsv,
                    fragsv,
                    cond@,
                    orig,
                )->Some_0.0 =~~= subst_sels(fieldsv, fragsv, cond@, orig)->Some_0.0);
            }
        }
        while i < n0
            invariant
                i <= n0,
                resolved <= i,
                schema.wf(),
                fragments.wf(),
                fieldsv == schema.fields@,
                fragsv == fragments@,
                n0 == old(self).selections@.len(),
                self.field_type == old(self).field_type,
                self.has_fragments == old(self).has_fragments,
                sels_view(backup@) == orig,
                self.selections@ == old(self).selections@.subrange(i as int, n0 as int),
                orig == sels_view(old(self).selections@),
                tree_consistent(fieldsv, cond@, sels_view(self.selections@)),
                subst_sels(fieldsv, fragsv, cond@, orig) == (match subst_sels(
                    fieldsv,
                    fragsv,
                    cond@,
                    sels_view(self.selections@),
                ) {
                    None => None::<(Seq<SelectionV>, int, bool)>,
                    Some(o) => Some(
                        (sels_view(out@) + o.0, resolved + o.1, has_frags || o.2),
                    ),
                }),
            decreases n0 - i,
        {
            let ghost suffix = sels_view(self.selections@);
            let ghost acc0 = sels_view(out@);
            let ghost res0 = resolved as int;
            let ghost hf0 = has_frags;
            proof {
                lemma_sels_view_len(self.selections@);
            }
            let sel = self.selections.remove(0);
            let ghost selg = sel;
            proof {
                lemma_sels_view_len(self.selections@);
                assert(suffix.len() > 0);
                assert(sel@ == suffix[0]);
                assert(sels_view(self.selections@) =~~= suffix.drop_first());
                assert(self.selections@ =~= old(self).selections@.subrange(
                    i + 1,
                    n0 as int,
                ));
                assert(old(self).selections@.subrange(i as int, n0 as int)[0] == selg);
                assert(old(self).selections@[i as int] == selg);
            }
            let ghost rest_out = subst_sels(fieldsv, fragsv, cond@, suffix.drop_first());
            match sel {
                Selection::Fragment(name) => {
                    match fragments.get(name.as_str()) {
                        Some(frag) => {
                            if !frag.check_cond(cond) {
                                proof {
                                    assert(sm_get(fragsv, name@).cond != cond@);
                                    assert(subst_sels(fieldsv, fragsv, cond@, suffix) is None);
                                }
                                let e = GraphqlError::InvalidFragmentSelection(
                                    frag.clone(),
                                    cond.to_owned(),
                                );
                                self.selections = backup;
                                return Err(e);
                            }
                            resolved = resolved + 1;
                            let mut body = frag.selections.get_selections();
                            proof {
                                assert(sels_view(body@) == sm_get(
                                    fragsv,
                                    name@,
                                ).selections.selections);
                                lemma_sels_view_append(out@, body@);
                            }
                            let ghost out_pre = out@;
                            out.append(&mut body);
                            proof {
                                assert(sels_view(out@) == acc0 + sm_get(
                                    fragsv,
                                    name@,
                                ).selections.selections) by {
                                    assert(sels_view(out@) =~~= acc0 + sm_get(
                                        fragsv,
                                        name@,
                                    ).selections.selections);
                                }
                                if rest_out is Some {
                                    let r = rest_out->Some_0;
                                    assert(subst_sels(fieldsv, fragsv, cond@, suffix)
                                        == Some((sm_get(fragsv, name@).selections.selections
                                        + r.0, r.1 + 1, r.2)));
                                    assert(acc0 + (sm_get(fragsv, name@).selections.selections
                                        + r.0) =~~= sels_view(out@) + r.0);
                                } else {
                                    assert(subst_sels(fieldsv, fragsv, cond@, suffix) is None);
                                }
                            }
                        },
                        None => {
                            has_frags = true;
                            let ghost prev_out = out@;
                            out.push(Selection::Fragment(name));
                            proof {
                                lemma_sels_view_push_generic(prev_out, out@);
                                assert(sel_view(out@.last()) == suffix[0]);
                                if rest_out is Some {
                                    let r = rest_out->Some_0;
                                    assert(subst_sels(fieldsv, fragsv, cond@, suffix)
                                        == Some((seq![suffix[0]] + r.0, r.1, true)));
                                    assert(acc0 + (seq![suffix[0]] + r.0) =~~= sels_view(
                                        out@,
                                    ) + r.0);
                                }
                            }
                        },
                    }
                },
                Selection::Field(name, params, subs, alias) => {
                    let ft: String = match schema.field_type(cond, name.as_str()) {
                        Some(t) => t.clone(),
                        None => {
                            proof {
                                assert(field_type_spec(fieldsv, cond@, name@) is Some);
                                assert(false);
                            }
                            self.selections = backup;
                            return Err(GraphqlError::SelectionNotSupported);
                        },
                    };
                    let mut subs2 = subs;
                    proof {
                        assert(decreases_to!(selg => subs2));
                        assert(decreases_to!(old(self).selections@ => selg));
                        assert(decreases_to!(old(self).selections => old(self).selections@));
                        assert(decreases_to!(*old(self) => old(self).selections));
                    }
                    let ghost subs2_pre = sels_struct_view(subs2);
                    match subs2.resolve_fragments(schema, ft.as_str(), fragments) {
                        Ok(_) => {},
                        Err(e) => {
                            proof {
                                assert(subst_sels(fieldsv, fragsv, cond@, suffix) is None);
                            }
                            self.selections = backup;
                            return Err(e);
                        },
                    }
                    let ghost prev_out = out@;
                    out.push(Selection::Field(name, params, subs2, alias));
                    proof {
                        lemma_sels_view_push_generic(prev_out, out@);
                        let ghost inner = subst_sels(
                            fieldsv,
                            fragsv,
                            field_type_spec(fieldsv, cond@, suffix[0]->FieldV_name)->Some_0,
                            suffix[0]->FieldV_subs.selections,
                        );
                        assert(inner is Some);
                        assert(sel_view(out@.last()) =~~= SelectionV::FieldV {
                            name: suffix[0]->FieldV_name,
                            params: suffix[0]->FieldV_params,
                            subs: SelectionsV {
                                field_type: suffix[0]->FieldV_subs.field_type,
                                has_fragments: inner->Some_0.2,
                                selections: inner->Some_0.0,
                            },
                            alias: suffix[0]->FieldV_alias,
                        });
                        if rest_out is Some {
                            let r = rest_out->Some_0;
                            assert(subst_sels(fieldsv, fragsv, cond@, suffix) == Some(
                                (seq![sel_view(out@.last())] + r.0, r.1, r.2),
                            ));
                            assert(acc0 + (seq![sel_view(out@.last())] + r.0) =~~= sels_view(
                                out@,
                            ) + r.0);
                        }
                    }
                },
            }
            i = i + 1;
        }
        proof {
            lemma_sels_view_len(self.selections@);
            assert(sels_view(self.selections@) =~~= Seq::<SelectionV>::empty());
            assert(subst_sels(fieldsv, fragsv, cond@, Seq::<SelectionV>::empty()) == Some(
                (Seq::<SelectionV>::empty(), 0int, false),
            ));
            if subst_sels(fieldsv, fragsv, cond@, orig) is Some {
                assert(sels_view(out@) + Seq::<SelectionV>::empty() =~~= sels_view(out@));
            }
        }
        self.selections = out;
        self.has_fragments = has_frags;
        Ok(resolved)
    }
}

/// Dropping the head of a list drops the head of its view.
proof fn lemma_sels_view_suffix(suffix: Seq<SelectionV>, rest: Seq<Selection>, head: Selection)
    requires
        suffix == seq![sel_view(head)] + sels_view(rest),
    ensures
        sels_view(rest) == suffix.drop_first(),
{
    assert(sels_view(rest) =~~= suffix.drop_first());
}

/// Views distribute over appending.
proof fn lemma_sels_view_append(a: Seq<Selection>, b: Seq<Selection>)
    ensures
        sels_view(a + b) == sels_view(a) + sels_view(b),
{
    lemma_sels_view_len(a + b);
    lemma_sels_view_len(a);
    lemma_sels_view_len(b);
    assert forall|i: int| 0 <= i < a.len() + b.len() implies #[trigger] sels_view(a + b)[i] == (
    sels_view(a) + sels_view(b))[i] by {
        if i < a.len() {
            assert((a + b)[i] == a[i]);
        } else {
            assert((a + b)[i] == b[i - a.len()]);
        }
    }
    assert(sels_view(a + b) =~~= sels_view(a) + sels_view(b));
}

/// A push extends the view by the view of the pushed value.
proof fn lemma_sels_view_push_generic(prev: Seq<Selection>, cur: Seq<Selection>)
    requires
        cur.len() == prev.len() + 1,
        forall|i: int| 0 <= i < prev.len() ==> cur[i] == prev[i],
    ensures
        sels_view(cur) == sels_view(prev).push(sel_view(cur.last())),
{
    lemma_sels_view_len(cur);
    lemma_sels_view_len(prev);
    assert(sels_view(cur) =~~= sels_view(prev).push(sel_view(cur.last())));
}


/// The key a selection is emitted under: the alias when present, the
/// field name otherwise.
pub open spec fn key_spec(alias: Option<Seq<char>>, name: Seq<char>) -> Seq<char> {
    match alias {
        Some(a) => a,
        None => name,
    }
}

/// The keys one selection contributes, in emission order: its own key,
/// then its children's. A popped work stack hands nested selections
/// back in reverse source order, and the keys follow it.
pub open spec fn sel_keys(s: SelectionV) -> Seq<Seq<char>>
    decreases s,
{
    match s {
        SelectionV::FragmentV { .. } => Seq::empty(),
        SelectionV::FieldV { name, subs, alias, .. } => seq![key_spec(alias, name)]
            + rev_keys_list(subs.selections),
    }
}

/// The keys of a nested selection list, last selection first.
pub open spec fn rev_keys_list(ss: Seq<SelectionV>) -> Seq<Seq<char>>
    decreases ss,
{
    if ss.len() == 0 {
        Seq::empty()
    } else {
        sel_keys(ss.last()) + rev_keys_list(ss.drop_last())
    }
}

/// The keys of a top-level selection list, first selection first.
pub open spec fn fwd_keys_list(ss: Seq<SelectionV>) -> Seq<Seq<char>>
    decreases ss,
{
    if ss.len() == 0 {
        Seq::empty()
    } else {
        sel_keys(ss[0]) + fwd_keys_list(ss.drop_first())
    }
}

/// The keys an element sequence carries: one per column and one per
/// object opening.
pub open spec fn element_keys(es: Seq<QueryElementV>) -> Seq<Seq<char>>
    decreases es,
{
    if es.len() == 0 {
        Seq::empty()
    } else {
        element_keys(es.drop_last()) + (match es.last() {
            QueryElementV::FieldV { key, .. } => seq![key],
            QueryElementV::OpenV { key } => seq![key],
            QueryElementV::CloseV => Seq::empty(),
        })
    }
}

/// The keys still owed by a work stack, popped from the end.
pub open spec fn stack_keys(q: Seq<SelectionV>) -> Seq<Seq<char>>
    decreases q,
{
    if q.len() == 0 {
        Seq::empty()
    } else {
        sel_keys(q.last()) + stack_keys(q.drop_last())
    }
}

proof fn lemma_stack_keys_append(a: Seq<SelectionV>, c: Seq<SelectionV>)
    ensures
        stack_keys(a + c) == rev_keys_list(c) + stack_keys(a),
    decreases c,
{
    if c.len() == 0 {
        assert(a + c =~~= a);
        assert(rev_keys_list(c) + stack_keys(a) =~~= stack_keys(a));
    } else {
        assert((a + c).last() == c.last());
        assert((a + c).drop_last() =~~= a + c.drop_last());
        lemma_stack_keys_append(a, c.drop_last());
        assert(sel_keys(c.last()) + (rev_keys_list(c.drop_last()) + stack_keys(a)) =~~= (
        sel_keys(c.last()) + rev_keys_list(c.drop_last())) + stack_keys(a));
    }
}

proof fn lemma_rev_of_reverse(ss: Seq<SelectionV>)
    ensures
        rev_keys_list(ss.reverse()) == fwd_keys_list(ss),
    decreases ss,
{
    if ss.len() == 0 {
        assert(ss.reverse() =~~= ss);
    } else {
        assert(ss.reverse().last() == ss[0]);
        assert(ss.reverse().drop_last() =~~= ss.drop_first().reverse());
        lemma_rev_of_reverse(ss.drop_first());
    }
}

/// The size of a selection tree: one per node, counted through nesting.
pub open spec fn sel_size(s: SelectionV) -> nat
    decreases s,
{
    match s {
        SelectionV::FragmentV { .. } => 1,
        SelectionV::FieldV { subs, .. } => 1 + sels_size(subs.selections),
    }
}

pub open spec fn sels_size(ss: Seq<SelectionV>) -> nat
    decreases ss,
{
    if ss.len() == 0 {
        0
    } else {
        sel_size(ss.last()) + sels_size(ss.drop_last())
    }
}

proof fn lemma_sels_size_append(a: Seq<SelectionV>, c: Seq<SelectionV>)
    ensures
        sels_size(a + c) == sels_size(a) + sels_size(c),
    decreases c,
{
    if c.len() == 0 {
        assert(a + c =~~= a);
    } else {
        assert((a + c).last() == c.last());
        assert((a + c).drop_last() =~~= a + c.drop_last());
        lemma_sels_size_append(a, c.drop_last());
    }
}

/// One element appended keeps a prefix-balanced sequence balanced when
/// it is no closing, or when an object stands open.
proof fn lemma_counts_push(es: Seq<QueryElementV>, e: QueryElementV)
    ensures
        count_opens(es.push(e)) == count_opens(es) + (if e is OpenV {
            1int
        } else {
            0int
        }),
        count_closes(es.push(e)) == count_closes(es) + (if e is CloseV {
            1int
        } else {
            0int
        }),
{
    assert(es.push(e).drop_last() =~~= es);
    assert(es.push(e).last() == e);
}

/// Prefix balance carried over one appended element.
proof fn lemma_prefix_balance_push(es: Seq<QueryElementV>, e: QueryElementV)
    requires
        forall|k: int|
            0 <= k <= es.len() ==> count_closes(#[trigger] es.subrange(0, k)) <= count_opens(
                es.subrange(0, k),
            ),
        e is CloseV ==> count_closes(es) < count_opens(es),
    ensures
        forall|k: int|
            0 <= k <= es.len() + 1 ==> count_closes(#[trigger] es.push(e).subrange(0, k))
                <= count_opens(es.push(e).subrange(0, k)),
{
    assert forall|k: int| 0 <= k <= es.len() + 1 implies count_closes(
        #[trigger] es.push(e).subrange(0, k),
    ) <= count_opens(es.push(e).subrange(0, k)) by {
        if k <= es.len() {
            assert(es.push(e).subrange(0, k) =~~= es.subrange(0, k));
        } else {
            assert(es.push(e).subrange(0, k) =~~= es.push(e));
            lemma_counts_push(es, e);
            assert(es.subrange(0, es.len() as int) =~~= es);
        }
    }
}

/// The table pairs the schema\'s foreign-key dictionary admits under a
/// namespace: a referencing entity against its referenced table.
pub open spec fn fk_rel(fks: crate::tables::FkDict, ns_id: Seq<char>) -> Set<
    (Seq<char>, Seq<char>),
> {
    Set::new(
        |e: (Seq<char>, Seq<char>)|
            exists|x: Seq<char>, i: int, j: int|
                {
                    &&& 0 <= i < fks.len()
                    &&& #[trigger] fks[i].0 == #[trigger] lower_seq(x)
                    &&& 0 <= j < fks[i].1.len()
                    &&& e.0 == ns_id + "."@ + x
                    &&& e.1 == ns_id + "."@ + (#[trigger] fks[i].1[j]).1.0
                },
    )
}

fn dup_jc_map(m: &StrMap<JoinCondition>) -> (r: StrMap<JoinCondition>)
    ensures
        r@ == m@,
{
    let mut entries: Vec<(String, JoinCondition)> = Vec::new();
    let mut i: usize = 0;
    while i < m.entries.len()
        invariant
            i <= m.entries@.len(),
            entries@.len() == i,
            forall|j: int|
                0 <= j < i ==> (#[trigger] entries@[j]).0@ == m@[j].0 && entries@[j].1@
                    == m@[j].1,
        decreases m.entries@.len() - i,
    {
        let k = m.entries[i].0.clone();
        let c = &m.entries[i].1;
        let v = JoinCondition {
            referencing_key_table: c.referencing_key_table.clone(),
            referencing_key_col: c.referencing_key_col.clone(),
            primary_key_table: c.primary_key_table.clone(),
            primary_key_col: c.primary_key_col.clone(),
        };
        entries.push((k, v));
        i = i + 1;
    }
    let r = StrMap { entries };
    proof {
        assert(r@ =~~= m@);
    }
    r
}

fn dup_join_node(n: &QueryJoinNode) -> (r: QueryJoinNode)
    ensures
        r@ == n@,
{
    let r = QueryJoinNode {
        dependencies: dup_jc_map(&n.dependencies),
        dependents: dup_jc_map(&n.dependents),
    };
    proof {
        assert(r@ =~~= n@);
    }
    r
}

/// One operation: the selections of one request under the indexer\'s
/// identity.
#[derive(Debug)]
pub struct Operation {
    pub namespace: String,
    pub identifier: String,
    pub name: String,
    pub selections: Selections,
}

impl Operation {
    pub fn new(namespace: String, identifier: String, name: String, selections: Selections) -> (r:
        Operation)
        ensures
            r.namespace@ == namespace@,
            r.identifier@ == identifier@,
            r.name@ == name@,
            r.selections@ == selections@,
    {
        Operation { namespace, identifier, name, selections }
    }
}



/// What the traversal emits for the JSON projection: a column or an
/// object opening, under its key.
#[verifier::ext_equal]
pub enum EmitV {
    EmitField { key: Seq<char>, value: Seq<char> },
    EmitOpen { key: Seq<char> },
}

/// The lowered arguments of one selection under their owning table.
#[verifier::ext_equal]
pub struct BatchV {
    pub params: Seq<ParamTypeV>,
    pub scope: Seq<char>,
}

/// Everything one traversal step contributes: projection emissions,
/// join conditions in discovery order, and parameter batches.
#[verifier::ext_equal]
pub struct TravOut {
    pub emits: Seq<EmitV>,
    pub jcs: Seq<crate::queries::JoinConditionV>,
    pub batches: Seq<BatchV>,
}

pub open spec fn trav_empty() -> TravOut {
    TravOut { emits: Seq::empty(), jcs: Seq::empty(), batches: Seq::empty() }
}

pub open spec fn trav_cat(a: TravOut, b: TravOut) -> TravOut {
    TravOut { emits: a.emits + b.emits, jcs: a.jcs + b.jcs, batches: a.batches + b.batches }
}

proof fn lemma_trav_cat_assoc(a: TravOut, b: TravOut, c: TravOut)
    ensures
        trav_cat(trav_cat(a, b), c) == trav_cat(a, trav_cat(b, c)),
{
    assert(trav_cat(trav_cat(a, b), c) =~~= trav_cat(a, trav_cat(b, c)));
}

proof fn lemma_trav_cat_empty(a: TravOut)
    ensures
        trav_cat(a, trav_empty()) == a,
        trav_cat(trav_empty(), a) == a,
{
    assert(trav_cat(a, trav_empty()) =~~= a);
    assert(trav_cat(trav_empty(), a) =~~= a);
}

/// The fully qualified table of an entity: `{ns}_{id}.{entity}`.
pub open spec fn qual(ns: Seq<char>, entity: Seq<char>) -> Seq<char> {
    ns + "."@ + entity
}

/// The foreign-key entry a composite field hits, if any: the dictionary
/// is keyed by the lowercased entity and field names.
pub open spec fn fk_hit(
    fks: crate::tables::FkDict,
    entity: Seq<char>,
    fname: Seq<char>,
) -> Option<(Seq<char>, Seq<char>)> {
    if sm_contains(fks, lower_seq(entity)) && sm_contains(
        sm_get(fks, lower_seq(entity)),
        lower_seq(fname),
    ) {
        Some(sm_get(sm_get(fks, lower_seq(entity)), lower_seq(fname)))
    } else {
        None
    }
}

/// What one selection under an entity contributes: a leaf emits its
/// column and its filters; a composite opens an object, joins through
/// its foreign key when one is declared, scopes its filters to the
/// joined table, and hands its children on in reverse source order
/// under the referenced entity.
pub open spec fn trav_one(
    fks: crate::tables::FkDict,
    ns: Seq<char>,
    entity: Seq<char>,
    s: SelectionV,
) -> TravOut
    decreases s,
{
    match s {
        SelectionV::FragmentV { .. } => trav_empty(),
        SelectionV::FieldV { name, params, subs, alias } => {
            if subs.selections.len() == 0 {
                TravOut {
                    emits: seq![
                        EmitV::EmitField {
                            key: key_spec(alias, name),
                            value: qual(ns, entity) + "."@ + name,
                        },
                    ],
                    jcs: Seq::empty(),
                    batches: if params.len() > 0 {
                        seq![BatchV { params, scope: qual(ns, entity) }]
                    } else {
                        Seq::empty()
                    },
                }
            } else {
                let hit = fk_hit(fks, entity, name);
                let new_entity = match hit {
                    Some((t, _)) => if t != name {
                        t
                    } else {
                        name
                    },
                    None => name,
                };
                let head = TravOut {
                    emits: seq![EmitV::EmitOpen { key: key_spec(alias, name) }],
                    jcs: match hit {
                        Some((t, c)) => seq![
                            crate::queries::JoinConditionV {
                                referencing_key_table: qual(ns, entity),
                                referencing_key_col: name,
                                primary_key_table: qual(ns, t),
                                primary_key_col: c,
                            },
                        ],
                        None => Seq::empty(),
                    },
                    batches: match hit {
                        Some((t, _)) => if params.len() > 0 {
                            seq![BatchV { params, scope: qual(ns, t) }]
                        } else {
                            Seq::empty()
                        },
                        None => Seq::empty(),
                    },
                };
                trav_cat(head, trav_rev(fks, ns, new_entity, subs.selections))
            }
        },
    }
}

/// A nested selection list, walked last selection first.
pub open spec fn trav_rev(
    fks: crate::tables::FkDict,
    ns: Seq<char>,
    entity: Seq<char>,
    ss: Seq<SelectionV>,
) -> TravOut
    decreases ss,
{
    if ss.len() == 0 {
        trav_empty()
    } else {
        trav_cat(trav_one(fks, ns, entity, ss.last()), trav_rev(fks, ns, entity, ss.drop_last()))
    }
}

/// A top-level selection list, walked first selection first.
pub open spec fn trav_fwd(
    fks: crate::tables::FkDict,
    ns: Seq<char>,
    entity: Seq<char>,
    ss: Seq<SelectionV>,
) -> TravOut
    decreases ss,
{
    if ss.len() == 0 {
        trav_empty()
    } else {
        trav_cat(trav_one(fks, ns, entity, ss[0]), trav_fwd(fks, ns, entity, ss.drop_first()))
    }
}

/// What a work stack still owes, with each pending selection under its
/// own entity.
pub open spec fn trav_stack(
    fks: crate::tables::FkDict,
    ns: Seq<char>,
    qs: Seq<SelectionV>,
    es: Seq<Seq<char>>,
) -> TravOut
    decreases qs,
{
    if qs.len() == 0 {
        trav_empty()
    } else {
        trav_cat(
            trav_one(fks, ns, if es.len() == qs.len() {
                es.last()
            } else {
                Seq::empty()
            }, qs.last()),
            trav_stack(fks, ns, qs.drop_last(), es.drop_last()),
        )
    }
}

proof fn lemma_trav_stack_append(
    fks: crate::tables::FkDict,
    ns: Seq<char>,
    qs: Seq<SelectionV>,
    es: Seq<Seq<char>>,
    cs: Seq<SelectionV>,
    entity: Seq<char>,
)
    requires
        qs.len() == es.len(),
    ensures
        trav_stack(fks, ns, qs + cs, es + Seq::new(cs.len(), |i: int| entity)) == trav_cat(
            trav_rev(fks, ns, entity, cs),
            trav_stack(fks, ns, qs, es),
        ),
    decreases cs,
{
    let reps = Seq::new(cs.len(), |i: int| entity);
    if cs.len() == 0 {
        assert(qs + cs =~~= qs);
        assert(es + reps =~~= es);
        lemma_trav_cat_empty(trav_stack(fks, ns, qs, es));
    } else {
        assert((qs + cs).last() == cs.last());
        assert((es + reps).last() == entity);
        assert((qs + cs).drop_last() =~~= qs + cs.drop_last());
        assert((es + reps).drop_last() =~~= es + Seq::new(
            (cs.len() - 1) as nat,
            |i: int| entity,
        ));
        lemma_trav_stack_append(fks, ns, qs, es, cs.drop_last(), entity);
        lemma_trav_cat_assoc(
            trav_one(fks, ns, entity, cs.last()),
            trav_rev(fks, ns, entity, cs.drop_last()),
            trav_stack(fks, ns, qs, es),
        );
    }
}

proof fn lemma_trav_rev_of_reverse(
    fks: crate::tables::FkDict,
    ns: Seq<char>,
    entity: Seq<char>,
    ss: Seq<SelectionV>,
)
    ensures
        trav_rev(fks, ns, entity, ss.reverse()) == trav_fwd(fks, ns, entity, ss),
    decreases ss,
{
    if ss.len() == 0 {
        assert(ss.reverse() =~~= ss);
    } else {
        assert(ss.reverse().last() == ss[0]);
        assert(ss.reverse().drop_last() =~~= ss.drop_first().reverse());
        lemma_trav_rev_of_reverse(fks, ns, entity, ss.drop_first());
    }
}

/// The projection emissions an element sequence carries: its columns
/// and openings, in order.
pub open spec fn elems_emits(es: Seq<QueryElementV>) -> Seq<EmitV>
    decreases es,
{
    if es.len() == 0 {
        Seq::empty()
    } else {
        elems_emits(es.drop_last()) + (match es.last() {
            QueryElementV::FieldV { key, value } => seq![EmitV::EmitField { key, value }],
            QueryElementV::OpenV { key } => seq![EmitV::EmitOpen { key }],
            QueryElementV::CloseV => Seq::empty(),
        })
    }
}

/// The element sequence the compiler's walk produces from a pending
/// state: the work stack with one entity per pending selection, the
/// stack of open objects, and the entity-stack length the previous
/// step left. A pop that shrinks the entity stack below that mark
/// while the innermost open object is another entity closes it; a
/// drained stack closes whatever stays open, and each selection
/// contributes its column or its opening exactly as the traversal
/// reads it.
pub open spec fn walk_elems(
    fks: crate::tables::FkDict,
    ns: Seq<char>,
    qs: Seq<SelectionV>,
    es: Seq<Seq<char>>,
    open_stack: Seq<Seq<char>>,
    mark: int,
) -> Seq<QueryElementV>
    decreases sels_size(qs)
        via walk_elems_dec
{
    if qs.len() == 0 {
        Seq::new(open_stack.len(), |i: int| QueryElementV::CloseV)
    } else {
        let cur = qs.last();
        let ce = if es.len() == qs.len() {
            es.last()
        } else {
            Seq::empty()
        };
        let qs1 = qs.drop_last();
        let es1 = es.drop_last();
        let closed = open_stack.len() > 0 && es1.len() < mark && open_stack.last() != ce;
        let pre: Seq<QueryElementV> = if closed {
            seq![QueryElementV::CloseV]
        } else {
            Seq::empty()
        };
        let ost = if closed {
            open_stack.drop_last()
        } else {
            open_stack
        };
        let mark1 = es1.len() as int;
        match cur {
            SelectionV::FragmentV { .. } => pre + walk_elems(fks, ns, qs1, es1, ost, mark1),
            SelectionV::FieldV { name, params, subs, alias } => {
                if subs.selections.len() == 0 {
                    pre + seq![
                        QueryElementV::FieldV {
                            key: key_spec(alias, name),
                            value: qual(ns, ce) + "."@ + name,
                        },
                    ] + walk_elems(fks, ns, qs1, es1, ost, mark1)
                } else {
                    let ne = match fk_hit(fks, ce, name) {
                        Some((t, _)) => if t != name {
                            t
                        } else {
                            name
                        },
                        None => name,
                    };
                    pre + seq![QueryElementV::OpenV { key: key_spec(alias, name) }] + walk_elems(
                        fks,
                        ns,
                        qs1 + subs.selections,
                        es1 + Seq::new(subs.selections.len(), |j: int| ne),
                        ost.push(ne),
                        mark1,
                    )
                }
            },
        }
    }
}

#[via_fn]
proof fn walk_elems_dec(
    fks: crate::tables::FkDict,
    ns: Seq<char>,
    qs: Seq<SelectionV>,
    es: Seq<Seq<char>>,
    open_stack: Seq<Seq<char>>,
    mark: int,
) {
    if qs.len() > 0 {
        assert(sels_size(qs) == sel_size(qs.last()) + sels_size(qs.drop_last()));
        match qs.last() {
            SelectionV::FieldV { subs, .. } => {
                assert(sel_size(qs.last()) == 1 + sels_size(subs.selections));
                lemma_sels_size_append(qs.drop_last(), subs.selections);
            },
            SelectionV::FragmentV { .. } => {
                assert(sel_size(qs.last()) == 1);
            },
        }
    }
}

/// The full element sequence of one compiled query: the root's children
/// enter reversed under the root entity, with no object open.
pub open spec fn compile_elems(
    fks: crate::tables::FkDict,
    ns: Seq<char>,
    entity: Seq<char>,
    children: Seq<SelectionV>,
) -> Seq<QueryElementV> {
    walk_elems(
        fks,
        ns,
        children.reverse(),
        Seq::new(children.len(), |i: int| entity),
        Seq::empty(),
        children.len() as int,
    )
}

/// The parameter rows a batch list flattens to.
pub open spec fn batch_flat(bs: Seq<BatchV>) -> Seq<(ParamTypeV, Seq<char>)>
    decreases bs,
{
    if bs.len() == 0 {
        Seq::empty()
    } else {
        batch_flat(bs.drop_last()) + Seq::new(
            bs.last().params.len(),
            |i: int| (bs.last().params[i], bs.last().scope),
        )
    }
}

/// The join graph after one condition lands on both of its sides.
pub open spec fn join_insert_spec(
    j: Seq<(Seq<char>, crate::queries::QueryJoinNodeV)>,
    jc: crate::queries::JoinConditionV,
) -> Seq<(Seq<char>, crate::queries::QueryJoinNodeV)> {
    let node1 = crate::queries::QueryJoinNodeV {
        dependencies: sm_insert(
            if sm_contains(j, jc.referencing_key_table) {
                sm_get(j, jc.referencing_key_table).dependencies
            } else {
                Seq::empty()
            },
            jc.primary_key_table,
            jc,
        ),
        dependents: if sm_contains(j, jc.referencing_key_table) {
            sm_get(j, jc.referencing_key_table).dependents
        } else {
            Seq::empty()
        },
    };
    let j1 = sm_insert(j, jc.referencing_key_table, node1);
    let node2 = crate::queries::QueryJoinNodeV {
        dependencies: if sm_contains(j1, jc.primary_key_table) {
            sm_get(j1, jc.primary_key_table).dependencies
        } else {
            Seq::empty()
        },
        dependents: sm_insert(
            if sm_contains(j1, jc.primary_key_table) {
                sm_get(j1, jc.primary_key_table).dependents
            } else {
                Seq::empty()
            },
            jc.referencing_key_table,
            jc,
        ),
    };
    sm_insert(j1, jc.primary_key_table, node2)
}

/// The join graph a discovery-ordered condition list folds to.
pub open spec fn join_fold(jcs: Seq<crate::queries::JoinConditionV>) -> Seq<
    (Seq<char>, crate::queries::QueryJoinNodeV),
>
    decreases jcs,
{
    if jcs.len() == 0 {
        Seq::empty()
    } else {
        join_insert_spec(join_fold(jcs.drop_last()), jcs.last())
    }
}

/// Inserts one join condition into both sides of the directed graph:
/// under the referencing table as a dependency, under the primary table
/// as a dependent. The graph gains at most the one edge.
fn insert_join(joins: &mut StrMap<QueryJoinNode>, jc: JoinCondition)
    requires
        old(joins).wf(),
        forall|t: int|
            0 <= t < old(joins)@.len() ==> crate::strmap::sm_wf(
                (#[trigger] old(joins)@[t]).1.dependencies,
            ) && crate::strmap::sm_wf(old(joins)@[t].1.dependents),
    ensures
        final(joins).wf(),
        forall|t: int|
            0 <= t < final(joins)@.len() ==> crate::strmap::sm_wf(
                (#[trigger] final(joins)@[t]).1.dependencies,
            ) && crate::strmap::sm_wf(final(joins)@[t].1.dependents),
        join_edges(final(joins)@).subset_of(
            join_edges(old(joins)@).insert(
                (jc.referencing_key_table@, jc.primary_key_table@),
            ),
        ),
        final(joins)@ == join_insert_spec(old(joins)@, jc@),
{
    let ghost j0 = joins@;
    let ghost new_edge = (jc.referencing_key_table@, jc.primary_key_table@);
    let ref_table = jc.referencing_key_table.clone();
    let prim_table = jc.primary_key_table.clone();
    let jc2 = JoinCondition {
        referencing_key_table: jc.referencing_key_table.clone(),
        referencing_key_col: jc.referencing_key_col.clone(),
        primary_key_table: jc.primary_key_table.clone(),
        primary_key_col: jc.primary_key_col.clone(),
    };
    match joins.get(ref_table.as_str()) {
        Some(node) => {
            proof {
                let t = crate::strmap::sm_index(j0, ref_table@);
                assert(crate::strmap::sm_wf(j0[t].1.dependencies));
            }
            let mut n2 = dup_join_node(node);
            n2.dependencies.insert(prim_table.clone(), jc);
            joins.insert(ref_table.clone(), n2);
        },
        None => {
            let mut deps: StrMap<JoinCondition> = StrMap::new();
            deps.insert(prim_table.clone(), jc);
            let node = QueryJoinNode { dependencies: deps, dependents: StrMap::new() };
            joins.insert(ref_table.clone(), node);
        },
    }
    let ghost j1 = joins@;
    proof {
        assert(j1 =~~= sm_insert(
            j0,
            jc2.referencing_key_table@,
            crate::queries::QueryJoinNodeV {
                dependencies: sm_insert(
                    if sm_contains(j0, jc2.referencing_key_table@) {
                        sm_get(j0, jc2.referencing_key_table@).dependencies
                    } else {
                        Seq::empty()
                    },
                    jc2.primary_key_table@,
                    jc2@,
                ),
                dependents: if sm_contains(j0, jc2.referencing_key_table@) {
                    sm_get(j0, jc2.referencing_key_table@).dependents
                } else {
                    Seq::empty()
                },
            },
        ));
    }
    proof {
        assert forall|t: int|
            0 <= t < j1.len() implies crate::strmap::sm_wf(
            (#[trigger] j1[t]).1.dependencies,
        ) && crate::strmap::sm_wf(j1[t].1.dependents) by {
            if crate::strmap::sm_contains(j0, ref_table@) {
                if t != crate::strmap::sm_index(j0, ref_table@) {
                    assert(j1[t] == j0[t]);
                }
            } else {
                if t < j0.len() {
                    assert(j1[t] == j0[t]);
                }
            }
        }
        assert forall|e: (Seq<char>, Seq<char>)| join_edges(j1).contains(e) implies join_edges(
            j0,
        ).insert(new_edge).contains(e) by {
            let (i, j): (int, int) = choose|i: int, j: int|
                0 <= i < j1.len() && 0 <= j < (#[trigger] j1[i]).1.dependencies.len() && e == (
                j1[i].0,
                (#[trigger] j1[i].1.dependencies[j]).0,
                );
            let upd = crate::strmap::sm_contains(j0, ref_table@);
            let idx: int = if upd {
                crate::strmap::sm_index(j0, ref_table@)
            } else {
                j0.len() as int
            };
            if i != idx {
                assert(j1[i] == j0[i]);
                assert(join_edges(j0).contains(e));
            } else {
                let old_deps: Seq<(Seq<char>, crate::queries::JoinConditionV)> = if upd {
                    j0[idx].1.dependencies
                } else {
                    Seq::empty()
                };
                assert(j1[i].1.dependencies == crate::strmap::sm_insert(
                    old_deps,
                    prim_table@,
                    jc2@,
                ));
                if crate::strmap::sm_contains(old_deps, prim_table@) {
                    let w = crate::strmap::sm_index(old_deps, prim_table@);
                    if j != w {
                        assert(j1[i].1.dependencies[j] == old_deps[j]);
                        assert(join_edges(j0).contains(e));
                    } else {
                        assert(e == new_edge);
                    }
                } else {
                    if j < old_deps.len() {
                        assert(j1[i].1.dependencies[j] == old_deps[j]);
                        assert(join_edges(j0).contains(e));
                    } else {
                        assert(e == new_edge);
                    }
                }
            }
        }
    }
    let ghost jcv = jc2@;
    match joins.get(prim_table.as_str()) {
        Some(node) => {
            proof {
                let t = crate::strmap::sm_index(j1, prim_table@);
                assert(crate::strmap::sm_wf(j1[t].1.dependents));
            }
            let mut n2 = dup_join_node(node);
            n2.dependents.insert(ref_table.clone(), jc2);
            joins.insert(prim_table.clone(), n2);
        },
        None => {
            let mut deps: StrMap<JoinCondition> = StrMap::new();
            deps.insert(ref_table.clone(), jc2);
            let node = QueryJoinNode { dependencies: StrMap::new(), dependents: deps };
            joins.insert(prim_table.clone(), node);
        },
    }
    proof {
        assert(joins@ =~~= sm_insert(
            j1,
            jcv.primary_key_table,
            crate::queries::QueryJoinNodeV {
                dependencies: if sm_contains(j1, jcv.primary_key_table) {
                    sm_get(j1, jcv.primary_key_table).dependencies
                } else {
                    Seq::empty()
                },
                dependents: sm_insert(
                    if sm_contains(j1, jcv.primary_key_table) {
                        sm_get(j1, jcv.primary_key_table).dependents
                    } else {
                        Seq::empty()
                    },
                    jcv.referencing_key_table,
                    jcv,
                ),
            },
        ));
        assert(joins@ =~~= join_insert_spec(j0, jcv));
    }
    proof {
        let j2 = joins@;
        assert forall|t: int|
            0 <= t < j2.len() implies crate::strmap::sm_wf(
            (#[trigger] j2[t]).1.dependencies,
        ) && crate::strmap::sm_wf(j2[t].1.dependents) by {
            if crate::strmap::sm_contains(j1, prim_table@) {
                if t != crate::strmap::sm_index(j1, prim_table@) {
                    assert(j2[t] == j1[t]);
                }
            } else {
                if t < j1.len() {
                    assert(j2[t] == j1[t]);
                }
            }
        }
        assert forall|e: (Seq<char>, Seq<char>)| join_edges(j2).contains(e) implies join_edges(
            j0,
        ).insert(new_edge).contains(e) by {
            let (i, j): (int, int) = choose|i: int, j: int|
                0 <= i < j2.len() && 0 <= j < (#[trigger] j2[i]).1.dependencies.len() && e == (
                j2[i].0,
                (#[trigger] j2[i].1.dependencies[j]).0,
                );
            let upd = crate::strmap::sm_contains(j1, prim_table@);
            let idx: int = if upd {
                crate::strmap::sm_index(j1, prim_table@)
            } else {
                j1.len() as int
            };
            if i != idx {
                assert(j2[i] == j1[i]);
                assert(join_edges(j1).contains(e));
            } else {
                if upd {
                    assert(j2[i].1.dependencies == j1[idx].1.dependencies);
                    assert(j2[i].0 == j1[idx].0);
                    assert(join_edges(j1).contains(e));
                } else {
                    assert(j2[i].1.dependencies.len() == 0);
                }
            }
        }
    }
}


proof fn lemma_elems_view_push_generic(prev: Seq<QueryElement>, cur: Seq<QueryElement>)
    requires
        cur.len() == prev.len() + 1,
        forall|i: int| 0 <= i < prev.len() ==> cur[i] == prev[i],
    ensures
        elems_view(cur) == elems_view(prev).push(cur.last()@),
{
    assert(elems_view(cur) =~~= elems_view(prev).push(cur.last()@));
}

/// Lowers one top-level field selection into a compiled query. The
/// element sequence is balanced; its keys are the user's aliases and
/// field names in emission order; every join edge is drawn from the
/// schema's foreign-key dictionary.
#[verifier::rlimit(100)]
fn compile_selection(
    schema: &Schema,
    ns_id: String,
    entity_name: String,
    filters: Vec<ParamType>,
    selections: &Selections,
    alias: Option<String>,
) -> (q: UserQuery)
    requires
        schema.wf(),
    ensures
        q.namespace_identifier@ == ns_id@,
        q.entity_name@ == entity_name@,
        (match q.alias {
            Some(a) => alias is Some && a@ == alias->0@,
            None => alias is None,
        }),
        balanced(elems_view(q.elements@)),
        element_keys(elems_view(q.elements@)) == fwd_keys_list(
            sels_view(selections.selections@),
        ),
        join_edges(q.joins@).subset_of(fk_rel(schema.foreign_keys@, ns_id@)),
        elems_emits(elems_view(q.elements@)) == trav_fwd(
            schema.foreign_keys@,
            ns_id@,
            entity_name@,
            sels_view(selections.selections@),
        ).emits,
        q.joins@ == join_fold(
            trav_fwd(
                schema.foreign_keys@,
                ns_id@,
                entity_name@,
                sels_view(selections.selections@),
            ).jcs,
        ),
        q.query_params@ == batch_flat(
            (if filters@.len() > 0 {
                seq![
                    BatchV {
                        params: Seq::new(filters@.len(), |i: int| filters@[i]@),
                        scope: qual(ns_id@, entity_name@),
                    },
                ]
            } else {
                Seq::<BatchV>::empty()
            }) + trav_fwd(
                schema.foreign_keys@,
                ns_id@,
                entity_name@,
                sels_view(selections.selections@),
            ).batches,
        ),
        elems_view(q.elements@) == compile_elems(
            schema.foreign_keys@,
            ns_id@,
            entity_name@,
            sels_view(selections.selections@),
        ),
{
    let ghost nsv = ns_id@;
    let ghost fksv = schema.foreign_keys@;
    let ghost childrenv = sels_view(selections.selections@);
    let ghost total = trav_fwd(fksv, nsv, entity_name@, childrenv);
    let ghost etarget = compile_elems(fksv, nsv, entity_name@, childrenv);
    let ghost tb0: Seq<BatchV> = if filters@.len() > 0 {
        seq![
            BatchV {
                params: Seq::new(filters@.len(), |i: int| filters@[i]@),
                scope: qual(nsv, entity_name@),
            },
        ]
    } else {
        Seq::empty()
    };
    let ghost mut done: TravOut = trav_empty();
    let mut elements: Vec<QueryElement> = Vec::new();
    let mut entities: Vec<String> = Vec::new();
    let mut joins: StrMap<QueryJoinNode> = StrMap::new();
    let mut query_params = QueryParams::default();
    let mut nested_entity_stack: Vec<String> = Vec::new();
    let mut queue: Vec<Selection> = Vec::new();

    // The first level enters reversed, so that popping from the end
    // walks it in source order.
    let children = selections.get_selections();
    let mut i = children.len();
    proof {
        lemma_sels_view_len(children@);
        assert(sels_view(children@) == childrenv);
        assert(sels_view(queue@) =~~= sels_view(children@).subrange(
            i as int,
            children@.len() as int,
        ).reverse());
        assert(strings_view(entities@) =~~= Seq::new(
            (childrenv.len() - i) as nat,
            |t: int| entity_name@,
        ));
    }
    while i > 0
        invariant
            i <= children@.len(),
            sels_view(children@) == childrenv,
            childrenv.len() == children@.len(),
            entities@.len() == queue@.len(),
            sels_view(queue@) == childrenv.subrange(i as int, childrenv.len() as int).reverse(),
            strings_view(entities@) == Seq::new(
                (childrenv.len() - i) as nat,
                |t: int| entity_name@,
            ),
        decreases i,
    {
        i = i - 1;
        let ghost q0 = queue@;
        let ghost e0 = entities@;
        queue.push(children[i].clone());
        entities.push(entity_name.clone());
        proof {
            lemma_sels_view_push_generic(q0, queue@);
            lemma_sels_view_len(children@);
            assert(sels_view(queue@) =~~= childrenv.subrange(
                i as int,
                childrenv.len() as int,
            ).reverse());
            assert(strings_view(e0).len() == e0.len());
            assert forall|k: int|
                0 <= k < entities@.len() implies #[trigger] strings_view(entities@)[k]
                == entity_name@ by {
                if k < e0.len() {
                    assert(entities@[k] == e0[k]);
                    assert(strings_view(e0)[k] == entity_name@);
                } else {
                    assert(entities@[k]@ == entity_name@);
                }
            }
            assert(strings_view(entities@) =~~= Seq::new(
                (childrenv.len() - i) as nat,
                |t: int| entity_name@,
            ));
        }
    }
    proof {
        assert(childrenv.subrange(0, childrenv.len() as int) =~= childrenv);
        assert(sels_view(queue@) == childrenv.reverse());
        lemma_rev_of_reverse(childrenv);
        assert(stack_keys(sels_view(queue@)) == rev_keys_list(childrenv.reverse())) by {
            lemma_stack_keys_append(Seq::empty(), childrenv.reverse());
            assert(Seq::<SelectionV>::empty() + childrenv.reverse() =~~= childrenv.reverse());
        }
        assert(element_keys(elems_view(elements@)) + stack_keys(sels_view(queue@))
            =~~= fwd_keys_list(childrenv));
        lemma_trav_stack_append(
            fksv,
            nsv,
            Seq::empty(),
            Seq::empty(),
            childrenv.reverse(),
            entity_name@,
        );
        assert(Seq::<SelectionV>::empty() + childrenv.reverse() =~~= childrenv.reverse());
        assert(Seq::<Seq<char>>::empty() + Seq::new(
            childrenv.reverse().len(),
            |t: int| entity_name@,
        ) =~~= strings_view(entities@));
        lemma_trav_rev_of_reverse(fksv, nsv, entity_name@, childrenv);
        lemma_trav_cat_empty(trav_rev(fksv, nsv, entity_name@, childrenv.reverse()));
        lemma_trav_cat_empty(trav_stack(fksv, nsv, sels_view(queue@), strings_view(entities@)));
        assert(trav_cat(done, trav_stack(fksv, nsv, sels_view(queue@), strings_view(entities@)))
            == total);
    }
    if filters.len() > 0 {
        let mut scope = ns_id.clone();
        scope.append(".");
        scope.append(entity_name.as_str());
        let ghost fv = Seq::new(filters@.len(), |i: int| filters@[i]@);
        query_params.add_params(filters, scope);
        proof {
            assert(tb0.drop_last() =~~= Seq::<BatchV>::empty());
            assert(batch_flat(tb0.drop_last()) =~~= Seq::<(ParamTypeV, Seq<char>)>::empty());
            assert(batch_flat(tb0) =~~= Seq::new(
                tb0.last().params.len(),
                |i: int| (tb0.last().params[i], tb0.last().scope),
            ));
            assert(tb0 + done.batches =~~= tb0);
            assert(query_params@ =~~= batch_flat(tb0 + done.batches));
        }
    } else {
        proof {
            assert(tb0 + done.batches =~~= Seq::<BatchV>::empty());
            assert(query_params@ =~~= batch_flat(tb0 + done.batches));
        }
    }
    let mut last_seen_entities_len = entities.len();
    proof {
        assert(strings_view(nested_entity_stack@) =~~= Seq::<Seq<char>>::empty());
        assert(elems_view(elements@) =~~= Seq::<QueryElementV>::empty());
        assert(strings_view(entities@) =~~= Seq::new(childrenv.len(), |i: int| entity_name@));
        assert(elems_view(elements@) + walk_elems(
            fksv,
            nsv,
            sels_view(queue@),
            strings_view(entities@),
            strings_view(nested_entity_stack@),
            last_seen_entities_len as int,
        ) =~~= etarget);
    }
    while queue.len() > 0
        invariant
            schema.wf(),
            entities@.len() == queue@.len(),
            joins.wf(),
            forall|t: int|
                0 <= t < joins@.len() ==> crate::strmap::sm_wf(
                    (#[trigger] joins@[t]).1.dependencies,
                ) && crate::strmap::sm_wf(joins@[t].1.dependents),
            join_edges(joins@).subset_of(fk_rel(schema.foreign_keys@, nsv)),
            count_opens(elems_view(elements@)) - count_closes(elems_view(elements@))
                == nested_entity_stack@.len(),
            forall|k: int|
                0 <= k <= elems_view(elements@).len() ==> count_closes(
                    #[trigger] elems_view(elements@).subrange(0, k),
                ) <= count_opens(elems_view(elements@).subrange(0, k)),
            element_keys(elems_view(elements@)) + stack_keys(sels_view(queue@))
                == fwd_keys_list(childrenv),
            nsv == ns_id@,
            fksv == schema.foreign_keys@,
            trav_cat(done, trav_stack(fksv, nsv, sels_view(queue@), strings_view(entities@)))
                == total,
            elems_emits(elems_view(elements@)) == done.emits,
            joins@ == join_fold(done.jcs),
            query_params@ == batch_flat(tb0 + done.batches),
            elems_view(elements@) + walk_elems(
                fksv,
                nsv,
                sels_view(queue@),
                strings_view(entities@),
                strings_view(nested_entity_stack@),
                last_seen_entities_len as int,
            ) == etarget,
        decreases sels_size(sels_view(queue@)),
    {
        let ghost qb = queue@;
        let ghost qv0 = sels_view(queue@);
        let ghost es0 = strings_view(entities@);
        proof {
            lemma_sels_view_len(queue@);
        }
        let current = match queue.pop() {
            Some(c) => c,
            None => {
                proof {
                    assert(false);
                }
                return UserQuery {
                    elements,
                    joins,
                    namespace_identifier: ns_id,
                    entity_name,
                    query_params,
                    alias,
                };
            },
        };
        let cur_entity = match entities.pop() {
            Some(e) => e,
            None => {
                proof {
                    assert(false);
                }
                return UserQuery {
                    elements,
                    joins,
                    namespace_identifier: ns_id,
                    entity_name,
                    query_params,
                    alias,
                };
            },
        };
        let ghost curv = sel_view(current);
        let ghost qv1 = sels_view(queue@);
        let ghost es1 = strings_view(entities@);
        let ghost t1 = trav_one(fksv, nsv, cur_entity@, curv);
        proof {
            lemma_sels_view_len(qb);
            lemma_sels_view_len(queue@);
            assert(queue@ == qb.drop_last());
            assert(qv0.last() == curv);
            assert(qv0.drop_last() =~~= qv1);
            assert(es0.last() == cur_entity@);
            assert(es0.drop_last() =~~= es1);
            assert(stack_keys(qv0) == sel_keys(curv) + stack_keys(qv1));
            assert(sels_size(qv0) == sel_size(curv) + sels_size(qv1));
            assert(trav_stack(fksv, nsv, qv0, es0) == trav_cat(
                t1,
                trav_stack(fksv, nsv, qv1, es1),
            ));
            lemma_trav_cat_assoc(done, t1, trav_stack(fksv, nsv, qv1, es1));
        }
        let ghost ost0 = strings_view(nested_entity_stack@);
        let ghost mark0 = last_seen_entities_len as int;
        let ghost ev_start = elems_view(elements@);
        let ghost w0 = walk_elems(fksv, nsv, qv0, es0, ost0, mark0);
        let ghost closedv = ost0.len() > 0 && es1.len() < mark0 && ost0.last() != cur_entity@;
        let ghost prev0: Seq<QueryElementV> = if closedv {
            seq![QueryElementV::CloseV]
        } else {
            Seq::<QueryElementV>::empty()
        };
        let ghost ost1 = if closedv {
            ost0.drop_last()
        } else {
            ost0
        };
        let ghost mark1 = es1.len() as int;
        // Leaving a nested object: when the queue shrank past the last
        // pop and the innermost open object is not this entity, close it.
        let do_close = nested_entity_stack.len() > 0 && entities.len() < last_seen_entities_len
            && !crate::strutil::str_eq(
            nested_entity_stack[nested_entity_stack.len() - 1].as_str(),
            cur_entity.as_str(),
        );
        proof {
            if nested_entity_stack@.len() > 0 {
                assert(ost0.last() == nested_entity_stack@.last()@);
            }
            assert(do_close == closedv);
        }
        if do_close {
            let _ = nested_entity_stack.pop();
            let ghost ev_pre = elems_view(elements@);
            let ghost el0 = elements@;
            elements.push(QueryElement::ObjectClosingBoundary);
            proof {
                lemma_elems_view_push_generic(el0, elements@);
                lemma_counts_push(ev_pre, QueryElementV::CloseV);
                lemma_prefix_balance_push(ev_pre, QueryElementV::CloseV);
                assert(element_keys(elems_view(elements@)) =~~= element_keys(ev_pre)) by {
                    assert(elems_view(elements@).drop_last() =~~= ev_pre);
                }
                assert(elems_emits(elems_view(elements@)) =~~= elems_emits(ev_pre)) by {
                    assert(elems_view(elements@).drop_last() =~~= ev_pre);
                }
            }
        }
        proof {
            assert(elems_view(elements@) =~~= ev_start + prev0);
            assert(strings_view(nested_entity_stack@) =~~= ost1);
        }
        last_seen_entities_len = entities.len();
        match current {
            Selection::Field(field_name, filters2, subselections, alias2) => {
                let is_leaf = subselections.selections.len() == 0;
                if is_leaf {
                    let key = match &alias2 {
                        Some(a) => a.clone(),
                        None => field_name.clone(),
                    };
                    let mut value = ns_id.clone();
                    value.append(".");
                    value.append(cur_entity.as_str());
                    value.append(".");
                    value.append(field_name.as_str());
                    let ghost el0 = elements@;
                    let ghost ev_pre = elems_view(elements@);
                    let ghost keyv = key@;
                    let ghost valuev = value@;
                    proof {
                        lemma_sels_view_len(subselections.selections@);
                        assert(sels_view(subselections.selections@)
                            =~~= Seq::<SelectionV>::empty());
                        assert(valuev =~~= qual(nsv, cur_entity@) + "."@ + field_name@);
                        assert(t1 =~~= TravOut {
                            emits: seq![
                                EmitV::EmitField {
                                    key: key_spec(curv->FieldV_alias, field_name@),
                                    value: qual(nsv, cur_entity@) + "."@ + field_name@,
                                },
                            ],
                            jcs: Seq::empty(),
                            batches: if curv->FieldV_params.len() > 0 {
                                seq![
                                    BatchV {
                                        params: curv->FieldV_params,
                                        scope: qual(nsv, cur_entity@),
                                    },
                                ]
                            } else {
                                Seq::empty()
                            },
                        });
                        assert(keyv == key_spec(curv->FieldV_alias, field_name@));
                    }
                    elements.push(QueryElement::Field { key, value });
                    if filters2.len() > 0 {
                        let mut scope = ns_id.clone();
                        scope.append(".");
                        scope.append(cur_entity.as_str());
                        let ghost scopev = scope@;
                        let ghost f2v = Seq::new(filters2@.len(), |j: int| filters2@[j]@);
                        proof {
                            assert(f2v =~~= curv->FieldV_params);
                            assert(scopev =~~= qual(nsv, cur_entity@));
                        }
                        query_params.add_params(filters2, scope);
                        proof {
                            let b = BatchV { params: curv->FieldV_params, scope: scopev };
                            assert((tb0 + done.batches.push(b)).drop_last() =~~= tb0
                                + done.batches);
                            assert((tb0 + done.batches.push(b)).last() == b);
                            assert(query_params@ =~~= batch_flat(tb0 + done.batches.push(b)));
                        }
                    }
                    proof {
                        lemma_elems_view_push_generic(el0, elements@);
                        let e = elems_view(elements@).last();
                        lemma_counts_push(ev_pre, e);
                        lemma_prefix_balance_push(ev_pre, e);
                        assert(sel_keys(curv) =~~= seq![keyv]);
                        assert(element_keys(elems_view(elements@)) =~~= element_keys(ev_pre)
                            + seq![keyv]) by {
                            assert(elems_view(elements@).drop_last() =~~= ev_pre);
                        }
                        assert(element_keys(elems_view(elements@)) + stack_keys(qv1)
                            =~~= fwd_keys_list(childrenv));
                        assert(elems_emits(elems_view(elements@)) =~~= elems_emits(ev_pre)
                            + seq![EmitV::EmitField { key: keyv, value: valuev }]) by {
                            assert(elems_view(elements@).drop_last() =~~= ev_pre);
                        }
                        let done_pre = done;
                        done = trav_cat(done_pre, t1);
                        assert(elems_emits(elems_view(elements@)) =~~= done.emits);
                        assert(done.jcs =~~= done_pre.jcs);
                        assert(joins@ =~~= join_fold(done.jcs));
                        if curv->FieldV_params.len() > 0 {
                            assert(tb0 + done.batches =~~= tb0 + done_pre.batches.push(
                                BatchV {
                                    params: curv->FieldV_params,
                                    scope: qual(nsv, cur_entity@),
                                },
                            ));
                        } else {
                            assert(tb0 + done.batches =~~= tb0 + done_pre.batches);
                        }
                        assert(query_params@ =~~= batch_flat(tb0 + done.batches));
                        assert(trav_cat(done, trav_stack(fksv, nsv, qv1, es1)) == total)
                            by {
                            lemma_trav_cat_assoc(
                                done_pre,
                                t1,
                                trav_stack(fksv, nsv, qv1, es1),
                            );
                        }
                        assert(w0 =~~= prev0 + seq![
                            QueryElementV::FieldV { key: keyv, value: valuev },
                        ] + walk_elems(fksv, nsv, qv1, es1, ost1, mark1));
                        assert(elems_view(elements@) =~~= ev_start + prev0 + seq![
                            QueryElementV::FieldV { key: keyv, value: valuev },
                        ]);
                        assert(elems_view(elements@) + walk_elems(
                            fksv,
                            nsv,
                            qv1,
                            es1,
                            ost1,
                            mark1,
                        ) =~~= etarget);
                    }
                } else {
                    let mut new_entity = field_name.clone();
                    let lc_entity = crate::strutil::to_lower(cur_entity.as_str());
                    let mut fk_pair: Option<(String, String)> = None;
                    match schema.foreign_keys.get(lc_entity.as_str()) {
                        Some(f2fk) => {
                            proof {
                                let t = crate::strmap::sm_index(
                                    schema.foreign_keys@,
                                    lc_entity@,
                                );
                                assert(crate::strmap::sm_wf(schema.foreign_keys@[t].1));
                            }
                            let lc_field = crate::strutil::to_lower(field_name.as_str());
                            match f2fk.get(lc_field.as_str()) {
                                Some(pair) => {
                                    fk_pair = Some((pair.0.clone(), pair.1.clone()));
                                },
                                None => {},
                            }
                        },
                        None => {},
                    }
                    proof {
                        match &fk_pair {
                            Some((t, c)) => {
                                assert(fk_hit(fksv, cur_entity@, field_name@) == Some(
                                    (t@, c@),
                                ));
                            },
                            None => {
                                assert(fk_hit(fksv, cur_entity@, field_name@) is None);
                            },
                        }
                    }
                    match fk_pair {
                        Some((fk_table, fk_col)) => {
                            let mut ref_table = ns_id.clone();
                            ref_table.append(".");
                            ref_table.append(cur_entity.as_str());
                            let mut prim_table = ns_id.clone();
                            prim_table.append(".");
                            prim_table.append(fk_table.as_str());
                            let jc = JoinCondition {
                                referencing_key_table: ref_table,
                                referencing_key_col: field_name.clone(),
                                primary_key_table: prim_table,
                                primary_key_col: fk_col,
                            };
                            let ghost jcv = jc@;
                            proof {
                                let fks = schema.foreign_keys@;
                                let i1 = crate::strmap::sm_index(fks, lc_entity@);
                                let inner = crate::strmap::sm_get(fks, lc_entity@);
                                let j1 = crate::strmap::sm_index(
                                    inner,
                                    lower_seq(field_name@),
                                );
                                assert(fks[i1].0 == lower_seq(cur_entity@));
                                assert(inner[j1].1.0 == fk_table@);
                                assert(fk_rel(fks, nsv).contains(
                                    (jc.referencing_key_table@, jc.primary_key_table@),
                                ));
                                assert(jcv =~~= crate::queries::JoinConditionV {
                                    referencing_key_table: qual(nsv, cur_entity@),
                                    referencing_key_col: field_name@,
                                    primary_key_table: qual(nsv, fk_table@),
                                    primary_key_col: fk_col@,
                                });
                            }
                            insert_join(&mut joins, jc);
                            proof {
                                assert(join_edges(joins@).subset_of(
                                    fk_rel(schema.foreign_keys@, nsv),
                                ));
                                assert((done.jcs.push(jcv)).drop_last() =~~= done.jcs);
                                assert(joins@ =~~= join_fold(done.jcs.push(jcv)));
                            }
                            if !crate::strutil::str_eq(
                                fk_table.as_str(),
                                field_name.as_str(),
                            ) {
                                new_entity = fk_table.clone();
                            }
                            if filters2.len() > 0 {
                                let mut scope = ns_id.clone();
                                scope.append(".");
                                scope.append(fk_table.as_str());
                                let ghost scopev = scope@;
                                let ghost f2v = Seq::new(
                                    filters2@.len(),
                                    |j: int| filters2@[j]@,
                                );
                                proof {
                                    assert(f2v =~~= curv->FieldV_params);
                                    assert(scopev =~~= qual(nsv, fk_table@));
                                }
                                query_params.add_params(filters2, scope);
                                proof {
                                    let b = BatchV {
                                        params: curv->FieldV_params,
                                        scope: scopev,
                                    };
                                    assert((tb0 + done.batches.push(b)).drop_last()
                                        =~~= tb0 + done.batches);
                                    assert((tb0 + done.batches.push(b)).last() == b);
                                    assert(query_params@ =~~= batch_flat(
                                        tb0 + done.batches.push(b),
                                    ));
                                }
                            }
                        },
                        None => {},
                    }
                    // Nested selections go in unreversed and pop out in
                    // reverse source order.
                    let mut subsels = subselections.get_selections();
                    let n_subs = subsels.len();
                    let ghost es_mid = strings_view(entities@);
                    proof {
                        lemma_sels_view_len(subsels@);
                        assert(es_mid =~~= es1);
                        assert(es_mid + Seq::new(0nat, |j: int| new_entity@) =~~= es_mid);
                    }
                    let mut t: usize = 0;
                    while t < n_subs
                        invariant
                            t <= n_subs,
                            entities@.len() == queue@.len() + t,
                            es_mid.len() == queue@.len(),
                            strings_view(entities@) == es_mid + Seq::new(
                                t as nat,
                                |j: int| new_entity@,
                            ),
                        decreases n_subs - t,
                    {
                        let ghost e0 = entities@;
                        entities.push(new_entity.clone());
                        proof {
                            assert(strings_view(e0).len() == e0.len());
                            assert forall|k: int|
                                0 <= k < entities@.len() implies #[trigger] strings_view(
                                entities@,
                            )[k] == (es_mid + Seq::new((t + 1) as nat, |j: int| new_entity@))[k]
                                by {
                                if k < e0.len() {
                                    assert(entities@[k] == e0[k]);
                                    assert(strings_view(e0)[k] == (es_mid + Seq::new(
                                        t as nat,
                                        |j: int| new_entity@,
                                    ))[k]);
                                } else {
                                    assert(k == e0.len());
                                    assert(entities@[k]@ == new_entity@);
                                }
                            }
                            assert(strings_view(entities@) =~~= es_mid + Seq::new(
                                (t + 1) as nat,
                                |j: int| new_entity@,
                            ));
                        }
                        t = t + 1;
                    }
                    nested_entity_stack.push(new_entity);
                    let key = match &alias2 {
                        Some(a) => a.clone(),
                        None => field_name.clone(),
                    };
                    let ghost el0 = elements@;
                    let ghost ev_pre = elems_view(elements@);
                    let ghost keyv = key@;
                    elements.push(QueryElement::ObjectOpeningBoundary { key });
                    let ghost q_pre = queue@;
                    let ghost subs_vec_pre = subsels@;
                    let ghost subsv = sels_view(subsels@);
                    queue.append(&mut subsels);
                    proof {
                        lemma_elems_view_push_generic(el0, elements@);
                        let e = elems_view(elements@).last();
                        lemma_counts_push(ev_pre, e);
                        lemma_prefix_balance_push(ev_pre, e);
                        assert(queue@ == q_pre + subs_vec_pre);
                        lemma_sels_view_append(q_pre, subs_vec_pre);
                        assert(sels_view(queue@) =~~= qv1 + subsv);
                        lemma_stack_keys_append(qv1, subsv);
                        lemma_sels_size_append(qv1, subsv);
                        assert(subsv == curv->FieldV_subs.selections);
                        assert(sel_keys(curv) == seq![keyv] + rev_keys_list(subsv));
                        assert(element_keys(elems_view(elements@)) =~~= element_keys(ev_pre)
                            + seq![keyv]) by {
                            assert(elems_view(elements@).drop_last() =~~= ev_pre);
                        }
                        assert(element_keys(elems_view(elements@)) + stack_keys(
                            sels_view(queue@),
                        ) =~~= fwd_keys_list(childrenv));
                        assert(sels_size(sels_view(queue@)) < sels_size(qv0));
                        // The traversal bookkeeping: the head's output
                        // lands in `done`, the children stay owed.
                        let head = TravOut {
                            emits: seq![
                                EmitV::EmitOpen {
                                    key: key_spec(curv->FieldV_alias, field_name@),
                                },
                            ],
                            jcs: match fk_hit(fksv, cur_entity@, field_name@) {
                                Some((ft, fc)) => seq![
                                    crate::queries::JoinConditionV {
                                        referencing_key_table: qual(nsv, cur_entity@),
                                        referencing_key_col: field_name@,
                                        primary_key_table: qual(nsv, ft),
                                        primary_key_col: fc,
                                    },
                                ],
                                None => Seq::empty(),
                            },
                            batches: match fk_hit(fksv, cur_entity@, field_name@) {
                                Some((ft, _)) => if curv->FieldV_params.len() > 0 {
                                    seq![
                                        BatchV {
                                            params: curv->FieldV_params,
                                            scope: qual(nsv, ft),
                                        },
                                    ]
                                } else {
                                    Seq::empty()
                                },
                                None => Seq::empty(),
                            },
                        };
                        assert(t1 =~~= trav_cat(head, trav_rev(fksv, nsv, new_entity@, subsv)));
                        assert(keyv == key_spec(curv->FieldV_alias, field_name@));
                        assert(es_mid =~~= es1);
                        assert(strings_view(entities@) =~~= es1 + Seq::new(
                            subsv.len(),
                            |j: int| new_entity@,
                        ));
                        lemma_trav_stack_append(fksv, nsv, qv1, es1, subsv, new_entity@);
                        let stack1 = trav_stack(fksv, nsv, qv1, es1);
                        assert(trav_stack(fksv, nsv, sels_view(queue@), strings_view(entities@))
                            == trav_cat(trav_rev(fksv, nsv, new_entity@, subsv), stack1));
                        let done2 = trav_cat(done, head);
                        lemma_trav_cat_assoc(done, head, trav_rev(fksv, nsv, new_entity@, subsv));
                        lemma_trav_cat_assoc(
                            done,
                            trav_cat(head, trav_rev(fksv, nsv, new_entity@, subsv)),
                            stack1,
                        );
                        lemma_trav_cat_assoc(
                            done2,
                            trav_rev(fksv, nsv, new_entity@, subsv),
                            stack1,
                        );
                        assert(elems_emits(elems_view(elements@)) =~~= elems_emits(ev_pre)
                            + seq![EmitV::EmitOpen { key: keyv }]) by {
                            assert(elems_view(elements@).drop_last() =~~= ev_pre);
                        }
                        let done_pre = done;
                        done = done2;
                        assert(done.emits =~~= done_pre.emits + head.emits);
                        assert(elems_emits(elems_view(elements@)) =~~= done.emits);
                        match fk_hit(fksv, cur_entity@, field_name@) {
                            Some((ft, fc)) => {
                                assert(done.jcs =~~= done_pre.jcs.push(head.jcs[0]));
                                assert(joins@ =~~= join_fold(done.jcs));
                                if curv->FieldV_params.len() > 0 {
                                    assert(tb0 + done.batches =~~= tb0
                                        + done_pre.batches.push(head.batches[0]));
                                } else {
                                    assert(tb0 + done.batches =~~= tb0 + done_pre.batches);
                                }
                            },
                            None => {
                                assert(done.jcs =~~= done_pre.jcs);
                                assert(joins@ =~~= join_fold(done.jcs));
                                assert(tb0 + done.batches =~~= tb0 + done_pre.batches);
                            },
                        }
                        assert(query_params@ =~~= batch_flat(tb0 + done.batches));
                        assert(trav_cat(done, trav_stack(
                            fksv,
                            nsv,
                            sels_view(queue@),
                            strings_view(entities@),
                        )) == total);
                        assert(new_entity@ == (match fk_hit(fksv, cur_entity@, field_name@) {
                            Some((t, _)) => if t != field_name@ {
                                t
                            } else {
                                field_name@
                            },
                            None => field_name@,
                        }));
                        assert(strings_view(nested_entity_stack@) =~~= ost1.push(new_entity@));
                        assert(w0 =~~= prev0 + seq![QueryElementV::OpenV { key: keyv }]
                            + walk_elems(
                            fksv,
                            nsv,
                            qv1 + subsv,
                            es1 + Seq::new(subsv.len(), |j: int| new_entity@),
                            ost1.push(new_entity@),
                            mark1,
                        ));
                        assert(elems_view(elements@) =~~= ev_start + prev0 + seq![
                            QueryElementV::OpenV { key: keyv },
                        ]);
                        assert(elems_view(elements@) + walk_elems(
                            fksv,
                            nsv,
                            sels_view(queue@),
                            strings_view(entities@),
                            strings_view(nested_entity_stack@),
                            mark1,
                        ) =~~= etarget);
                    }
                }
            },
            Selection::Fragment(_) => {
                proof {
                    assert(sel_keys(curv) =~~= Seq::<Seq<char>>::empty());
                    assert(element_keys(elems_view(elements@)) + stack_keys(qv1)
                        =~~= fwd_keys_list(childrenv));
                    assert(t1 =~~= trav_empty());
                    assert(trav_cat(done, t1) =~~= done);
                    assert(trav_cat(done, trav_stack(fksv, nsv, qv1, es1)) =~~= trav_cat(
                        trav_cat(done, t1),
                        trav_stack(fksv, nsv, qv1, es1),
                    ));
                    assert(trav_cat(done, trav_stack(fksv, nsv, qv1, es1)) == total);
                    assert(w0 =~~= prev0 + walk_elems(fksv, nsv, qv1, es1, ost1, mark1));
                    assert(elems_view(elements@) + walk_elems(fksv, nsv, qv1, es1, ost1, mark1)
                        =~~= etarget);
                }
            },
        }
    }
    proof {
        lemma_sels_view_len(queue@);
        assert(sels_view(queue@) =~~= Seq::<SelectionV>::empty());
        assert(element_keys(elems_view(elements@)) + Seq::<Seq<char>>::empty()
            =~~= element_keys(elems_view(elements@)));
        assert(trav_stack(fksv, nsv, sels_view(queue@), strings_view(entities@))
            =~~= trav_empty());
        lemma_trav_cat_empty(done);
        assert(done == total);
        assert(walk_elems(
            fksv,
            nsv,
            sels_view(queue@),
            strings_view(entities@),
            strings_view(nested_entity_stack@),
            last_seen_entities_len as int,
        ) =~~= Seq::new(nested_entity_stack@.len(), |i: int| QueryElementV::CloseV));
        assert(elems_view(elements@) + Seq::new(
            nested_entity_stack@.len(),
            |i: int| QueryElementV::CloseV,
        ) =~~= etarget);
    }
    // Balance what the drained queue left open.
    while nested_entity_stack.len() > 0
        invariant
            count_opens(elems_view(elements@)) - count_closes(elems_view(elements@))
                == nested_entity_stack@.len(),
            forall|k: int|
                0 <= k <= elems_view(elements@).len() ==> count_closes(
                    #[trigger] elems_view(elements@).subrange(0, k),
                ) <= count_opens(elems_view(elements@).subrange(0, k)),
            element_keys(elems_view(elements@)) == fwd_keys_list(childrenv),
            elems_emits(elems_view(elements@)) == total.emits,
            elems_view(elements@) + Seq::new(
                nested_entity_stack@.len(),
                |i: int| QueryElementV::CloseV,
            ) == etarget,
        decreases nested_entity_stack@.len(),
    {
        let ghost n0 = nested_entity_stack@.len();
        let _ = nested_entity_stack.pop();
        let ghost el0 = elements@;
        let ghost ev_pre = elems_view(elements@);
        elements.push(QueryElement::ObjectClosingBoundary);
        proof {
            lemma_elems_view_push_generic(el0, elements@);
            lemma_counts_push(ev_pre, QueryElementV::CloseV);
            lemma_prefix_balance_push(ev_pre, QueryElementV::CloseV);
            assert(element_keys(elems_view(elements@)) =~~= element_keys(ev_pre)) by {
                assert(elems_view(elements@).drop_last() =~~= ev_pre);
            }
            assert(elems_emits(elems_view(elements@)) =~~= elems_emits(ev_pre)) by {
                assert(elems_view(elements@).drop_last() =~~= ev_pre);
            }
            assert(Seq::new(n0, |i: int| QueryElementV::CloseV) =~~= seq![
                QueryElementV::CloseV,
            ] + Seq::new(nested_entity_stack@.len(), |i: int| QueryElementV::CloseV));
            assert(elems_view(elements@) + Seq::new(
                nested_entity_stack@.len(),
                |i: int| QueryElementV::CloseV,
            ) =~~= etarget);
        }
    }
    proof {
        assert(Seq::new(nested_entity_stack@.len(), |i: int| QueryElementV::CloseV)
            =~~= Seq::<QueryElementV>::empty());
        assert(elems_view(elements@) =~~= etarget);
    }
    UserQuery {
        elements,
        joins,
        namespace_identifier: ns_id,
        entity_name,
        query_params,
        alias,
    }
}

/// What one compiled query satisfies, given the schema's foreign-key
/// dictionary, the namespaced identity and its originating top-level
/// field: identity and alias respected, boundaries balanced, keys in
/// emission order, and the projection, join graph and parameters equal
/// to the traversal's reading of the selection.
pub open spec fn compiled_matches(
    q: UserQuery,
    fks: crate::tables::FkDict,
    ns: Seq<char>,
    t: SelectionV,
) -> bool {
    let tb = trav_fwd(fks, ns, t->FieldV_name, t->FieldV_subs.selections);
    &&& t is FieldV
    &&& q.namespace_identifier@ == ns
    &&& q.entity_name@ == t->FieldV_name
    &&& (match q.alias {
        Some(a) => t->FieldV_alias == Some(a@),
        None => t->FieldV_alias is None,
    })
    &&& balanced(elems_view(q.elements@))
    &&& element_keys(elems_view(q.elements@)) == fwd_keys_list(t->FieldV_subs.selections)
    &&& join_edges(q.joins@).subset_of(fk_rel(fks, ns))
    &&& elems_emits(elems_view(q.elements@)) == tb.emits
    &&& elems_view(q.elements@) == compile_elems(fks, ns, t->FieldV_name, t->FieldV_subs.selections)
    &&& q.joins@ == join_fold(tb.jcs)
    &&& q.query_params@ == batch_flat(
        (if t->FieldV_params.len() > 0 {
            seq![BatchV { params: t->FieldV_params, scope: qual(ns, t->FieldV_name) }]
        } else {
            Seq::<BatchV>::empty()
        }) + tb.batches,
    )
}

/// The top-level field selections, in order; spreads at the top level
/// compile to nothing.
pub open spec fn top_fields(ss: Seq<SelectionV>) -> Seq<SelectionV>
    decreases ss,
{
    if ss.len() == 0 {
        Seq::empty()
    } else {
        (if ss[0] is FieldV {
            seq![ss[0]]
        } else {
            Seq::empty()
        }) + top_fields(ss.drop_first())
    }
}

proof fn lemma_top_fields_push(ss: Seq<SelectionV>, x: SelectionV)
    ensures
        top_fields(ss.push(x)) == top_fields(ss) + (if x is FieldV {
            seq![x]
        } else {
            Seq::<SelectionV>::empty()
        }),
    decreases ss,
{
    assert(ss.push(x)[0] == if ss.len() == 0 { x } else { ss[0] });
    if ss.len() == 0 {
        assert(ss.push(x).drop_first() =~~= Seq::<SelectionV>::empty());
        assert(ss.push(x).len() == 1);
        assert(top_fields(ss.push(x).drop_first()) == Seq::<SelectionV>::empty());
        assert(top_fields(ss.push(x)) =~~= top_fields(ss) + (if x is FieldV {
            seq![x]
        } else {
            Seq::<SelectionV>::empty()
        }));
    } else {
        assert(ss.push(x).drop_first() =~~= ss.drop_first().push(x));
        lemma_top_fields_push(ss.drop_first(), x);
        assert(top_fields(ss.push(x)) =~~= top_fields(ss) + (if x is FieldV {
            seq![x]
        } else {
            Seq::<SelectionV>::empty()
        }));
    }
}

impl Operation {
    /// Lowers each top-level field selection into one compiled query,
    /// in order. Every query's element sequence is balanced, its keys
    /// follow the emission order of the user's aliases and field names,
    /// and its join graph draws every edge from the schema's
    /// foreign-key dictionary.
    pub fn parse(&self, schema: &Schema) -> (r: Vec<UserQuery>)
        requires
            schema.wf(),
        ensures
            ({
                let tops = top_fields(sels_view(self.selections.selections@));
                let nsv = crate::tables::ns_id_of(self.namespace@, self.identifier@);
                &&& r@.len() == tops.len()
                &&& forall|k: int|
                    0 <= k < tops.len() ==> compiled_matches(
                        #[trigger] r@[k],
                        schema.foreign_keys@,
                        nsv,
                        tops[k],
                    )
            }),
    {
        let ghost nsv = crate::tables::ns_id_of(self.namespace@, self.identifier@);
        let ghost whole = sels_view(self.selections.selections@);
        let tops = self.selections.get_selections();
        let mut queries: Vec<UserQuery> = Vec::new();
        let mut i: usize = 0;
        proof {
            lemma_sels_view_len(tops@);
            assert(sels_view(tops@).subrange(0, 0) =~~= Seq::<SelectionV>::empty());
            assert(top_fields(Seq::<SelectionV>::empty()) == Seq::<SelectionV>::empty());
        }
        while i < tops.len()
            invariant
                i <= tops@.len(),
                schema.wf(),
                nsv == crate::tables::ns_id_of(self.namespace@, self.identifier@),
                whole == sels_view(self.selections.selections@),
                whole == sels_view(tops@),
                ({
                    let done = top_fields(sels_view(tops@).subrange(0, i as int));
                    &&& queries@.len() == done.len()
                    &&& forall|k: int|
                        0 <= k < done.len() ==> compiled_matches(
                            #[trigger] queries@[k],
                            schema.foreign_keys@,
                            nsv,
                            done[k],
                        )
                }),
            decreases tops@.len() - i,
        {
            let ghost pre = sels_view(tops@).subrange(0, i as int);
            let sel = tops[i].clone();
            let ghost selv = sel_view(sel);
            proof {
                lemma_sels_view_len(tops@);
                assert(selv == sels_view(tops@)[i as int]);
                assert(sels_view(tops@).subrange(0, i + 1) =~~= pre.push(selv));
                lemma_top_fields_push(pre, selv);
            }
            match sel {
                Selection::Field(entity_name, filters, selections, alias) => {
                    let mut ns_id = self.namespace.clone();
                    ns_id.append("_");
                    ns_id.append(self.identifier.as_str());
                    let query = compile_selection(
                        schema,
                        ns_id,
                        entity_name,
                        filters,
                        &selections,
                        alias,
                    );
                    queries.push(query);
                    proof {
                        let done = top_fields(sels_view(tops@).subrange(0, i + 1));
                        assert(done =~~= top_fields(pre).push(selv));
                        assert(queries@.len() == done.len());
                    }
                },
                Selection::Fragment(_) => {
                    proof {
                        assert(top_fields(sels_view(tops@).subrange(0, i + 1))
                            =~~= top_fields(pre));
                    }
                },
            }
            i = i + 1;
        }
        proof {
            assert(sels_view(tops@).subrange(0, tops@.len() as int) =~~= sels_view(tops@));
        }
        queries
    }
}


proof fn lemma_tree_consistent_push(
    fields: FieldsV,
    cond: Seq<char>,
    ss: Seq<SelectionV>,
    x: SelectionV,
)
    requires
        tree_consistent(fields, cond, ss),
        x is FieldV ==> field_type_spec(fields, cond, x->FieldV_name) is Some
            && tree_consistent(
            fields,
            field_type_spec(fields, cond, x->FieldV_name)->Some_0,
            x->FieldV_subs.selections,
        ),
    ensures
        tree_consistent(fields, cond, ss.push(x)),
    decreases ss,
{
    assert(ss.push(x)[0] == if ss.len() == 0 { x } else { ss[0] });
    if ss.len() == 0 {
        assert(ss.push(x).drop_first() =~~= Seq::<SelectionV>::empty());
        assert(tree_consistent(fields, cond, ss.push(x).drop_first()));
        assert(tree_consistent(fields, cond, ss.push(x)));
    } else {
        assert(ss.push(x).drop_first() =~~= ss.drop_first().push(x));
        lemma_tree_consistent_push(fields, cond, ss.drop_first(), x);
        assert(tree_consistent(fields, cond, ss.push(x)));
    }
}

/// Consistent trees stay consistent side by side.
proof fn lemma_tree_consistent_append(
    fields: FieldsV,
    cond: Seq<char>,
    a: Seq<SelectionV>,
    b: Seq<SelectionV>,
)
    requires
        tree_consistent(fields, cond, a),
        tree_consistent(fields, cond, b),
    ensures
        tree_consistent(fields, cond, a + b),
    decreases a,
{
    if a.len() == 0 {
        assert(a + b =~~= b);
    } else {
        assert((a + b)[0] == a[0]);
        assert((a + b).drop_first() =~~= a.drop_first() + b);
        lemma_tree_consistent_append(fields, cond, a.drop_first(), b);
    }
}

/// Every fragment body in the table is consistent under its own type
/// condition.
pub open spec fn frags_consistent(fields: FieldsV, frags: FragsV) -> bool {
    forall|i: int|
        0 <= i < frags.len() ==> tree_consistent(
            fields,
            (#[trigger] frags[i]).1.cond,
            frags[i].1.selections.selections,
        )
}

/// Every fragment body in the table is done: no spread stands at its
/// top level.
pub open spec fn frags_resolved_flags(frags: FragsV) -> bool {
    forall|i: int|
        0 <= i < frags.len() ==> (#[trigger] frags[i]).1.selections.has_fragments == false
}

/// Some fragment definition's body holds a spread: the only raw shape
/// from which fragment resolution can stall.
pub open spec fn some_frag_has_spread(defs: Seq<crate::query_text::RawDefinition>) -> bool {
    exists|i: int|
        0 <= i < defs.len() && (#[trigger] defs[i]) is RawFragment && (exists|t: int|
            0 <= t < defs[i]->RawFragment_set@.len() && (
            #[trigger] defs[i]->RawFragment_set@[t]) is RawSpread)
}

/// A spread of the given name stands at the top level of the list.
pub open spec fn has_top_spread(ss: Seq<SelectionV>, m: Seq<char>) -> bool {
    exists|k: int| 0 <= k < ss.len() && ss[k] == (SelectionV::FragmentV { name: m })
}

/// A closed set of mutually entangled fragment names: every fragment
/// definition named in the set spreads another of its members. Any
/// cyclic spread chain among fragments yields such a set, and no
/// member of one can ever resolve.
pub open spec fn entangled(
    defs: Seq<crate::query_text::RawDefinition>,
    c: Set<Seq<char>>,
) -> bool {
    forall|j: int|
        0 <= j < defs.len() && (#[trigger] defs[j]) is RawFragment && c.contains(
            defs[j]->RawFragment_name@,
        ) ==> exists|t: int|
            0 <= t < defs[j]->RawFragment_set@.len() && (
            #[trigger] defs[j]->RawFragment_set@[t]) is RawSpread && c.contains(
                defs[j]->RawFragment_set@[t]->RawSpread_0@,
            )
}

/// A pending fragment is accounted to a definition of its name: any of
/// that definition's spreads not yet in the table still stands at the
/// top level of the pending body.
pub open spec fn item_tracks(
    defs: Seq<crate::query_text::RawDefinition>,
    table: FragsV,
    item: (String, Fragment),
) -> bool {
    exists|j: int|
        {
            &&& 0 <= j < defs.len()
            &&& (#[trigger] defs[j]) is RawFragment
            &&& defs[j]->RawFragment_name@ == item.0@
            &&& forall|t: int|
                0 <= t < defs[j]->RawFragment_set@.len() && (
                #[trigger] defs[j]->RawFragment_set@[t]) is RawSpread && !sm_contains(
                    table,
                    defs[j]->RawFragment_set@[t]->RawSpread_0@,
                ) ==> has_top_spread(
                    sels_view(item.1.selections.selections@),
                    defs[j]->RawFragment_set@[t]->RawSpread_0@,
                )
        }
}

/// A substitution pass keeps every spread it cannot resolve: the
/// spread stays in the output and the output's spread flag is set.
proof fn lemma_subst_keeps_spread(
    fields: FieldsV,
    frags: FragsV,
    cond: Seq<char>,
    ss: Seq<SelectionV>,
    k: int,
)
    requires
        0 <= k < ss.len(),
        ss[k] is FragmentV,
        !sm_contains(frags, ss[k]->FragmentV_name),
        subst_sels(fields, frags, cond, ss) is Some,
    ensures
        subst_sels(fields, frags, cond, ss)->Some_0.2 == true,
        has_top_spread(
            subst_sels(fields, frags, cond, ss)->Some_0.0,
            ss[k]->FragmentV_name,
        ),
    decreases ss,
{
    let m = ss[k]->FragmentV_name;
    let out = subst_sels(fields, frags, cond, ss)->Some_0;
    let rest = subst_sels(fields, frags, cond, ss.drop_first())->Some_0;
    if k == 0 {
        assert(out.0[0] == (SelectionV::FragmentV { name: m }));
    } else {
        assert(ss.drop_first()[k - 1] == ss[k]);
        lemma_subst_keeps_spread(fields, frags, cond, ss.drop_first(), k - 1);
        let k2 = choose|k2: int|
            0 <= k2 < rest.0.len() && rest.0[k2] == (SelectionV::FragmentV { name: m });
        match ss[0] {
            SelectionV::FragmentV { name } => {
                if sm_contains(frags, name) {
                    let fr = sm_get(frags, name);
                    assert(out.0[fr.selections.selections.len() + k2] == rest.0[k2]);
                } else {
                    assert(out.0[1 + k2] == rest.0[k2]);
                }
            },
            SelectionV::FieldV { .. } => {
                assert(out.0[1 + k2] == rest.0[k2]);
            },
        }
    }
}

/// A pending fragment stays accounted to its definition when the table
/// grows: a spread absent from the bigger table was absent before.
proof fn lemma_item_tracks_insert(
    defs: Seq<crate::query_text::RawDefinition>,
    table: FragsV,
    k: Seq<char>,
    v: FragmentV,
    item: (String, Fragment),
)
    requires
        crate::strmap::sm_wf(table),
        item_tracks(defs, table, item),
    ensures
        item_tracks(defs, crate::strmap::sm_insert(table, k, v), item),
{
    let t2 = crate::strmap::sm_insert(table, k, v);
    let j = choose|j: int|
        0 <= j < defs.len() && (#[trigger] defs[j]) is RawFragment
            && defs[j]->RawFragment_name@ == item.0@ && (forall|t: int|
            0 <= t < defs[j]->RawFragment_set@.len() && (
            #[trigger] defs[j]->RawFragment_set@[t]) is RawSpread && !sm_contains(
                table,
                defs[j]->RawFragment_set@[t]->RawSpread_0@,
            ) ==> has_top_spread(
                sels_view(item.1.selections.selections@),
                defs[j]->RawFragment_set@[t]->RawSpread_0@,
            ));
    assert forall|t: int|
        0 <= t < defs[j]->RawFragment_set@.len() && (
        #[trigger] defs[j]->RawFragment_set@[t]) is RawSpread && !sm_contains(
            t2,
            defs[j]->RawFragment_set@[t]->RawSpread_0@,
        ) implies has_top_spread(
        sels_view(item.1.selections.selections@),
        defs[j]->RawFragment_set@[t]->RawSpread_0@,
    ) by {
        let m = defs[j]->RawFragment_set@[t]->RawSpread_0@;
        if sm_contains(table, m) {
            crate::strmap::lemma_sm_insert_monotone(table, k, v, m);
        }
    }
}

/// A resolution pass keeps the tree consistent: replaced bodies are
/// consistent under the spread's matching context.
proof fn lemma_subst_consistent(
    fields: FieldsV,
    frags: FragsV,
    cond: Seq<char>,
    ss: Seq<SelectionV>,
)
    requires
        tree_consistent(fields, cond, ss),
        frags_consistent(fields, frags),
        crate::strmap::sm_wf(frags),
        subst_sels(fields, frags, cond, ss) is Some,
    ensures
        tree_consistent(fields, cond, subst_sels(fields, frags, cond, ss)->Some_0.0),
    decreases ss,
{
    if ss.len() == 0 {
    } else {
        let rest = subst_sels(fields, frags, cond, ss.drop_first())->Some_0;
        lemma_subst_consistent(fields, frags, cond, ss.drop_first());
        match ss[0] {
            SelectionV::FragmentV { name } => {
                if sm_contains(frags, name) {
                    let fr = sm_get(frags, name);
                    let w = crate::strmap::sm_index(frags, name);
                    assert(frags[w].1 == fr);
                    assert(tree_consistent(fields, fr.cond, fr.selections.selections));
                    lemma_tree_consistent_append(
                        fields,
                        cond,
                        fr.selections.selections,
                        rest.0,
                    );
                } else {
                    assert(seq![ss[0]].drop_first() =~~= Seq::<SelectionV>::empty());
                    assert(seq![ss[0]][0] == ss[0]);
                    assert(tree_consistent(fields, cond, seq![ss[0]].drop_first()));
                    assert(tree_consistent(fields, cond, seq![ss[0]]));
                    lemma_tree_consistent_append(fields, cond, seq![ss[0]], rest.0);
                }
            },
            SelectionV::FieldV { name, params, subs, alias } => {
                let ft = field_type_spec(fields, cond, name);
                lemma_subst_consistent(fields, frags, ft->Some_0, subs.selections);
                let sub2 = subst_sels(fields, frags, ft->Some_0, subs.selections)->Some_0;
                let node = SelectionV::FieldV {
                    name,
                    params,
                    subs: SelectionsV {
                        field_type: subs.field_type,
                        has_fragments: sub2.2,
                        selections: sub2.0,
                    },
                    alias,
                };
                assert(seq![node].drop_first() =~~= Seq::<SelectionV>::empty());
                assert(seq![node][0] == node);
                assert(tree_consistent(fields, cond, seq![node].drop_first()));
                assert(tree_consistent(fields, cond, seq![node]));
                lemma_tree_consistent_append(fields, cond, seq![node], rest.0);
            },
        }
    }
}

impl Clone for GqlValue {
    fn clone(&self) -> (r: Self)
        decreases self,
    {
        match self {
            GqlValue::IntVal(n) => GqlValue::IntVal(*n),
            GqlValue::StrVal(t) => GqlValue::StrVal(t.clone()),
            GqlValue::BoolVal(b) => GqlValue::BoolVal(*b),
            GqlValue::EnumVal(t) => GqlValue::EnumVal(t.clone()),
            GqlValue::ObjVal(entries) => {
                let mut out: Vec<(String, GqlValue)> = Vec::new();
                let mut i: usize = 0;
                while i < entries.len()
                    invariant
                        i <= entries@.len(),
                        *self is ObjVal,
                        *entries == self->ObjVal_0,
                    decreases entries@.len() - i,
                {
                    proof {
                        assert(decreases_to!(*self => *entries));
                        assert(decreases_to!(*entries => entries@));
                        assert(decreases_to!(entries@ => entries@[i as int]));
                        assert(decreases_to!(entries@[i as int] => entries@[i as int].1));
                    }
                    out.push((entries[i].0.clone(), entries[i].1.clone()));
                    i = i + 1;
                }
                GqlValue::ObjVal(out)
            },
        }
    }
}

/// A raw tree lowers cleanly: every field resolves under its context
/// type, every argument lowers, and every block lowers in the field's
/// resolved type. Spreads always lower.
pub open spec fn sel_ok(fields: FieldsV, cond: Seq<char>, set: Seq<RawSelection>) -> bool
    decreases set,
{
    if set.len() == 0 {
        true
    } else {
        (match set[0] {
            RawSelection::RawSpread(_) => true,
            RawSelection::RawFieldSel(f) => {
                &&& field_type_spec(fields, cond, f.name@) is Some
                &&& (forall|k: int|
                    0 <= k < f.args@.len() ==> crate::arguments::param_of(
                        (#[trigger] f.args@[k]).0@,
                        f.args@[k].1,
                    ) is Some)
                &&& sel_ok(fields, field_type_spec(fields, cond, f.name@)->Some_0, f.set@)
            },
        }) && sel_ok(fields, cond, set.drop_first())
    }
}

pub proof fn lemma_sel_ok_index(fields: FieldsV, cond: Seq<char>, set: Seq<RawSelection>)
    requires
        sel_ok(fields, cond, set),
    ensures
        forall|i: int|
            0 <= i < set.len() ==> match #[trigger] set[i] {
                RawSelection::RawSpread(_) => true,
                RawSelection::RawFieldSel(f) => {
                    &&& field_type_spec(fields, cond, f.name@) is Some
                    &&& (forall|k: int|
                        0 <= k < f.args@.len() ==> crate::arguments::param_of(
                            (#[trigger] f.args@[k]).0@,
                            f.args@[k].1,
                        ) is Some)
                    &&& sel_ok(
                        fields,
                        field_type_spec(fields, cond, f.name@)->Some_0,
                        f.set@,
                    )
                },
            },
    decreases set,
{
    if set.len() > 0 {
        lemma_sel_ok_index(fields, cond, set.drop_first());
        assert forall|i: int|
            0 <= i < set.len() implies match #[trigger] set[i] {
            RawSelection::RawSpread(_) => true,
            RawSelection::RawFieldSel(f) => {
                &&& field_type_spec(fields, cond, f.name@) is Some
                &&& (forall|k: int|
                    0 <= k < f.args@.len() ==> crate::arguments::param_of(
                        (#[trigger] f.args@[k]).0@,
                        f.args@[k].1,
                    ) is Some)
                &&& sel_ok(fields, field_type_spec(fields, cond, f.name@)->Some_0, f.set@)
            },
        } by {
            if i > 0 {
                assert(set.drop_first()[i - 1] == set[i]);
            }
        }
    }
}

/// One raw node lowered: a field keeps its name and alias, its
/// arguments lower value for value, its block lowers in its resolved
/// type and reports its own spreads; a spread keeps its name.
pub open spec fn lowers_one(fields: FieldsV, cond: Seq<char>, r: RawSelection, o: SelectionV) -> bool
    decreases r,
{
    match r {
        RawSelection::RawSpread(name) => o == SelectionV::FragmentV { name: name@ },
        RawSelection::RawFieldSel(f) => {
            &&& o is FieldV
            &&& o->FieldV_name == f.name@
            &&& o->FieldV_params == Seq::new(
                f.args@.len(),
                |k: int| crate::arguments::param_of(f.args@[k].0@, f.args@[k].1)->Some_0,
            )
            &&& (match f.alias {
                Some(a) => o->FieldV_alias == Some(a@),
                None => o->FieldV_alias is None,
            })
            &&& o->FieldV_subs.field_type == field_type_spec(fields, cond, f.name@)->Some_0
            &&& o->FieldV_subs.has_fragments == (exists|k: int|
                0 <= k < f.set@.len() && (#[trigger] f.set@[k]) is RawSpread)
            &&& lowers_to(
                fields,
                field_type_spec(fields, cond, f.name@)->Some_0,
                f.set@,
                o->FieldV_subs.selections,
            )
        },
    }
}

/// The built tree mirrors the raw one node for node.
pub open spec fn lowers_to(
    fields: FieldsV,
    cond: Seq<char>,
    raw: Seq<RawSelection>,
    out: Seq<SelectionV>,
) -> bool
    decreases raw,
{
    &&& out.len() == raw.len()
    &&& forall|i: int| 0 <= i < raw.len() ==> lowers_one(fields, cond, #[trigger] raw[i], out[i])
}

proof fn lemma_sel_ok_push(fields: FieldsV, cond: Seq<char>, ss: Seq<RawSelection>, x: RawSelection)
    requires
        sel_ok(fields, cond, ss),
        match x {
            RawSelection::RawSpread(_) => true,
            RawSelection::RawFieldSel(f) => {
                &&& field_type_spec(fields, cond, f.name@) is Some
                &&& (forall|k: int|
                    0 <= k < f.args@.len() ==> crate::arguments::param_of(
                        (#[trigger] f.args@[k]).0@,
                        f.args@[k].1,
                    ) is Some)
                &&& sel_ok(fields, field_type_spec(fields, cond, f.name@)->Some_0, f.set@)
            },
        },
    ensures
        sel_ok(fields, cond, ss.push(x)),
    decreases ss,
{
    assert(ss.push(x)[0] == if ss.len() == 0 { x } else { ss[0] });
    if ss.len() == 0 {
        assert(ss.push(x).drop_first() =~~= Seq::<RawSelection>::empty());
        assert(sel_ok(fields, cond, ss.push(x).drop_first()));
    } else {
        assert(ss.push(x).drop_first() =~~= ss.drop_first().push(x));
        lemma_sel_ok_push(fields, cond, ss.drop_first(), x);
    }
}

impl Selections {
    /// Builds a selection set from raw syntax against the schema; it
    /// succeeds exactly when every field is declared by its context
    /// type, recursively, and every argument lowers. The built tree
    /// mirrors the raw one node for node, is consistent with the schema
    /// under the context type, and records whether any spread stands at
    /// its top level.
    pub fn new(schema: &Schema, field_type: &str, set: &Vec<RawSelection>) -> (r: Result<
        Selections,
        GraphqlError,
    >)
        requires
            schema.wf(),
        ensures
            r is Ok <==> sel_ok(schema.fields@, field_type@, set@),
            match r {
                Ok(s) => {
                    &&& s.field_type@ == field_type@
                    &&& tree_consistent(
                        schema.fields@,
                        field_type@,
                        sels_view(s.selections@),
                    )
                    &&& lowers_to(
                        schema.fields@,
                        field_type@,
                        set@,
                        sels_view(s.selections@),
                    )
                    &&& s.has_fragments == (exists|t: int|
                        0 <= t < set@.len() && (#[trigger] set@[t]) is RawSpread)
                },
                Err(e) => e is UnrecognizedField || crate::arguments::is_argument_error(e),
            },
        decreases set@,
    {
        let ghost fieldsv = schema.fields@;
        let mut selections: Vec<Selection> = Vec::new();
        let mut has_fragments = false;
        let mut i: usize = 0;
        proof {
            lemma_sels_view_len(selections@);
            assert(sels_view(selections@) =~~= Seq::<SelectionV>::empty());
            assert(set@.subrange(0, 0) =~~= Seq::<RawSelection>::empty());
        }
        while i < set.len()
            invariant
                i <= set@.len(),
                schema.wf(),
                fieldsv == schema.fields@,
                tree_consistent(fieldsv, field_type@, sels_view(selections@)),
                sel_ok(fieldsv, field_type@, set@.subrange(0, i as int)),
                lowers_to(
                    fieldsv,
                    field_type@,
                    set@.subrange(0, i as int),
                    sels_view(selections@),
                ),
                has_fragments == (exists|t: int|
                    0 <= t < i && (#[trigger] set@[t]) is RawSpread),
            decreases set@.len() - i,
        {
            let ghost pre = sels_view(selections@);
            match &set[i] {
                RawSelection::RawFieldSel(field) => {
                    let subfield_type: String = match schema.field_type(
                        field_type,
                        field.name.as_str(),
                    ) {
                        Some(t) => t.clone(),
                        None => {
                            proof {
                                assert(set@[i as int] is RawFieldSel && set@[
                                    i as int
                                ]->RawFieldSel_0 == *field);
                                if sel_ok(fieldsv, field_type@, set@) {
                                    lemma_sel_ok_index(fieldsv, field_type@, set@);
                                    assert(false);
                                }
                            }
                            return Err(
                                GraphqlError::UnrecognizedField(
                                    field_type.to_owned(),
                                    field.name.clone(),
                                ),
                            );
                        },
                    };
                    let mut params: Vec<ParamType> = Vec::new();
                    let mut k: usize = 0;
                    while k < field.args.len()
                        invariant
                            k <= field.args@.len(),
                            params@.len() == k,
                            schema.wf(),
                            fieldsv == schema.fields@,
                            i < set@.len(),
                            set@[i as int] is RawFieldSel && set@[i as int]->RawFieldSel_0
                                == *field,
                            forall|j: int|
                                0 <= j < k ==> (crate::arguments::param_of(
                                    (#[trigger] field.args@[j]).0@,
                                    field.args@[j].1,
                                ) matches Some(pv) && params@[j]@ == pv),
                        decreases field.args@.len() - k,
                    {
                        let p = match crate::arguments::parse_argument_into_param(
                            subfield_type.as_str(),
                            field.args[k].0.as_str(),
                            &field.args[k].1,
                            schema,
                        ) {
                            Ok(p) => p,
                            Err(e) => {
                                proof {
                                    assert(set@[i as int] is RawFieldSel && set@[
                                        i as int
                                    ]->RawFieldSel_0 == *field);
                                    if sel_ok(fieldsv, field_type@, set@) {
                                        lemma_sel_ok_index(fieldsv, field_type@, set@);
                                        assert(false);
                                    }
                                }
                                return Err(e);
                            },
                        };
                        params.push(p);
                        k = k + 1;
                    }
                    proof {
                        assert(decreases_to!(set@ => set@[i as int]));
                    }
                    let sub_selections = match Selections::new(
                        schema,
                        subfield_type.as_str(),
                        &field.set,
                    ) {
                        Ok(s) => s,
                        Err(e) => {
                            proof {
                                assert(set@[i as int] is RawFieldSel && set@[
                                    i as int
                                ]->RawFieldSel_0 == *field);
                                if sel_ok(fieldsv, field_type@, set@) {
                                    lemma_sel_ok_index(fieldsv, field_type@, set@);
                                    assert(false);
                                }
                            }
                            return Err(e);
                        },
                    };
                    let alias = match &field.alias {
                        Some(a) => Some(a.clone()),
                        None => None,
                    };
                    let ghost prev = selections@;
                    let node = Selection::Field(
                        field.name.clone(),
                        params,
                        sub_selections,
                        alias,
                    );
                    let ghost nodev = sel_view(node);
                    selections.push(node);
                    proof {
                        lemma_sels_view_push_generic(prev, selections@);
                        assert(nodev->FieldV_name == field.name@);
                        assert(nodev->FieldV_params =~~= Seq::new(
                            field.args@.len(),
                            |j: int| crate::arguments::param_of(
                                field.args@[j].0@,
                                field.args@[j].1,
                            )->Some_0,
                        ));
                        lemma_tree_consistent_push(fieldsv, field_type@, pre, nodev);
                        lemma_sel_ok_push(
                            fieldsv,
                            field_type@,
                            set@.subrange(0, i as int),
                            set@[i as int],
                        );
                        assert(set@.subrange(0, i + 1) =~~= set@.subrange(0, i as int).push(
                            set@[i as int],
                        ));
                        assert(set@.subrange(0, i + 1).drop_last() =~~= set@.subrange(
                            0,
                            i as int,
                        ));
                        assert forall|t: int|
                            0 <= t < i + 1 implies lowers_one(
                            fieldsv,
                            field_type@,
                            set@.subrange(0, i + 1)[t],
                            #[trigger] sels_view(selections@)[t],
                        ) by {
                            if t < i {
                                assert(set@.subrange(0, i + 1)[t] == set@[t]);
                                assert(set@.subrange(0, i as int)[t] == set@[t]);
                                assert(sels_view(selections@)[t] == pre[t]);
                            } else {
                                assert(set@.subrange(0, i + 1)[t] == set@[i as int]);
                            }
                        }
                        assert(lowers_to(
                            fieldsv,
                            field_type@,
                            set@.subrange(0, i + 1),
                            sels_view(selections@),
                        ));
                        assert forall|t: int|
                            0 <= t < i + 1 && (#[trigger] set@[t]) is RawSpread implies t
                            < i by {}
                    }
                },
                RawSelection::RawSpread(fragment_name) => {
                    has_fragments = true;
                    let ghost prev = selections@;
                    selections.push(Selection::Fragment(fragment_name.clone()));
                    proof {
                        lemma_sels_view_push_generic(prev, selections@);
                        lemma_tree_consistent_push(
                            fieldsv,
                            field_type@,
                            pre,
                            sels_view(selections@).last(),
                        );
                        lemma_sel_ok_push(
                            fieldsv,
                            field_type@,
                            set@.subrange(0, i as int),
                            set@[i as int],
                        );
                        assert(set@.subrange(0, i + 1) =~~= set@.subrange(0, i as int).push(
                            set@[i as int],
                        ));
                        assert forall|t: int|
                            0 <= t < i + 1 implies lowers_one(
                            fieldsv,
                            field_type@,
                            set@.subrange(0, i + 1)[t],
                            #[trigger] sels_view(selections@)[t],
                        ) by {
                            if t < i {
                                assert(set@.subrange(0, i + 1)[t] == set@[t]);
                                assert(set@.subrange(0, i as int)[t] == set@[t]);
                                assert(sels_view(selections@)[t] == pre[t]);
                            } else {
                                assert(set@.subrange(0, i + 1)[t] == set@[i as int]);
                            }
                        }
                        assert(lowers_to(
                            fieldsv,
                            field_type@,
                            set@.subrange(0, i + 1),
                            sels_view(selections@),
                        ));
                    }
                },
            }
            i = i + 1;
        }
        proof {
            assert(set@.subrange(0, set@.len() as int) =~~= set@);
        }
        Ok(Selections { field_type: field_type.to_owned(), has_fragments, selections })
    }
}

impl Fragment {
    /// Builds a fragment body against the schema under its type
    /// condition.
    pub fn new(schema: &Schema, cond: String, set: &Vec<RawSelection>) -> (r: Result<
        Fragment,
        GraphqlError,
    >)
        requires
            schema.wf(),
        ensures
            r is Ok <==> sel_ok(schema.fields@, cond@, set@),
            match r {
                Ok(fr) => {
                    &&& fr.cond@ == cond@
                    &&& fr.selections.field_type@ == cond@
                    &&& tree_consistent(
                        schema.fields@,
                        cond@,
                        sels_view(fr.selections.selections@),
                    )
                    &&& lowers_to(
                        schema.fields@,
                        cond@,
                        set@,
                        sels_view(fr.selections.selections@),
                    )
                    &&& fr.selections.has_fragments == (exists|t: int|
                        0 <= t < set@.len() && (#[trigger] set@[t]) is RawSpread)
                },
                Err(e) => e is UnrecognizedField || crate::arguments::is_argument_error(e),
            },
    {
        let selections = match Selections::new(schema, cond.as_str(), set) {
            Ok(s) => s,
            Err(e) => {
                return Err(e);
            },
        };
        Ok(Fragment { cond, selections })
    }

    /// One resolution pass over the fragment's own body, in its type
    /// condition's context; the return value counts the spreads
    /// replaced.
    pub fn resolve_fragments(&mut self, schema: &Schema, fragments: &StrMap<Fragment>) -> (r:
        Result<usize, GraphqlError>)
        requires
            schema.wf(),
            fragments.wf(),
            tree_consistent(
                schema.fields@,
                old(self).cond@,
                sels_view(old(self).selections.selections@),
            ),
        ensures
            final(self).cond@ == old(self).cond@,
            match r {
                Ok(n) => {
                    let out = subst_sels(
                        schema.fields@,
                        fragments@,
                        old(self).cond@,
                        sels_view(old(self).selections.selections@),
                    );
                    &&& out is Some
                    &&& sels_view(final(self).selections.selections@) == out->Some_0.0
                    &&& n as int == out->Some_0.1
                    &&& final(self).selections.has_fragments == out->Some_0.2
                },
                Err(e) => e is InvalidFragmentSelection,
            },
    {
        let cond = self.cond.clone();
        self.selections.resolve_fragments(schema, cond.as_str(), fragments)
    }
}


/// The namespaced identity of one operation.
pub open spec fn op_ns(op: Operation) -> Seq<char> {
    crate::tables::ns_id_of(op.namespace@, op.identifier@)
}

/// The top-level fields of one operation.
pub open spec fn op_tops(op: Operation) -> Seq<SelectionV> {
    top_fields(sels_view(op.selections.selections@))
}

/// Every compiled query a request yields, in operation order: each
/// top-level field paired with its operation's namespaced identity.
pub open spec fn flat_tops(ops: Seq<Operation>) -> Seq<(Seq<char>, SelectionV)>
    decreases ops,
{
    if ops.len() == 0 {
        Seq::empty()
    } else {
        flat_tops(ops.drop_last()) + Seq::new(
            op_tops(ops.last()).len(),
            |k: int| (op_ns(ops.last()), op_tops(ops.last())[k]),
        )
    }
}

/// The parameters a top-level field compiles to.
pub open spec fn top_params(
    fks: crate::tables::FkDict,
    ns: Seq<char>,
    t: SelectionV,
) -> Seq<(ParamTypeV, Seq<char>)> {
    batch_flat(
        (if t->FieldV_params.len() > 0 {
            seq![BatchV { params: t->FieldV_params, scope: qual(ns, t->FieldV_name) }]
        } else {
            Seq::<BatchV>::empty()
        }) + trav_fwd(fks, ns, t->FieldV_name, t->FieldV_subs.selections).batches,
    )
}

/// A paginated parameter list with no ordering anywhere.
pub open spec fn pag_unordered(ps: Seq<(ParamTypeV, Seq<char>)>) -> bool {
    (exists|i: int|
        0 <= i < ps.len() && crate::arguments::is_pagination((#[trigger] ps[i]).0)) && !(exists|
        j: int,
    |
        0 <= j < ps.len() && (#[trigger] ps[j]).0 is SortV)
}

/// The operation definitions of a document, in order.
pub open spec fn raw_ops(defs: Seq<RawDefinition>) -> Seq<RawDefinition>
    decreases defs,
{
    if defs.len() == 0 {
        Seq::empty()
    } else {
        raw_ops(defs.drop_last()) + (if defs.last() is RawOp {
            seq![defs.last()]
        } else {
            Seq::<RawDefinition>::empty()
        })
    }
}

/// The shape one processed operation owes its definition: the schema's
/// identity, the definition's name or `Unnamed`, and a selection tree
/// rooted at and consistent with the query type.
pub open spec fn operation_shape(op: Operation, schema: Schema, d: RawDefinition) -> bool {
    &&& op.namespace@ == schema.namespace@
    &&& op.identifier@ == schema.identifier@
    &&& (d->RawOp_kind == OpKind::QueryOp && d->RawOp_name is Some ==> op.name@
        == d->RawOp_name->0@)
    &&& (!(d->RawOp_kind == OpKind::QueryOp && d->RawOp_name is Some) ==> op.name@
        == "Unnamed"@)
    &&& op.selections.field_type@ == schema.query@
    &&& tree_consistent(schema.fields@, schema.query@, sels_view(op.selections.selections@))
}

/// The operation's built selections are the definition's lowering with
/// its fragment spreads substituted against the given table.
pub open spec fn operation_substituted(
    op: Operation,
    schema: Schema,
    frags: FragsV,
    d: RawDefinition,
) -> bool {
    exists|lowered: Seq<SelectionV>|
        #[trigger] lowers_to(schema.fields@, schema.query@, d->RawOp_set@, lowered) && (
        subst_sels(schema.fields@, frags, schema.query@, lowered) matches Some(o)
            && sels_view(op.selections.selections@) == o.0 && op.selections.has_fragments
            == o.2)
}

/// A fragment table fit to substitute against: key-unique, every body
/// consistent and spread-free, and every fragment definition of the
/// document entered under its name.
pub open spec fn frags_table_ok(schema: Schema, defs: Seq<RawDefinition>, fr: FragsV) -> bool {
    &&& crate::strmap::sm_wf(fr)
    &&& frags_consistent(schema.fields@, fr)
    &&& frags_resolved_flags(fr)
    &&& forall|i: int|
        0 <= i < defs.len() && (#[trigger] defs[i]) is RawFragment ==> sm_contains(
            fr,
            defs[i]->RawFragment_name@,
        )
}

/// True when some name among the pending pairs is the given one.
pub open spec fn in_pairs(ps: Seq<(String, Fragment)>, n: Seq<char>) -> bool {
    exists|t: int| 0 <= t < ps.len() && (#[trigger] ps[t]).0@ == n
}

/// Every fragment definition of the prefix has its name accounted for:
/// resolved into the table or still pending.
pub open spec fn frags_covered(
    m: FragsV,
    tr: Seq<(String, Fragment)>,
    rem: Seq<(String, Fragment)>,
    defs: Seq<RawDefinition>,
    upto: int,
) -> bool {
    forall|i: int|
        0 <= i < upto && (#[trigger] defs[i]) is RawFragment ==> sm_contains(
            m,
            defs[i]->RawFragment_name@,
        ) || in_pairs(tr, defs[i]->RawFragment_name@) || in_pairs(
            rem,
            defs[i]->RawFragment_name@,
        )
}

/// The errors the request pipeline raises past parsing.
pub open spec fn is_request_error(e: GraphqlError) -> bool {
    ||| e is OperationNotSupported
    ||| e is UnrecognizedType
    ||| e is FragmentResolverFailed
    ||| e is InvalidFragmentSelection
    ||| e is UnrecognizedField
    ||| crate::arguments::is_argument_error(e)
}

/// A rendered statement matches a top-level field when some compiled
/// query of that field renders to it.
pub open spec fn rendered_matches(
    sv: Seq<char>,
    fks: crate::tables::FkDict,
    ns: Seq<char>,
    t: SelectionV,
) -> bool {
    exists|q: UserQuery|
        #[trigger] compiled_matches(q, fks, ns, t) && sv == crate::queries::sql_chars(
            elems_view(q.elements@),
            q.joins@,
            q.namespace_identifier@,
            q.entity_name@,
            q.query_params@,
        )
}

/// A fully processed request: its operations, ready to lower.
#[derive(Debug)]
pub struct GraphqlQuery {
    pub operations: Vec<Operation>,
}

impl GraphqlQuery {
    /// Lowers every operation, in order: one compiled query per
    /// top-level field of each operation, each satisfying the compiled
    /// query's contract under its operation's identity.
    pub fn parse(&self, schema: &Schema) -> (r: Vec<UserQuery>)
        requires
            schema.wf(),
        ensures
            r@.len() == flat_tops(self.operations@).len(),
            forall|k: int|
                0 <= k < r@.len() ==> compiled_matches(
                    #[trigger] r@[k],
                    schema.foreign_keys@,
                    flat_tops(self.operations@)[k].0,
                    flat_tops(self.operations@)[k].1,
                ),
    {
        let ghost fksv = schema.foreign_keys@;
        let mut queries: Vec<UserQuery> = Vec::new();
        let mut i: usize = 0;
        proof {
            assert(self.operations@.subrange(0, 0) =~~= Seq::<Operation>::empty());
        }
        while i < self.operations.len()
            invariant
                i <= self.operations@.len(),
                schema.wf(),
                fksv == schema.foreign_keys@,
                queries@.len() == flat_tops(self.operations@.subrange(0, i as int)).len(),
                forall|k: int|
                    0 <= k < queries@.len() ==> compiled_matches(
                        #[trigger] queries@[k],
                        fksv,
                        flat_tops(self.operations@.subrange(0, i as int))[k].0,
                        flat_tops(self.operations@.subrange(0, i as int))[k].1,
                    ),
            decreases self.operations@.len() - i,
        {
            let ghost pre_ops = self.operations@.subrange(0, i as int);
            let ghost ft_pre = flat_tops(pre_ops);
            let more = self.operations[i].parse(schema);
            let ghost pre = queries@;
            let ghost morev = more@;
            let ghost op = self.operations@[i as int];
            queues_extend(&mut queries, more);
            proof {
                let cur_ops = self.operations@.subrange(0, i + 1);
                assert(cur_ops.drop_last() =~~= pre_ops);
                assert(cur_ops.last() == op);
                let ft_cur = flat_tops(cur_ops);
                assert(ft_cur =~~= ft_pre + Seq::new(
                    op_tops(op).len(),
                    |k: int| (op_ns(op), op_tops(op)[k]),
                ));
                assert(queries@.len() == ft_cur.len());
                assert forall|k: int|
                    0 <= k < queries@.len() implies compiled_matches(
                    #[trigger] queries@[k],
                    fksv,
                    ft_cur[k].0,
                    ft_cur[k].1,
                ) by {
                    if k < pre.len() {
                        assert(queries@[k] == pre[k]);
                        assert(ft_cur[k] == ft_pre[k]);
                    } else {
                        assert(queries@[k] == morev[k - pre.len()]);
                        assert(ft_cur[k] == (op_ns(op), op_tops(op)[k - pre.len()]));
                    }
                }
            }
            i = i + 1;
        }
        proof {
            assert(self.operations@.subrange(0, self.operations@.len() as int)
                =~~= self.operations@);
        }
        queries
    }

    /// Lowers every operation and renders each compiled query to its
    /// statement. It refuses, with `UnorderedPaginatedQuery`, exactly
    /// when some compiled query's parameters paginate without an
    /// ordering; otherwise one statement per compiled query comes back,
    /// each equal to the renderer's reading of its query.
    pub fn as_sql(&self, schema: &Schema, db_type: crate::tables::DbType) -> (r: Result<
        Vec<String>,
        GraphqlError,
    >)
        requires
            schema.wf(),
        ensures
            r is Err <==> (exists|k: int|
                0 <= k < flat_tops(self.operations@).len() && pag_unordered(
                    top_params(
                        schema.foreign_keys@,
                        (#[trigger] flat_tops(self.operations@)[k]).0,
                        flat_tops(self.operations@)[k].1,
                    ),
                )),
            r is Err ==> r->Err_0 is UnorderedPaginatedQuery,
            match r {
                Ok(v) => v@.len() == flat_tops(self.operations@).len() && (forall|k: int|
                    0 <= k < v@.len() ==> rendered_matches(
                        (#[trigger] v@[k])@,
                        schema.foreign_keys@,
                        flat_tops(self.operations@)[k].0,
                        flat_tops(self.operations@)[k].1,
                    )),
                Err(_) => true,
            },
    {
        let ghost fksv = schema.foreign_keys@;
        let ghost ft = flat_tops(self.operations@);
        let queries = self.parse(schema);
        let mut out: Vec<String> = Vec::new();
        let mut i: usize = 0;
        while i < queries.len()
            invariant
                i <= queries@.len(),
                fksv == schema.foreign_keys@,
                ft == flat_tops(self.operations@),
                queries@.len() == ft.len(),
                forall|k: int|
                    0 <= k < queries@.len() ==> compiled_matches(
                        #[trigger] queries@[k],
                        fksv,
                        ft[k].0,
                        ft[k].1,
                    ),
                out@.len() == i,
                forall|k: int| 0 <= k < i ==> !pag_unordered(top_params(fksv, (#[trigger] ft[k]).0, ft[k].1)),
                forall|k: int|
                    0 <= k < i ==> (#[trigger] out@[k])@ == crate::queries::sql_chars(
                        elems_view(queries@[k].elements@),
                        queries@[k].joins@,
                        queries@[k].namespace_identifier@,
                        queries@[k].entity_name@,
                        queries@[k].query_params@,
                    ),
            decreases queries@.len() - i,
        {
            let sql = match queries[i].to_sql(&db_type) {
                Ok(s) => s,
                Err(e) => {
                    proof {
                        assert(queries@[i as int].query_params@ == top_params(
                            fksv,
                            ft[i as int].0,
                            ft[i as int].1,
                        ));
                        assert(pag_unordered(top_params(fksv, ft[i as int].0, ft[i as int].1)));
                    }
                    return Err(e);
                },
            };
            proof {
                assert(queries@[i as int].query_params@ == top_params(
                    fksv,
                    ft[i as int].0,
                    ft[i as int].1,
                ));
            }
            let ghost out_pre = out@;
            out.push(sql);
            proof {
                assert forall|k: int|
                    0 <= k < i + 1 implies (#[trigger] out@[k])@ == crate::queries::sql_chars(
                    elems_view(queries@[k].elements@),
                    queries@[k].joins@,
                    queries@[k].namespace_identifier@,
                    queries@[k].entity_name@,
                    queries@[k].query_params@,
                ) by {
                    if k < i {
                        assert(out@[k] == out_pre[k]);
                    }
                }
            }
            i = i + 1;
        }
        proof {
            assert forall|k: int|
                0 <= k < out@.len() implies rendered_matches(
                (#[trigger] out@[k])@,
                schema.foreign_keys@,
                flat_tops(self.operations@)[k].0,
                flat_tops(self.operations@)[k].1,
            ) by {
                let q = queries@[k];
                assert(compiled_matches(
                    q,
                    schema.foreign_keys@,
                    flat_tops(self.operations@)[k].0,
                    flat_tops(self.operations@)[k].1,
                ) && (out@[k])@ == crate::queries::sql_chars(
                    elems_view(q.elements@),
                    q.joins@,
                    q.namespace_identifier@,
                    q.entity_name@,
                    q.query_params@,
                ));
            }
        }
        Ok(out)
    }
}

/// Moves every query of the second vector onto the first.
fn queues_extend(dst: &mut Vec<UserQuery>, src: Vec<UserQuery>)
    ensures
        final(dst)@ == old(dst)@ + src@,
{
    let mut rest = src;
    let ghost srcv = src@;
    let ghost mut i: int = 0;
    while rest.len() > 0
        invariant
            0 <= i <= srcv.len(),
            rest@ == srcv.subrange(i, srcv.len() as int),
            dst@ == old(dst)@ + srcv.subrange(0, i),
        decreases rest@.len(),
    {
        let q = rest.remove(0);
        dst.push(q);
        proof {
            assert(rest@ =~~= srcv.subrange(i + 1, srcv.len() as int));
            assert(dst@ =~~= old(dst)@ + srcv.subrange(0, i + 1));
            i = i + 1;
        }
    }
    proof {
        assert(srcv.subrange(0, srcv.len() as int) =~~= srcv);
        assert(dst@ =~~= old(dst)@ + srcv);
    }
}

/// Builds a request against a schema: parsing, fragment resolution to a
/// fixed point, and operation processing.
pub struct GraphqlQueryBuilder<'a> {
    pub schema: &'a Schema,
    pub document: QueryDoc,
}

impl<'a> GraphqlQueryBuilder<'a> {
    /// Parses request text; text that does not conform to the request
    /// grammar refuses with a parse error, and a parsed document is the
    /// grammar's reading of the text.
    pub fn new(schema: &'a Schema, query: &'a str) -> (r: Result<
        GraphqlQueryBuilder<'a>,
        GraphqlError,
    >)
        ensures
            r is Ok <==> crate::query_text::query_doc_of(query) is Some,
            match r {
                Ok(b) => b.schema == schema && crate::query_text::raw_defs_view(
                    b.document.defs@,
                ) == crate::query_text::query_doc_of(query)->Some_0,
                Err(e) => e is ParseError,
            },
    {
        let document = match crate::query_text::parse_query_doc(query) {
            Some(d) => d,
            None => {
                return Err(
                    GraphqlError::ParseError(
                        "the request text does not parse as a query document".to_owned(),
                    ),
                );
            },
        };
        Ok(GraphqlQueryBuilder { schema, document })
    }

    /// Resolves the fragments to a fixed point and processes the
    /// operations: one operation per operation definition, in order,
    /// each rooted at and consistent with the schema's query type.
    /// Every error it raises belongs to the request taxonomy.
    pub fn build(self) -> (r: Result<GraphqlQuery, GraphqlError>)
        requires
            self.schema.wf(),
        ensures
            match r {
                Ok(q) => {
                    &&& q.operations@.len() == raw_ops(self.document.defs@).len()
                    &&& forall|k: int|
                        0 <= k < q.operations@.len() ==> operation_shape(
                            #[trigger] q.operations@[k],
                            *self.schema,
                            raw_ops(self.document.defs@)[k],
                        )
                    &&& (exists|fr: FragsV|
                        #[trigger] frags_table_ok(*self.schema, self.document.defs@, fr)
                            && forall|k: int|
                            0 <= k < q.operations@.len() ==> operation_substituted(
                                #[trigger] q.operations@[k],
                                *self.schema,
                                fr,
                                raw_ops(self.document.defs@)[k],
                            ))
                    &&& forall|c: Set<Seq<char>>, i: int|
                        #![trigger entangled(self.document.defs@, c), self.document.defs@[i]]
                        entangled(self.document.defs@, c) && 0 <= i
                            < self.document.defs@.len() && self.document.defs@[i]
                            is RawFragment ==> !c.contains(
                            self.document.defs@[i]->RawFragment_name@,
                        )
                },
                Err(e) => is_request_error(e),
            },
    {
        let fragments = match self.process_fragments() {
            Ok(f) => f,
            Err(e) => {
                return Err(e);
            },
        };
        let operations = match self.process_operations(&fragments) {
            Ok(o) => o,
            Err(e) => {
                return Err(e);
            },
        };
        proof {
            assert(frags_table_ok(*self.schema, self.document.defs@, fragments@));
        }
        Ok(GraphqlQuery { operations })
    }

    /// Processes one operation: mutations and subscriptions refuse;
    /// a bare selection set and a named query both lower with their
    /// fragments resolved against the table.
    fn process_operation(
        &self,
        kind: OpKind,
        name: &Option<String>,
        set: &Vec<RawSelection>,
        fragments: &StrMap<Fragment>,
    ) -> (r: Result<Operation, GraphqlError>)
        requires
            self.schema.wf(),
            fragments.wf(),
            frags_consistent(self.schema.fields@, fragments@),
        ensures
            kind == OpKind::MutationOp ==> r is Err && r->Err_0 is OperationNotSupported
                && r->Err_0->OperationNotSupported_0@ == "Mutation"@,
            kind == OpKind::SubscriptionOp ==> r is Err && r->Err_0
                is OperationNotSupported && r->Err_0->OperationNotSupported_0@
                == "Subscription"@,
            match r {
                Ok(op) => {
                    &&& op.namespace@ == self.schema.namespace@
                    &&& op.identifier@ == self.schema.identifier@
                    &&& (kind == OpKind::QueryOp && name is Some ==> op.name@
                        == name->0@)
                    &&& (!(kind == OpKind::QueryOp && name is Some) ==> op.name@
                        == "Unnamed"@)
                    &&& op.selections.field_type@ == self.schema.query@
                    &&& tree_consistent(
                        self.schema.fields@,
                        self.schema.query@,
                        sels_view(op.selections.selections@),
                    )
                    &&& (exists|lowered: Seq<SelectionV>|
                        #[trigger] lowers_to(self.schema.fields@, self.schema.query@, set@, lowered)
                            && (subst_sels(
                            self.schema.fields@,
                            fragments@,
                            self.schema.query@,
                            lowered,
                        ) matches Some(o) && sels_view(op.selections.selections@) == o.0
                            && op.selections.has_fragments == o.2))
                },
                Err(e) => {
                    &&& is_request_error(e)
                    &&& (!(kind == OpKind::BareOp || kind == OpKind::QueryOp) || !sel_ok(
                        self.schema.fields@,
                        self.schema.query@,
                        set@,
                    ) || e is InvalidFragmentSelection)
                    &&& (e is InvalidFragmentSelection ==> exists|lowered: Seq<SelectionV>|
                        #[trigger] lowers_to(
                            self.schema.fields@,
                            self.schema.query@,
                            set@,
                            lowered,
                        ) && subst_sels(
                            self.schema.fields@,
                            fragments@,
                            self.schema.query@,
                            lowered,
                        ) is None)
                },
            },
    {
        match kind {
            OpKind::MutationOp => Err(GraphqlError::OperationNotSupported("Mutation".to_owned())),
            OpKind::SubscriptionOp => Err(
                GraphqlError::OperationNotSupported("Subscription".to_owned()),
            ),
            OpKind::BareOp => {
                let mut selections = match Selections::new(
                    self.schema,
                    self.schema.query.as_str(),
                    set,
                ) {
                    Ok(s) => s,
                    Err(e) => {
                        return Err(e);
                    },
                };
                let ghost lowered = sels_view(selections.selections@);
                let root = self.schema.query.clone();
                match selections.resolve_fragments(self.schema, root.as_str(), fragments) {
                    Ok(_) => {},
                    Err(e) => {
                        proof {
                            assert(lowers_to(
                                self.schema.fields@,
                                self.schema.query@,
                                set@,
                                lowered,
                            ) && subst_sels(
                                self.schema.fields@,
                                fragments@,
                                self.schema.query@,
                                lowered,
                            ) is None);
                        }
                        return Err(e);
                    },
                }
                proof {
                    lemma_subst_consistent(
                        self.schema.fields@,
                        fragments@,
                        self.schema.query@,
                        lowered,
                    );
                    assert(lowers_to(self.schema.fields@, self.schema.query@, set@, lowered));
                    assert(exists|l: Seq<SelectionV>|
                        #[trigger] lowers_to(
                            self.schema.fields@,
                            self.schema.query@,
                            set@,
                            l,
                        ) && (subst_sels(
                            self.schema.fields@,
                            fragments@,
                            self.schema.query@,
                            l,
                        ) matches Some(o) && sels_view(selections.selections@) == o.0
                            && selections.has_fragments == o.2));
                }
                Ok(
                    Operation::new(
                        self.schema.namespace.clone(),
                        self.schema.identifier.clone(),
                        "Unnamed".to_owned(),
                        selections,
                    ),
                )
            },
            OpKind::QueryOp => {
                let op_name: String = match name {
                    Some(n) => n.clone(),
                    None => "Unnamed".to_owned(),
                };
                let mut selections = match Selections::new(
                    self.schema,
                    self.schema.query.as_str(),
                    set,
                ) {
                    Ok(s) => s,
                    Err(e) => {
                        return Err(e);
                    },
                };
                let ghost lowered = sels_view(selections.selections@);
                let root = self.schema.query.clone();
                match selections.resolve_fragments(self.schema, root.as_str(), fragments) {
                    Ok(_) => {},
                    Err(e) => {
                        proof {
                            assert(lowers_to(
                                self.schema.fields@,
                                self.schema.query@,
                                set@,
                                lowered,
                            ) && subst_sels(
                                self.schema.fields@,
                                fragments@,
                                self.schema.query@,
                                lowered,
                            ) is None);
                        }
                        return Err(e);
                    },
                }
                proof {
                    lemma_subst_consistent(
                        self.schema.fields@,
                        fragments@,
                        self.schema.query@,
                        lowered,
                    );
                    assert(lowers_to(self.schema.fields@, self.schema.query@, set@, lowered));
                    assert(exists|l: Seq<SelectionV>|
                        #[trigger] lowers_to(
                            self.schema.fields@,
                            self.schema.query@,
                            set@,
                            l,
                        ) && (subst_sels(
                            self.schema.fields@,
                            fragments@,
                            self.schema.query@,
                            l,
                        ) matches Some(o) && sels_view(selections.selections@) == o.0
                            && selections.has_fragments == o.2));
                }
                Ok(
                    Operation::new(
                        self.schema.namespace.clone(),
                        self.schema.identifier.clone(),
                        op_name,
                        selections,
                    ),
                )
            },
        }
    }

    /// Processes every operation definition, in order.
    fn process_operations(&self, fragments: &StrMap<Fragment>) -> (r: Result<
        Vec<Operation>,
        GraphqlError,
    >)
        requires
            self.schema.wf(),
            fragments.wf(),
            frags_consistent(self.schema.fields@, fragments@),
        ensures
            match r {
                Ok(v) => {
                    &&& v@.len() == raw_ops(self.document.defs@).len()
                    &&& forall|k: int|
                        0 <= k < v@.len() ==> operation_shape(
                            #[trigger] v@[k],
                            *self.schema,
                            raw_ops(self.document.defs@)[k],
                        )
                    &&& forall|k: int|
                        0 <= k < v@.len() ==> operation_substituted(
                            #[trigger] v@[k],
                            *self.schema,
                            fragments@,
                            raw_ops(self.document.defs@)[k],
                        )
                },
                Err(e) => is_request_error(e),
            },
    {
        let mut operations: Vec<Operation> = Vec::new();
        let defs = &self.document.defs;
        let mut i: usize = 0;
        proof {
            assert(defs@.subrange(0, 0) =~~= Seq::<RawDefinition>::empty());
        }
        while i < defs.len()
            invariant
                i <= defs@.len(),
                self.schema.wf(),
                fragments.wf(),
                frags_consistent(self.schema.fields@, fragments@),
                defs@ == self.document.defs@,
                operations@.len() == raw_ops(defs@.subrange(0, i as int)).len(),
                forall|k: int|
                    0 <= k < operations@.len() ==> operation_shape(
                        #[trigger] operations@[k],
                        *self.schema,
                        raw_ops(defs@.subrange(0, i as int))[k],
                    ),
                forall|k: int|
                    0 <= k < operations@.len() ==> operation_substituted(
                        #[trigger] operations@[k],
                        *self.schema,
                        fragments@,
                        raw_ops(defs@.subrange(0, i as int))[k],
                    ),
            decreases defs@.len() - i,
        {
            let ghost pre = raw_ops(defs@.subrange(0, i as int));
            let ghost ops_pre = operations@;
            match &defs[i] {
                RawDefinition::RawOp { kind, name, set } => {
                    let op = match self.process_operation(*kind, name, set, fragments) {
                        Ok(o) => o,
                        Err(e) => {
                            return Err(e);
                        },
                    };
                    proof {
                        assert(defs@[i as int] is RawOp);
                        assert(defs@[i as int]->RawOp_kind == *kind);
                        assert(defs@[i as int]->RawOp_name == *name);
                        assert(defs@[i as int]->RawOp_set@ == set@);
                        assert(operation_shape(op, *self.schema, defs@[i as int]));
                        assert(operation_substituted(
                            op,
                            *self.schema,
                            fragments@,
                            defs@[i as int],
                        ));
                    }
                    operations.push(op);
                },
                RawDefinition::RawFragment { .. } => {},
            }
            proof {
                let cur = defs@.subrange(0, i + 1);
                assert(cur.drop_last() =~~= defs@.subrange(0, i as int));
                assert(cur.last() == defs@[i as int]);
                let rcur = raw_ops(cur);
                if defs@[i as int] is RawOp {
                    assert(rcur =~~= pre.push(defs@[i as int]));
                    assert(operations@.len() == rcur.len());
                    assert forall|k: int|
                        0 <= k < operations@.len() implies operation_shape(
                        #[trigger] operations@[k],
                        *self.schema,
                        rcur[k],
                    ) && operation_substituted(
                        operations@[k],
                        *self.schema,
                        fragments@,
                        rcur[k],
                    ) by {
                        if k < ops_pre.len() {
                            assert(operations@[k] == ops_pre[k]);
                            assert(rcur[k] == pre[k]);
                        } else {
                            assert(rcur[k] == defs@[i as int]);
                        }
                    }
                } else {
                    assert(rcur =~~= pre);
                }
            }
            i = i + 1;
        }
        proof {
            assert(defs@.subrange(0, defs@.len() as int) =~~= defs@);
        }
        Ok(operations)
    }

    /// Counts the spreads standing at the top level of a body.
    fn count_spreads(selections: &Vec<Selection>) -> (n: usize)
    {
        let mut n: usize = 0;
        let mut i: usize = 0;
        while i < selections.len()
            invariant
                i <= selections@.len(),
                n <= i,
            decreases selections@.len() - i,
        {
            if matches!(&selections[i], Selection::Fragment(_)) {
                n = n + 1;
            }
            i = i + 1;
        }
        n
    }

    /// Resolves the fragment definitions to a fixed point: bodies free
    /// of spreads enter the table; each pass rewrites the rest against
    /// it. On success every fragment definition's name is in the table,
    /// every body is consistent and spread-free, and every type
    /// condition named a known type. A pass that replaces nothing while
    /// spreads remain - as a cycle forces - refuses with
    /// `FragmentResolverFailed`; an unknown type condition with
    /// `UnrecognizedType`; a body that does not lower, with that body's
    /// own error. The passes are bounded by the number of spreads in
    /// sight, which every productive pass reduces.
    fn process_fragments(&self) -> (r: Result<StrMap<Fragment>, GraphqlError>)
        requires
            self.schema.wf(),
        ensures
            match r {
                Ok(m) => {
                    &&& m.wf()
                    &&& frags_consistent(self.schema.fields@, m@)
                    &&& frags_resolved_flags(m@)
                    &&& forall|i: int|
                        0 <= i < self.document.defs@.len() && (
                        #[trigger] self.document.defs@[i]) is RawFragment ==> sm_contains(
                            m@,
                            self.document.defs@[i]->RawFragment_name@,
                        )
                    &&& forall|i: int|
                        0 <= i < self.document.defs@.len() && (
                        #[trigger] self.document.defs@[i]) is RawFragment
                            ==> crate::tables::str_in(
                            crate::tables::strings_view(self.schema.types@),
                            self.document.defs@[i]->RawFragment_cond@,
                        )
                    &&& forall|c: Set<Seq<char>>, i: int|
                        #![trigger entangled(self.document.defs@, c), self.document.defs@[i]]
                        entangled(self.document.defs@, c) && 0 <= i
                            < self.document.defs@.len() && self.document.defs@[i]
                            is RawFragment ==> !c.contains(
                            self.document.defs@[i]->RawFragment_name@,
                        )
                },
                Err(e) => {
                    &&& is_request_error(e)
                    &&& !(e is OperationNotSupported)
                    &&& (e is FragmentResolverFailed ==> some_frag_has_spread(
                        self.document.defs@,
                    ))
                    &&& (e is UnrecognizedType ==> exists|i: int|
                        0 <= i < self.document.defs@.len() && (
                        #[trigger] self.document.defs@[i]) is RawFragment
                            && !crate::tables::str_in(
                            crate::tables::strings_view(self.schema.types@),
                            self.document.defs@[i]->RawFragment_cond@,
                        ))
                    &&& ((e is UnrecognizedField || crate::arguments::is_argument_error(e))
                        ==> exists|i: int|
                        0 <= i < self.document.defs@.len() && (
                        #[trigger] self.document.defs@[i]) is RawFragment && !sel_ok(
                            self.schema.fields@,
                            self.document.defs@[i]->RawFragment_cond@,
                            self.document.defs@[i]->RawFragment_set@,
                        ))
                    &&& ((e is InvalidFragmentSelection || e is FragmentResolverFailed)
                        ==> forall|i: int|
                        0 <= i < self.document.defs@.len() && (
                        #[trigger] self.document.defs@[i]) is RawFragment
                            ==> crate::tables::str_in(
                            crate::tables::strings_view(self.schema.types@),
                            self.document.defs@[i]->RawFragment_cond@,
                        ) && sel_ok(
                            self.schema.fields@,
                            self.document.defs@[i]->RawFragment_cond@,
                            self.document.defs@[i]->RawFragment_set@,
                        ))
                },
            },
    {
        let mut fragments: StrMap<Fragment> = StrMap::new();
        let mut to_resolve: Vec<(String, Fragment)> = Vec::new();
        let defs = &self.document.defs;
        let mut i: usize = 0;
        let mut fuel: usize = 1;
        while i < defs.len()
            invariant
                i <= defs@.len(),
                self.schema.wf(),
                defs@ == self.document.defs@,
                fragments.wf(),
                frags_consistent(self.schema.fields@, fragments@),
                frags_resolved_flags(fragments@),
                forall|t: int|
                    0 <= t < to_resolve@.len() ==> tree_consistent(
                        self.schema.fields@,
                        (#[trigger] to_resolve@[t]).1.cond@,
                        sels_view(to_resolve@[t].1.selections.selections@),
                    ),
                frags_covered(fragments@, to_resolve@, Seq::empty(), defs@, i as int),
                to_resolve@.len() > 0 ==> some_frag_has_spread(defs@),
                forall|j: int|
                    0 <= j < i && (#[trigger] defs@[j]) is RawFragment
                        ==> crate::tables::str_in(
                        crate::tables::strings_view(self.schema.types@),
                        defs@[j]->RawFragment_cond@,
                    ),
                forall|j: int|
                    0 <= j < i && (#[trigger] defs@[j]) is RawFragment ==> sel_ok(
                        self.schema.fields@,
                        defs@[j]->RawFragment_cond@,
                        defs@[j]->RawFragment_set@,
                    ),
                forall|c: Set<Seq<char>>, n: Seq<char>|
                    #![trigger entangled(defs@, c), c.contains(n)]
                    entangled(defs@, c) && c.contains(n) ==> !sm_contains(fragments@, n),
                forall|t: int|
                    0 <= t < to_resolve@.len() ==> item_tracks(
                        defs@,
                        fragments@,
                        #[trigger] to_resolve@[t],
                    ),
            decreases defs@.len() - i,
        {
            let ghost m0 = fragments@;
            let ghost tr0 = to_resolve@;
            match &defs[i] {
                RawDefinition::RawFragment { name, cond, set } => {
                    if !self.schema.check_type(cond.as_str()) {
                        proof {
                            assert(defs@[i as int] is RawFragment);
                        }
                        return Err(GraphqlError::UnrecognizedType(cond.clone()));
                    }
                    let frag = match Fragment::new(self.schema, cond.clone(), set) {
                        Ok(f) => f,
                        Err(e) => {
                            proof {
                                assert(defs@[i as int] is RawFragment);
                                assert(!sel_ok(
                                    self.schema.fields@,
                                    defs@[i as int]->RawFragment_cond@,
                                    defs@[i as int]->RawFragment_set@,
                                ));
                            }
                            return Err(e);
                        },
                    };
                    proof {
                        assert(sel_ok(
                            self.schema.fields@,
                            defs@[i as int]->RawFragment_cond@,
                            defs@[i as int]->RawFragment_set@,
                        ));
                    }
                    let spreads = Self::count_spreads(&frag.selections.selections);
                    if fuel <= usize::MAX - spreads {
                        fuel = fuel + spreads;
                    }
                    if frag.has_fragments() {
                        let ghost pre = to_resolve@;
                        let ghost nv = name@;
                        to_resolve.push((name.clone(), frag));
                        proof {
                            assert(defs@[i as int]->RawFragment_set@ == set@);
                            assert(some_frag_has_spread(defs@)) by {
                                let t = choose|t: int|
                                    0 <= t < set@.len() && (#[trigger] set@[t]) is RawSpread;
                                assert(defs@[i as int]->RawFragment_set@[t] is RawSpread);
                            }
                            assert forall|t: int|
                                0 <= t < to_resolve@.len() implies tree_consistent(
                                self.schema.fields@,
                                (#[trigger] to_resolve@[t]).1.cond@,
                                sels_view(to_resolve@[t].1.selections.selections@),
                            ) by {
                                if t < pre.len() {
                                    assert(to_resolve@[t] == pre[t]);
                                }
                            }
                            assert(in_pairs(to_resolve@, nv)) by {
                                assert(to_resolve@[pre.len() as int].0@ == nv);
                            }
                            assert forall|j: int|
                                0 <= j < i + 1 && (#[trigger] defs@[j]) is RawFragment
                                    implies sm_contains(
                                    fragments@,
                                    defs@[j]->RawFragment_name@,
                                ) || in_pairs(to_resolve@, defs@[j]->RawFragment_name@)
                                    || in_pairs(
                                    Seq::empty(),
                                    defs@[j]->RawFragment_name@,
                                ) by {
                                if j < i {
                                    if in_pairs(tr0, defs@[j]->RawFragment_name@) {
                                        let w = choose|t: int|
                                            0 <= t < tr0.len() && (#[trigger] tr0[t]).0@
                                                == defs@[j]->RawFragment_name@;
                                        assert(to_resolve@[w].0@
                                            == defs@[j]->RawFragment_name@);
                                    }
                                }
                            }
                            assert(item_tracks(
                                defs@,
                                fragments@,
                                to_resolve@[pre.len() as int],
                            )) by {
                                let item = to_resolve@[pre.len() as int];
                                assert(item.1 == frag && item.0@ == nv);
                                assert(defs@[i as int]->RawFragment_name@ == nv);
                                assert(defs@[i as int]->RawFragment_cond@ == cond@);
                                assert(lowers_to(
                                    self.schema.fields@,
                                    defs@[i as int]->RawFragment_cond@,
                                    defs@[i as int]->RawFragment_set@,
                                    sels_view(frag.selections.selections@),
                                ));
                                assert forall|t2: int|
                                    0 <= t2 < defs@[i as int]->RawFragment_set@.len() && (
                                    #[trigger] defs@[i as int]->RawFragment_set@[t2])
                                        is RawSpread && !sm_contains(
                                        fragments@,
                                        defs@[i as int]->RawFragment_set@[t2]->RawSpread_0@,
                                    ) implies has_top_spread(
                                    sels_view(item.1.selections.selections@),
                                    defs@[i as int]->RawFragment_set@[t2]->RawSpread_0@,
                                ) by {
                                    assert(lowers_one(
                                        self.schema.fields@,
                                        defs@[i as int]->RawFragment_cond@,
                                        defs@[i as int]->RawFragment_set@[t2],
                                        sels_view(frag.selections.selections@)[t2],
                                    ));
                                    assert(sels_view(frag.selections.selections@)[t2]
                                        == (SelectionV::FragmentV {
                                        name: defs@[
                                            i as int
                                        ]->RawFragment_set@[t2]->RawSpread_0@,
                                    }));
                                }
                            }
                            assert forall|t: int|
                                0 <= t < to_resolve@.len() implies item_tracks(
                                defs@,
                                fragments@,
                                #[trigger] to_resolve@[t],
                            ) by {
                                if t < pre.len() {
                                    assert(to_resolve@[t] == pre[t]);
                                }
                            }
                        }
                    } else {
                        let ghost fr0 = fragments@;
                        let ghost nv = name@;
                        let ghost fv = frag@;
                        fragments.insert(name.clone(), frag);
                        proof {
                            assert(fragments@ == crate::strmap::sm_insert(fr0, nv, fv)
                                && tree_consistent(
                                self.schema.fields@,
                                fv.cond,
                                fv.selections.selections,
                            ) && fv.selections.has_fragments == false);
                            lemma_frags_consistent_insert(
                                self.schema.fields@,
                                fr0,
                                fragments@,
                            );
                            crate::strmap::lemma_sm_insert_same(fr0, nv, fv);
                            assert forall|j: int|
                                0 <= j < i + 1 && (#[trigger] defs@[j]) is RawFragment
                                    implies sm_contains(
                                    fragments@,
                                    defs@[j]->RawFragment_name@,
                                ) || in_pairs(to_resolve@, defs@[j]->RawFragment_name@)
                                    || in_pairs(
                                    Seq::empty(),
                                    defs@[j]->RawFragment_name@,
                                ) by {
                                if j < i && sm_contains(fr0, defs@[j]->RawFragment_name@) {
                                    crate::strmap::lemma_sm_insert_monotone(
                                        fr0,
                                        nv,
                                        fv,
                                        defs@[j]->RawFragment_name@,
                                    );
                                }
                            }
                            assert forall|c: Set<Seq<char>>, n: Seq<char>|
                                entangled(defs@, c) && c.contains(n) implies !sm_contains(
                                fragments@,
                                n,
                            ) by {
                                if sm_contains(fragments@, n) {
                                    if n == nv {
                                        assert(defs@[i as int] is RawFragment);
                                        assert(c.contains(defs@[i as int]->RawFragment_name@));
                                        let t2 = choose|t2: int|
                                            0 <= t2 < defs@[i as int]->RawFragment_set@.len()
                                                && (#[trigger] defs@[
                                                i as int
                                            ]->RawFragment_set@[t2]) is RawSpread
                                                && c.contains(
                                                defs@[
                                                    i as int
                                                ]->RawFragment_set@[t2]->RawSpread_0@,
                                            );
                                        assert(defs@[i as int]->RawFragment_set@[t2]
                                            is RawSpread);
                                        assert(false);
                                    } else {
                                        crate::strmap::lemma_sm_insert_contains_rev(
                                            fr0,
                                            nv,
                                            fv,
                                            n,
                                        );
                                        assert(false);
                                    }
                                }
                            }
                            assert forall|t: int|
                                0 <= t < to_resolve@.len() implies item_tracks(
                                defs@,
                                fragments@,
                                #[trigger] to_resolve@[t],
                            ) by {
                                lemma_item_tracks_insert(defs@, fr0, nv, fv, to_resolve@[t]);
                            }
                        }
                    }
                },
                RawDefinition::RawOp { .. } => {},
            }
            i = i + 1;
        }
        while fuel > 0
            invariant
                self.schema.wf(),
                fragments.wf(),
                frags_consistent(self.schema.fields@, fragments@),
                frags_resolved_flags(fragments@),
                forall|t: int|
                    0 <= t < to_resolve@.len() ==> tree_consistent(
                        self.schema.fields@,
                        (#[trigger] to_resolve@[t]).1.cond@,
                        sels_view(to_resolve@[t].1.selections.selections@),
                    ),
                frags_covered(
                    fragments@,
                    to_resolve@,
                    Seq::empty(),
                    self.document.defs@,
                    self.document.defs@.len() as int,
                ),
                to_resolve@.len() > 0 ==> some_frag_has_spread(self.document.defs@),
                forall|j: int|
                    0 <= j < self.document.defs@.len() && (
                    #[trigger] self.document.defs@[j]) is RawFragment
                        ==> crate::tables::str_in(
                        crate::tables::strings_view(self.schema.types@),
                        self.document.defs@[j]->RawFragment_cond@,
                    ),
                forall|j: int|
                    0 <= j < self.document.defs@.len() && (
                    #[trigger] self.document.defs@[j]) is RawFragment ==> sel_ok(
                        self.schema.fields@,
                        self.document.defs@[j]->RawFragment_cond@,
                        self.document.defs@[j]->RawFragment_set@,
                    ),
                forall|c: Set<Seq<char>>, n: Seq<char>|
                    #![trigger entangled(self.document.defs@, c), c.contains(n)]
                    entangled(self.document.defs@, c) && c.contains(n) ==> !sm_contains(
                        fragments@,
                        n,
                    ),
                forall|t: int|
                    0 <= t < to_resolve@.len() ==> item_tracks(
                        self.document.defs@,
                        fragments@,
                        #[trigger] to_resolve@[t],
                    ),
            decreases fuel,
        {
            fuel = fuel - 1;
            if to_resolve.len() == 0 {
                return Ok(fragments);
            }
            let mut any_resolved = false;
            let mut remaining: Vec<(String, Fragment)> = Vec::new();
            while to_resolve.len() > 0
                invariant
                    self.schema.wf(),
                    fragments.wf(),
                    frags_consistent(self.schema.fields@, fragments@),
                    frags_resolved_flags(fragments@),
                    forall|t: int|
                        0 <= t < to_resolve@.len() ==> tree_consistent(
                            self.schema.fields@,
                            (#[trigger] to_resolve@[t]).1.cond@,
                            sels_view(to_resolve@[t].1.selections.selections@),
                        ),
                    forall|t: int|
                        0 <= t < remaining@.len() ==> tree_consistent(
                            self.schema.fields@,
                            (#[trigger] remaining@[t]).1.cond@,
                            sels_view(remaining@[t].1.selections.selections@),
                        ),
                    frags_covered(
                        fragments@,
                        to_resolve@,
                        remaining@,
                        self.document.defs@,
                        self.document.defs@.len() as int,
                    ),
                    to_resolve@.len() > 0 || remaining@.len() > 0
                        ==> some_frag_has_spread(self.document.defs@),
                    forall|j: int|
                        0 <= j < self.document.defs@.len() && (
                        #[trigger] self.document.defs@[j]) is RawFragment
                            ==> crate::tables::str_in(
                            crate::tables::strings_view(self.schema.types@),
                            self.document.defs@[j]->RawFragment_cond@,
                        ),
                    forall|j: int|
                        0 <= j < self.document.defs@.len() && (
                        #[trigger] self.document.defs@[j]) is RawFragment ==> sel_ok(
                            self.schema.fields@,
                            self.document.defs@[j]->RawFragment_cond@,
                            self.document.defs@[j]->RawFragment_set@,
                        ),
                    forall|c: Set<Seq<char>>, n: Seq<char>|
                        #![trigger entangled(self.document.defs@, c), c.contains(n)]
                        entangled(self.document.defs@, c) && c.contains(n) ==> !sm_contains(
                            fragments@,
                            n,
                        ),
                    forall|t: int|
                        0 <= t < to_resolve@.len() ==> item_tracks(
                            self.document.defs@,
                            fragments@,
                            #[trigger] to_resolve@[t],
                        ),
                    forall|t: int|
                        0 <= t < remaining@.len() ==> item_tracks(
                            self.document.defs@,
                            fragments@,
                            #[trigger] remaining@[t],
                        ),
                decreases to_resolve@.len(),
            {
                let ghost m0 = fragments@;
                let ghost tr0 = to_resolve@;
                let ghost rem0 = remaining@;
                let (name, mut frag) = to_resolve.remove(0);
                let ghost nv = name@;
                let ghost oldbody = sels_view(frag.selections.selections@);
                let ghost oldcond = frag.cond@;
                proof {
                    assert(tr0[0].1 == frag);
                    assert(tr0[0].0@ == nv);
                    assert forall|t: int|
                        0 <= t < to_resolve@.len() implies tree_consistent(
                        self.schema.fields@,
                        (#[trigger] to_resolve@[t]).1.cond@,
                        sels_view(to_resolve@[t].1.selections.selections@),
                    ) by {
                        assert(to_resolve@[t] == tr0[t + 1]);
                    }
                    assert forall|t: int|
                        0 <= t < to_resolve@.len() implies item_tracks(
                        self.document.defs@,
                        fragments@,
                        #[trigger] to_resolve@[t],
                    ) by {
                        assert(to_resolve@[t] == tr0[t + 1]);
                    }
                    assert(item_tracks(self.document.defs@, fragments@, tr0[0]));
                }
                let n = match frag.resolve_fragments(self.schema, &fragments) {
                    Ok(n) => n,
                    Err(e) => {
                        return Err(e);
                    },
                };
                if n > 0 {
                    any_resolved = true;
                }
                proof {
                    lemma_subst_consistent(
                        self.schema.fields@,
                        fragments@,
                        tr0[0].1.cond@,
                        sels_view(tr0[0].1.selections.selections@),
                    );
                }
                if frag.has_fragments() {
                    let ghost rem_pre = remaining@;
                    remaining.push((name, frag));
                    proof {
                        assert forall|t: int|
                            0 <= t < remaining@.len() implies tree_consistent(
                            self.schema.fields@,
                            (#[trigger] remaining@[t]).1.cond@,
                            sels_view(remaining@[t].1.selections.selections@),
                        ) by {
                            if t < rem_pre.len() {
                                assert(remaining@[t] == rem_pre[t]);
                            }
                        }
                        assert(in_pairs(remaining@, nv)) by {
                            assert(remaining@[rem_pre.len() as int].0@ == nv);
                        }
                        assert forall|j: int|
                            0 <= j < self.document.defs@.len() && (
                            #[trigger] self.document.defs@[j]) is RawFragment
                                implies sm_contains(
                                fragments@,
                                self.document.defs@[j]->RawFragment_name@,
                            ) || in_pairs(
                                to_resolve@,
                                self.document.defs@[j]->RawFragment_name@,
                            ) || in_pairs(
                                remaining@,
                                self.document.defs@[j]->RawFragment_name@,
                            ) by {
                            let dn = self.document.defs@[j]->RawFragment_name@;
                            if in_pairs(tr0, dn) {
                                let w = choose|t: int|
                                    0 <= t < tr0.len() && (#[trigger] tr0[t]).0@ == dn;
                                if w == 0 {
                                    assert(remaining@[rem_pre.len() as int].0@ == dn);
                                } else {
                                    assert(to_resolve@[w - 1].0@ == dn);
                                }
                            } else if in_pairs(rem0, dn) {
                                let w = choose|t: int|
                                    0 <= t < rem0.len() && (#[trigger] rem0[t]).0@ == dn;
                                assert(remaining@[w].0@ == dn);
                            }
                        }
                        let jd = choose|j: int|
                            0 <= j < self.document.defs@.len() && (
                            #[trigger] self.document.defs@[j]) is RawFragment
                                && self.document.defs@[j]->RawFragment_name@ == tr0[0].0@ && (
                            forall|t2: int|
                                0 <= t2 < self.document.defs@[j]->RawFragment_set@.len() && (
                                #[trigger] self.document.defs@[j]->RawFragment_set@[t2])
                                    is RawSpread && !sm_contains(
                                    m0,
                                    self.document.defs@[
                                        j
                                    ]->RawFragment_set@[t2]->RawSpread_0@,
                                ) ==> has_top_spread(
                                    sels_view(tr0[0].1.selections.selections@),
                                    self.document.defs@[
                                        j
                                    ]->RawFragment_set@[t2]->RawSpread_0@,
                                ));
                        let item = remaining@[rem_pre.len() as int];
                        assert(item.0@ == nv && item.1 == frag);
                        assert forall|t2: int|
                            0 <= t2 < self.document.defs@[jd]->RawFragment_set@.len() && (
                            #[trigger] self.document.defs@[jd]->RawFragment_set@[t2])
                                is RawSpread && !sm_contains(
                                fragments@,
                                self.document.defs@[jd]->RawFragment_set@[t2]->RawSpread_0@,
                            ) implies has_top_spread(
                            sels_view(item.1.selections.selections@),
                            self.document.defs@[jd]->RawFragment_set@[t2]->RawSpread_0@,
                        ) by {
                            let m = self.document.defs@[jd]->RawFragment_set@[
                                t2
                            ]->RawSpread_0@;
                            assert(has_top_spread(oldbody, m));
                            let kk = choose|kk: int|
                                0 <= kk < oldbody.len() && oldbody[kk] == (
                                SelectionV::FragmentV { name: m });
                            lemma_subst_keeps_spread(
                                self.schema.fields@,
                                m0,
                                oldcond,
                                oldbody,
                                kk,
                            );
                        }
                        assert(item_tracks(self.document.defs@, fragments@, item));
                        assert forall|t: int|
                            0 <= t < remaining@.len() implies item_tracks(
                            self.document.defs@,
                            fragments@,
                            #[trigger] remaining@[t],
                        ) by {
                            if t < rem_pre.len() {
                                assert(remaining@[t] == rem_pre[t]);
                            }
                        }
                    }
                } else {
                    let ghost fr0 = fragments@;
                    let ghost fv = frag@;
                    fragments.insert(name, frag);
                    proof {
                        assert(fragments@ == crate::strmap::sm_insert(fr0, nv, fv)
                            && tree_consistent(
                            self.schema.fields@,
                            fv.cond,
                            fv.selections.selections,
                        ) && fv.selections.has_fragments == false);
                        lemma_frags_consistent_insert(
                            self.schema.fields@,
                            fr0,
                            fragments@,
                        );
                        crate::strmap::lemma_sm_insert_same(fr0, nv, fv);
                        assert forall|j: int|
                            0 <= j < self.document.defs@.len() && (
                            #[trigger] self.document.defs@[j]) is RawFragment
                                implies sm_contains(
                                fragments@,
                                self.document.defs@[j]->RawFragment_name@,
                            ) || in_pairs(
                                to_resolve@,
                                self.document.defs@[j]->RawFragment_name@,
                            ) || in_pairs(
                                remaining@,
                                self.document.defs@[j]->RawFragment_name@,
                            ) by {
                            let dn = self.document.defs@[j]->RawFragment_name@;
                            if sm_contains(fr0, dn) {
                                crate::strmap::lemma_sm_insert_monotone(fr0, nv, fv, dn);
                            } else if in_pairs(tr0, dn) {
                                let w = choose|t: int|
                                    0 <= t < tr0.len() && (#[trigger] tr0[t]).0@ == dn;
                                if w == 0 {
                                    crate::strmap::lemma_sm_insert_same(fr0, nv, fv);
                                } else {
                                    assert(to_resolve@[w - 1].0@ == dn);
                                }
                            } else if in_pairs(rem0, dn) {
                                let w = choose|t: int|
                                    0 <= t < rem0.len() && (#[trigger] rem0[t]).0@ == dn;
                                assert(remaining@[w].0@ == dn);
                            }
                        }
                        assert forall|c: Set<Seq<char>>, n: Seq<char>|
                            entangled(self.document.defs@, c) && c.contains(n)
                                implies !sm_contains(fragments@, n) by {
                            if sm_contains(fragments@, n) {
                                if n == nv {
                                    let jd = choose|j: int|
                            0 <= j < self.document.defs@.len() && (
                            #[trigger] self.document.defs@[j]) is RawFragment
                                && self.document.defs@[j]->RawFragment_name@ == tr0[0].0@ && (
                            forall|t2: int|
                                0 <= t2 < self.document.defs@[j]->RawFragment_set@.len() && (
                                #[trigger] self.document.defs@[j]->RawFragment_set@[t2])
                                    is RawSpread && !sm_contains(
                                    m0,
                                    self.document.defs@[
                                        j
                                    ]->RawFragment_set@[t2]->RawSpread_0@,
                                ) ==> has_top_spread(
                                    sels_view(tr0[0].1.selections.selections@),
                                    self.document.defs@[
                                        j
                                    ]->RawFragment_set@[t2]->RawSpread_0@,
                                ));
                                    assert(self.document.defs@[jd] is RawFragment);
                                    assert(c.contains(
                                        self.document.defs@[jd]->RawFragment_name@,
                                    ));
                                    let t2 = choose|t2: int|
                                        0 <= t2 < self.document.defs@[
                                            jd
                                        ]->RawFragment_set@.len() && (
                                        #[trigger] self.document.defs@[
                                            jd
                                        ]->RawFragment_set@[t2]) is RawSpread && c.contains(
                                            self.document.defs@[
                                                jd
                                            ]->RawFragment_set@[t2]->RawSpread_0@,
                                        );
                                    let m = self.document.defs@[jd]->RawFragment_set@[
                                        t2
                                    ]->RawSpread_0@;
                                    assert(!sm_contains(m0, m));
                                    assert(has_top_spread(oldbody, m));
                                    let kk = choose|kk: int|
                                        0 <= kk < oldbody.len() && oldbody[kk] == (
                                        SelectionV::FragmentV { name: m });
                                    lemma_subst_keeps_spread(
                                        self.schema.fields@,
                                        m0,
                                        oldcond,
                                        oldbody,
                                        kk,
                                    );
                                    assert(frag.selections.has_fragments == true);
                                    assert(false);
                                } else {
                                    crate::strmap::lemma_sm_insert_contains_rev(
                                        fr0,
                                        nv,
                                        fv,
                                        n,
                                    );
                                    assert(false);
                                }
                            }
                        }
                        assert forall|t: int|
                            0 <= t < to_resolve@.len() implies item_tracks(
                            self.document.defs@,
                            fragments@,
                            #[trigger] to_resolve@[t],
                        ) by {
                            lemma_item_tracks_insert(
                                self.document.defs@,
                                fr0,
                                nv,
                                fv,
                                to_resolve@[t],
                            );
                        }
                        assert forall|t: int|
                            0 <= t < remaining@.len() implies item_tracks(
                            self.document.defs@,
                            fragments@,
                            #[trigger] remaining@[t],
                        ) by {
                            lemma_item_tracks_insert(
                                self.document.defs@,
                                fr0,
                                nv,
                                fv,
                                remaining@[t],
                            );
                        }
                    }
                }
            }
            if remaining.len() > 0 && !any_resolved {
                return Err(GraphqlError::FragmentResolverFailed);
            }
            if remaining.len() == 0 {
                proof {
                    assert(to_resolve@.len() == 0);
                }
                return Ok(fragments);
            }
            to_resolve = remaining;
        }
        if to_resolve.len() > 0 {
            return Err(GraphqlError::FragmentResolverFailed);
        }
        Ok(fragments)
    }
}

/// A table that only grew by one consistent, spread-free body stays
/// consistent and spread-free.
proof fn lemma_frags_consistent_insert(fields: FieldsV, pre: FragsV, cur: FragsV)
    requires
        frags_consistent(fields, pre),
        frags_resolved_flags(pre),
        exists|k: Seq<char>, v: FragmentV|
            cur == crate::strmap::sm_insert(pre, k, v) && tree_consistent(
                fields,
                v.cond,
                v.selections.selections,
            ) && v.selections.has_fragments == false,
    ensures
        frags_consistent(fields, cur),
        frags_resolved_flags(cur),
{
    let (k, v): (Seq<char>, FragmentV) = choose|k: Seq<char>, v: FragmentV|
        cur == crate::strmap::sm_insert(pre, k, v) && tree_consistent(
            fields,
            v.cond,
            v.selections.selections,
        ) && v.selections.has_fragments == false;
    assert forall|i: int|
        0 <= i < cur.len() implies tree_consistent(
        fields,
        (#[trigger] cur[i]).1.cond,
        cur[i].1.selections.selections,
    ) && cur[i].1.selections.has_fragments == false by {
        if sm_contains(pre, k) {
            if i != crate::strmap::sm_index(pre, k) {
                assert(cur[i] == pre[i]);
            } else {
                assert(cur[i].1 == v);
            }
        } else {
            if i < pre.len() {
                assert(cur[i] == pre[i]);
            } else {
                assert(cur[i].1 == v);
            }
        }
    }
}

} // verus!
