//! The hierarchical selection language: raw syntax and its parser.
//! Operations, fragment definitions with `on TYPE` conditions, fragment
//! spreads, field arguments (scalar literals, object literals, enum
//! values) and aliases. The raw tree carries no schema knowledge; the
//! selection builder checks it against the reflection schema.

use crate::lex::{TokKind, Token};
use vstd::prelude::*;
use vstd::string::StringSliceAdditionalSpecFns;

verus! {

/// A literal argument value.
#[derive(Debug)]
pub enum GqlValue {
    IntVal(i64),
    StrVal(String),
    BoolVal(bool),
    EnumVal(String),
    ObjVal(Vec<(String, GqlValue)>),
}

/// One raw field selection.
#[derive(Debug)]
pub struct RawField {
    pub alias: Option<String>,
    pub name: String,
    pub args: Vec<(String, GqlValue)>,
    pub set: Vec<RawSelection>,
}

/// One raw selection: a field or a fragment spread.
#[derive(Debug)]
pub enum RawSelection {
    RawFieldSel(RawField),
    RawSpread(String),
}

/// The kind of an operation definition.
#[derive(Clone, Copy, Debug, PartialEq, Eq, Structural)]
pub enum OpKind {
    BareOp,
    QueryOp,
    MutationOp,
    SubscriptionOp,
}

/// One definition of a request document.
#[derive(Debug)]
pub enum RawDefinition {
    RawOp { kind: OpKind, name: Option<String>, set: Vec<RawSelection> },
    RawFragment { name: String, cond: String, set: Vec<RawSelection> },
}

/// A parsed request document.
#[derive(Debug)]
pub struct QueryDoc {
    pub defs: Vec<RawDefinition>,
}

/// A literal value as mathematics.
#[verifier::ext_equal]
pub enum GqlValueV {
    IntValV { n: int },
    StrValV { s: Seq<char> },
    BoolValV { b: bool },
    EnumValV { s: Seq<char> },
    ObjValV { entries: Seq<(Seq<char>, GqlValueV)> },
}

/// A raw selection as mathematics: a spread, or a field with its alias,
/// arguments and nested block.
#[verifier::ext_equal]
pub enum RawSelectionV {
    RawFieldSelV {
        alias: Option<Seq<char>>,
        name: Seq<char>,
        args: Seq<(Seq<char>, GqlValueV)>,
        set: Seq<RawSelectionV>,
    },
    RawSpreadV { name: Seq<char> },
}

/// A definition as mathematics.
#[verifier::ext_equal]
pub enum RawDefinitionV {
    RawOpV { kind: OpKind, name: Option<Seq<char>>, set: Seq<RawSelectionV> },
    RawFragmentV { name: Seq<char>, cond: Seq<char>, set: Seq<RawSelectionV> },
}

pub open spec fn gql_value_view(v: GqlValue) -> GqlValueV
    decreases v,
{
    match v {
        GqlValue::IntVal(n) => GqlValueV::IntValV { n: n as int },
        GqlValue::StrVal(s) => GqlValueV::StrValV { s: s@ },
        GqlValue::BoolVal(b) => GqlValueV::BoolValV { b },
        GqlValue::EnumVal(s) => GqlValueV::EnumValV { s: s@ },
        GqlValue::ObjVal(entries) => GqlValueV::ObjValV { entries: gql_entries_view(entries@) },
    }
}

pub open spec fn gql_entries_view(es: Seq<(String, GqlValue)>) -> Seq<(Seq<char>, GqlValueV)>
    decreases es,
{
    if es.len() == 0 {
        Seq::empty()
    } else {
        seq![(es[0].0@, gql_value_view(es[0].1))] + gql_entries_view(es.drop_first())
    }
}

pub open spec fn raw_sel_view(s: RawSelection) -> RawSelectionV
    decreases s,
{
    match s {
        RawSelection::RawFieldSel(f) => RawSelectionV::RawFieldSelV {
            alias: match f.alias {
                Some(a) => Some(a@),
                None => None,
            },
            name: f.name@,
            args: gql_entries_view(f.args@),
            set: raw_sels_view(f.set@),
        },
        RawSelection::RawSpread(n) => RawSelectionV::RawSpreadV { name: n@ },
    }
}

pub open spec fn raw_sels_view(ss: Seq<RawSelection>) -> Seq<RawSelectionV>
    decreases ss,
{
    if ss.len() == 0 {
        Seq::empty()
    } else {
        seq![raw_sel_view(ss[0])] + raw_sels_view(ss.drop_first())
    }
}

pub proof fn lemma_gql_entries_view_push(es: Seq<(String, GqlValue)>, e: (String, GqlValue))
    ensures
        gql_entries_view(es.push(e)) == gql_entries_view(es).push((e.0@, gql_value_view(e.1))),
    decreases es,
{
    if es.len() == 0 {
        assert(es.push(e)[0] == e);
        assert(es.push(e).drop_first() =~~= Seq::<(String, GqlValue)>::empty());
        assert(gql_entries_view(es.push(e)) == seq![(e.0@, gql_value_view(e.1))]
            + gql_entries_view(es.push(e).drop_first()));
        assert(gql_entries_view(es.push(e)) =~~= gql_entries_view(es).push(
            (e.0@, gql_value_view(e.1)),
        ));
    } else {
        assert(es.push(e)[0] == es[0]);
        assert(es.push(e).drop_first() =~~= es.drop_first().push(e));
        lemma_gql_entries_view_push(es.drop_first(), e);
        assert(gql_entries_view(es.push(e)) == seq![(es[0].0@, gql_value_view(es[0].1))]
            + gql_entries_view(es.drop_first().push(e)));
        assert(gql_entries_view(es) == seq![(es[0].0@, gql_value_view(es[0].1))]
            + gql_entries_view(es.drop_first()));
        assert(gql_entries_view(es.push(e)) =~~= gql_entries_view(es).push(
            (e.0@, gql_value_view(e.1)),
        ));
    }
}

pub proof fn lemma_raw_sels_view_push(ss: Seq<RawSelection>, x: RawSelection)
    ensures
        raw_sels_view(ss.push(x)) == raw_sels_view(ss).push(raw_sel_view(x)),
    decreases ss,
{
    if ss.len() == 0 {
        assert(ss.push(x)[0] == x);
        assert(ss.push(x).drop_first() =~~= Seq::<RawSelection>::empty());
        assert(raw_sels_view(ss.push(x)) == seq![raw_sel_view(x)] + raw_sels_view(
            ss.push(x).drop_first(),
        ));
        assert(raw_sels_view(ss.push(x)) =~~= raw_sels_view(ss).push(raw_sel_view(x)));
    } else {
        assert(ss.push(x)[0] == ss[0]);
        assert(ss.push(x).drop_first() =~~= ss.drop_first().push(x));
        lemma_raw_sels_view_push(ss.drop_first(), x);
        assert(raw_sels_view(ss.push(x)) == seq![raw_sel_view(ss[0])] + raw_sels_view(
            ss.drop_first().push(x),
        ));
        assert(raw_sels_view(ss) == seq![raw_sel_view(ss[0])] + raw_sels_view(ss.drop_first()));
        assert(raw_sels_view(ss.push(x)) =~~= raw_sels_view(ss).push(raw_sel_view(x)));
    }
}

pub open spec fn raw_def_view(d: RawDefinition) -> RawDefinitionV {
    match d {
        RawDefinition::RawOp { kind, name, set } => RawDefinitionV::RawOpV {
            kind,
            name: match name {
                Some(n) => Some(n@),
                None => None,
            },
            set: raw_sels_view(set@),
        },
        RawDefinition::RawFragment { name, cond, set } => RawDefinitionV::RawFragmentV {
            name: name@,
            cond: cond@,
            set: raw_sels_view(set@),
        },
    }
}

pub open spec fn raw_defs_view(ds: Seq<RawDefinition>) -> Seq<RawDefinitionV> {
    Seq::new(ds.len(), |i: int| raw_def_view(ds[i]))
}

/// The value of one decimal digit, or a mark that the character is
/// none.
pub open spec fn dig_of(c: char) -> int {
    if c == '0' {
        0
    } else if c == '1' {
        1
    } else if c == '2' {
        2
    } else if c == '3' {
        3
    } else if c == '4' {
        4
    } else if c == '5' {
        5
    } else if c == '6' {
        6
    } else if c == '7' {
        7
    } else if c == '8' {
        8
    } else if c == '9' {
        9
    } else {
        -1
    }
}

/// The decimal accumulator, with the same overflow guard the reader
/// applies.
pub open spec fn int_accum_vspec(s: Seq<char>, i: int, x: int) -> Option<int>
    decreases s.len() - i
        when 0 <= i <= s.len()
{
    if i >= s.len() {
        Some(x)
    } else if dig_of(s[i]) < 0 {
        None
    } else if x > (i64::MAX - dig_of(s[i])) / 10 {
        None
    } else {
        int_accum_vspec(s, i + 1, x * 10 + dig_of(s[i]))
    }
}

/// The integer a decimal literal denotes, `None` on a malformed or
/// overflowing spelling.
pub open spec fn int_text_vspec(s: Seq<char>) -> Option<int> {
    if s.len() == 0 {
        None
    } else if s[0] == '-' {
        if s.len() <= 1 {
            None
        } else {
            match int_accum_vspec(s, 1, 0) {
                Some(x) => Some(-x),
                None => None,
            }
        }
    } else {
        int_accum_vspec(s, 0, 0)
    }
}

/// The literal-value grammar as a function of the tokens.
pub open spec fn value_vspec(toks: Seq<crate::lex::TokV>, pos: int) -> Option<(GqlValueV, int)>
    decreases toks.len() - pos, 1nat
        when 0 <= pos <= toks.len()
{
    if pos >= toks.len() {
        None
    } else if toks[pos].kind == TokKind::IntLit {
        match int_text_vspec(toks[pos].text) {
            Some(n) => Some((GqlValueV::IntValV { n }, pos + 1)),
            None => None,
        }
    } else if toks[pos].kind == TokKind::StrLit {
        Some((GqlValueV::StrValV { s: toks[pos].text }, pos + 1))
    } else if toks[pos].kind == TokKind::Name {
        if toks[pos].text == "true"@ {
            Some((GqlValueV::BoolValV { b: true }, pos + 1))
        } else if toks[pos].text == "false"@ {
            Some((GqlValueV::BoolValV { b: false }, pos + 1))
        } else {
            Some((GqlValueV::EnumValV { s: toks[pos].text }, pos + 1))
        }
    } else if toks[pos].kind == TokKind::LBrace {
        match obj_entries_vspec(toks, pos + 1, Seq::empty()) {
            None => None,
            Some((entries, p)) => if p < toks.len() && toks[p].kind == TokKind::RBrace {
                Some((GqlValueV::ObjValV { entries }, p + 1))
            } else {
                None
            },
        }
    } else {
        None
    }
}

/// The entries of an object literal, read while a name stands next.
pub open spec fn obj_entries_vspec(
    toks: Seq<crate::lex::TokV>,
    pos: int,
    acc: Seq<(Seq<char>, GqlValueV)>,
) -> Option<(Seq<(Seq<char>, GqlValueV)>, int)>
    decreases toks.len() - pos, 2nat
        when 0 <= pos <= toks.len()
{
    if pos < toks.len() && toks[pos].kind == TokKind::Name {
        if pos + 1 >= toks.len() || toks[pos + 1].kind != TokKind::Colon {
            None
        } else {
            match value_vspec(toks, pos + 2) {
                None => None,
                Some((v, p2)) => if pos < p2 <= toks.len() {
                    obj_entries_vspec(toks, p2, acc.push((toks[pos].text, v)))
                } else {
                    None
                },
            }
        }
    } else {
        Some((acc, pos))
    }
}

/// The argument list of a field, read while a name stands next.
pub open spec fn args_vspec(
    toks: Seq<crate::lex::TokV>,
    pos: int,
    acc: Seq<(Seq<char>, GqlValueV)>,
) -> Option<(Seq<(Seq<char>, GqlValueV)>, int)>
    decreases toks.len() - pos, 2nat
        when 0 <= pos <= toks.len()
{
    if pos < toks.len() && toks[pos].kind == TokKind::Name {
        if pos + 1 >= toks.len() || toks[pos + 1].kind != TokKind::Colon {
            None
        } else {
            match value_vspec(toks, pos + 2) {
                None => None,
                Some((v, p2)) => if pos < p2 <= toks.len() {
                    args_vspec(toks, p2, acc.push((toks[pos].text, v)))
                } else {
                    None
                },
            }
        }
    } else {
        Some((acc, pos))
    }
}

/// The selection grammar as a function of the tokens: a spread, or a
/// field with optional alias, arguments and nested block.
pub open spec fn selection_vspec(toks: Seq<crate::lex::TokV>, pos: int) -> Option<
    (RawSelectionV, int),
>
    decreases toks.len() - pos, 3nat
        when 0 <= pos < toks.len()
{
    if toks[pos].kind == TokKind::Spread {
        if pos + 1 >= toks.len() || toks[pos + 1].kind != TokKind::Name {
            None
        } else {
            Some((RawSelectionV::RawSpreadV { name: toks[pos + 1].text }, pos + 2))
        }
    } else if toks[pos].kind != TokKind::Name {
        None
    } else {
        let aliased = toks.len() - (pos + 1) > 1 && toks[pos + 1].kind == TokKind::Colon
            && toks[pos + 2].kind == TokKind::Name;
        let alias: Option<Seq<char>> = if aliased {
            Some(toks[pos].text)
        } else {
            None
        };
        let name = if aliased {
            toks[pos + 2].text
        } else {
            toks[pos].text
        };
        let p1: int = if aliased {
            pos + 3
        } else {
            pos + 1
        };
        let argsr = if p1 < toks.len() && toks[p1].kind == TokKind::LParen {
            match args_vspec(toks, p1 + 1, Seq::empty()) {
                None => None,
                Some((args, pa)) => if pa < toks.len() && toks[pa].kind == TokKind::RParen {
                    Some((args, pa + 1))
                } else {
                    None
                },
            }
        } else {
            Some((Seq::empty(), p1))
        };
        match argsr {
            None => None,
            Some((args, p2)) => {
                if p2 < toks.len() && toks[p2].kind == TokKind::LBrace {
                    if pos < p2 {
                        match selection_set_vspec(toks, p2) {
                            None => None,
                            Some((set, p3)) => Some(
                                (RawSelectionV::RawFieldSelV { alias, name, args, set }, p3),
                            ),
                        }
                    } else {
                        None
                    }
                } else {
                    Some(
                        (
                            RawSelectionV::RawFieldSelV {
                                alias,
                                name,
                                args,
                                set: Seq::empty(),
                            },
                            p2,
                        ),
                    )
                }
            },
        }
    }
}

/// The selections of a block, read while a name or spread stands next.
pub open spec fn sels_vspec(
    toks: Seq<crate::lex::TokV>,
    pos: int,
    acc: Seq<RawSelectionV>,
) -> Option<(Seq<RawSelectionV>, int)>
    decreases toks.len() - pos, 5nat
        when 0 <= pos <= toks.len()
{
    if pos < toks.len() && (toks[pos].kind == TokKind::Name || toks[pos].kind == TokKind::Spread) {
        match selection_vspec(toks, pos) {
            None => None,
            Some((sel, p2)) => if pos < p2 <= toks.len() {
                sels_vspec(toks, p2, acc.push(sel))
            } else {
                None
            },
        }
    } else {
        Some((acc, pos))
    }
}

/// The `{ selections }` block grammar as a function of the tokens.
pub open spec fn selection_set_vspec(toks: Seq<crate::lex::TokV>, pos: int) -> Option<
    (Seq<RawSelectionV>, int),
>
    decreases toks.len() - pos, 4nat
        when 0 <= pos <= toks.len()
{
    if pos >= toks.len() || toks[pos].kind != TokKind::LBrace {
        None
    } else {
        match sels_vspec(toks, pos + 1, Seq::empty()) {
            None => None,
            Some((set, p)) => if p < toks.len() && toks[p].kind == TokKind::RBrace {
                Some((set, p + 1))
            } else {
                None
            },
        }
    }
}

/// The definition grammar as a function of the tokens: a bare block, a
/// fragment definition, or a keyed operation.
pub open spec fn definition_vspec(toks: Seq<crate::lex::TokV>, pos: int) -> Option<
    (RawDefinitionV, int),
> {
    if pos >= toks.len() {
        None
    } else if toks[pos].kind == TokKind::LBrace {
        match selection_set_vspec(toks, pos) {
            None => None,
            Some((set, p2)) => Some(
                (RawDefinitionV::RawOpV { kind: OpKind::BareOp, name: None, set }, p2),
            ),
        }
    } else if toks[pos].kind != TokKind::Name {
        None
    } else if toks[pos].text == "fragment"@ {
        if toks.len() - pos < 4 {
            None
        } else if toks[pos + 1].kind != TokKind::Name || !(toks[pos + 2].kind == TokKind::Name
            && toks[pos + 2].text == "on"@) || toks[pos + 3].kind != TokKind::Name {
            None
        } else {
            match selection_set_vspec(toks, pos + 4) {
                None => None,
                Some((set, p2)) => Some(
                    (
                        RawDefinitionV::RawFragmentV {
                            name: toks[pos + 1].text,
                            cond: toks[pos + 3].text,
                            set,
                        },
                        p2,
                    ),
                ),
            }
        }
    } else {
        let kindr: Option<OpKind> = if toks[pos].text == "query"@ {
            Some(OpKind::QueryOp)
        } else if toks[pos].text == "mutation"@ {
            Some(OpKind::MutationOp)
        } else if toks[pos].text == "subscription"@ {
            Some(OpKind::SubscriptionOp)
        } else {
            None
        };
        match kindr {
            None => None,
            Some(kind) => {
                let named = pos + 1 < toks.len() && toks[pos + 1].kind == TokKind::Name;
                let name: Option<Seq<char>> = if named {
                    Some(toks[pos + 1].text)
                } else {
                    None
                };
                let p: int = if named {
                    pos + 2
                } else {
                    pos + 1
                };
                if p >= toks.len() {
                    None
                } else {
                    match selection_set_vspec(toks, p) {
                        None => None,
                        Some((set, p2)) => Some((RawDefinitionV::RawOpV { kind, name, set }, p2)),
                    }
                }
            },
        }
    }
}

/// The definitions of a request document, read to the end of the
/// tokens.
pub open spec fn defs_vspec(
    toks: Seq<crate::lex::TokV>,
    pos: int,
    acc: Seq<RawDefinitionV>,
) -> Option<Seq<RawDefinitionV>>
    decreases toks.len() - pos
        when 0 <= pos <= toks.len()
{
    if pos >= toks.len() {
        Some(acc)
    } else {
        match definition_vspec(toks, pos) {
            None => None,
            Some((d, p2)) => if pos < p2 <= toks.len() {
                defs_vspec(toks, p2, acc.push(d))
            } else {
                None
            },
        }
    }
}

/// The request document a piece of text denotes: the lexer's reading of
/// the text fed to the request grammar, `None` when either refuses.
pub open spec fn query_doc_of(text: &str) -> Option<Seq<RawDefinitionV>> {
    if text.is_ascii() && crate::lex::toks_spec(text.spec_bytes(), 0) is Some {
        defs_vspec(crate::lex::toks_spec(text.spec_bytes(), 0)->Some_0, 0, Seq::empty())
    } else {
        None
    }
}

/// The value of a decimal literal, read with an overflow guard.
fn parse_int_text(s: &str) -> (r: Option<i64>)
    ensures
        match r {
            Some(n) => int_text_vspec(s@) == Some(n as int),
            None => int_text_vspec(s@) is None,
        },
{
    let n = s.unicode_len();
    if n == 0 {
        return None;
    }
    let negative = s.get_char(0) == '-';
    let mut i: usize = if negative {
        1
    } else {
        0
    };
    let ghost start = i as int;
    if i >= n {
        return None;
    }
    let mut x: i64 = 0;
    while i < n
        invariant
            start <= i <= n,
            n == s@.len(),
            0 <= x,
            start == (if s@[0] == '-' {
                1int
            } else {
                0int
            }),
            negative == (s@[0] == '-'),
            int_accum_vspec(s@, start, 0) == int_accum_vspec(s@, i as int, x as int),
        decreases n - i,
    {
        let ghost i0 = i as int;
        let ghost x0 = x as int;
        let c = s.get_char(i);
        let d: i64 = match c {
            '0' => 0i64, '1' => 1i64, '2' => 2i64, '3' => 3i64, '4' => 4i64,
            '5' => 5i64, '6' => 6i64, '7' => 7i64, '8' => 8i64, '9' => 9i64,
            _ => {
                proof {
                    assert(dig_of(s@[i0]) < 0);
                    assert(int_accum_vspec(s@, i0, x0) is None);
                }
                return None;
            },
        };
        proof {
            assert(dig_of(s@[i0]) == d as int);
        }
        if x > (i64::MAX - d) / 10 {
            proof {
                assert(int_accum_vspec(s@, i0, x0) is None);
            }
            return None;
        }
        x = x * 10 + d;
        i = i + 1;
        proof {
            assert(int_accum_vspec(s@, i0, x0) == int_accum_vspec(s@, i as int, x as int));
        }
    }
    proof {
        assert(int_accum_vspec(s@, i as int, x as int) == Some(x as int));
    }
    if negative {
        Some(-x)
    } else {
        Some(x)
    }
}

/// Parses one literal value at `pos`.
fn parse_value(toks: &Vec<Token>, pos: usize) -> (r: Option<(GqlValue, usize)>)
    requires
        pos <= toks@.len(),
    ensures
        match r {
            Some((v, p2)) => pos < p2 <= toks@.len() && value_vspec(
                crate::lex::tok_views(toks@),
                pos as int,
            ) == Some((gql_value_view(v), p2 as int)),
            None => value_vspec(crate::lex::tok_views(toks@), pos as int) is None,
        },
    decreases toks@.len() - pos,
{
    let ghost toksv = crate::lex::tok_views(toks@);
    if pos >= toks.len() {
        return None;
    }
    let t = &toks[pos];
    if t.kind == TokKind::IntLit {
        match parse_int_text(t.text.as_str()) {
            Some(n) => Some((GqlValue::IntVal(n), pos + 1)),
            None => None,
        }
    } else if t.kind == TokKind::StrLit {
        Some((GqlValue::StrVal(t.text.clone()), pos + 1))
    } else if t.kind == TokKind::Name {
        if crate::strutil::str_eq(t.text.as_str(), "true") {
            Some((GqlValue::BoolVal(true), pos + 1))
        } else if crate::strutil::str_eq(t.text.as_str(), "false") {
            Some((GqlValue::BoolVal(false), pos + 1))
        } else {
            Some((GqlValue::EnumVal(t.text.clone()), pos + 1))
        }
    } else if t.kind == TokKind::LBrace {
        let mut entries: Vec<(String, GqlValue)> = Vec::new();
        let mut p = pos + 1;
        proof {
            assert(gql_entries_view(entries@) =~~= Seq::<(Seq<char>, GqlValueV)>::empty());
            assert(toksv[pos as int].kind == TokKind::LBrace);
        }
        while p < toks.len() && toks[p].kind == TokKind::Name
            invariant
                pos < p <= toks@.len(),
                toksv == crate::lex::tok_views(toks@),
                toksv[pos as int].kind == TokKind::LBrace,
                obj_entries_vspec(toksv, pos + 1, Seq::empty()) == obj_entries_vspec(
                    toksv,
                    p as int,
                    gql_entries_view(entries@),
                ),
            decreases toks@.len() - p,
        {
            let ghost p0 = p as int;
            let ghost acc0 = gql_entries_view(entries@);
            let ghost en0 = entries@;
            let key = toks[p].text.clone();
            if p + 1 >= toks.len() || toks[p + 1].kind != TokKind::Colon {
                proof {
                    assert(obj_entries_vspec(toksv, p0, acc0) is None);
                    assert(value_vspec(toksv, pos as int) is None);
                }
                return None;
            }
            let (v, p2) = match parse_value(toks, p + 2) {
                Some(x) => x,
                None => {
                    proof {
                        assert(obj_entries_vspec(toksv, p0, acc0) is None);
                        assert(value_vspec(toksv, pos as int) is None);
                    }
                    return None;
                },
            };
            entries.push((key, v));
            p = p2;
            proof {
                assert(entries@ =~= en0.push((key, v)));
                lemma_gql_entries_view_push(en0, (key, v));
                assert(gql_entries_view(entries@) == acc0.push((key@, gql_value_view(v))));
                assert(obj_entries_vspec(toksv, p0, acc0) == obj_entries_vspec(
                    toksv,
                    p as int,
                    gql_entries_view(entries@),
                ));
            }
        }
        proof {
            assert(obj_entries_vspec(toksv, p as int, gql_entries_view(entries@)) == Some(
                (gql_entries_view(entries@), p as int),
            ));
        }
        if p >= toks.len() || toks[p].kind != TokKind::RBrace {
            return None;
        }
        let ov = GqlValue::ObjVal(entries);
        proof {
            assert(gql_value_view(ov) == (GqlValueV::ObjValV {
                entries: gql_entries_view(ov->ObjVal_0@),
            }));
        }
        Some((ov, p + 1))
    } else {
        None
    }
}

/// Parses a `{ selections }` block at `pos`.
fn parse_selection_set(toks: &Vec<Token>, pos: usize) -> (r: Option<(Vec<RawSelection>, usize)>)
    requires
        pos <= toks@.len(),
    ensures
        match r {
            Some((set, p2)) => pos < p2 <= toks@.len() && selection_set_vspec(
                crate::lex::tok_views(toks@),
                pos as int,
            ) == Some((raw_sels_view(set@), p2 as int)),
            None => selection_set_vspec(crate::lex::tok_views(toks@), pos as int) is None,
        },
    decreases toks@.len() - pos, 0nat,
{
    let ghost toksv = crate::lex::tok_views(toks@);
    if pos >= toks.len() || toks[pos].kind != TokKind::LBrace {
        return None;
    }
    let mut set: Vec<RawSelection> = Vec::new();
    let mut p = pos + 1;
    proof {
        assert(toksv[pos as int].kind == TokKind::LBrace);
        assert(raw_sels_view(set@) =~~= Seq::<RawSelectionV>::empty());
    }
    while p < toks.len() && (toks[p].kind == TokKind::Name || toks[p].kind == TokKind::Spread)
        invariant
            pos < p <= toks@.len(),
            toksv == crate::lex::tok_views(toks@),
            toksv[pos as int].kind == TokKind::LBrace,
            sels_vspec(toksv, pos + 1, Seq::empty()) == sels_vspec(
                toksv,
                p as int,
                raw_sels_view(set@),
            ),
        decreases toks@.len() - p,
    {
        let ghost p0 = p as int;
        let ghost acc0 = raw_sels_view(set@);
        let ghost set0 = set@;
        let (sel, p2) = match parse_selection(toks, p) {
            Some(x) => x,
            None => {
                proof {
                    assert(sels_vspec(toksv, p0, acc0) is None);
                    assert(selection_set_vspec(toksv, pos as int) is None);
                }
                return None;
            },
        };
        set.push(sel);
        p = p2;
        proof {
            assert(set@ =~= set0.push(sel));
            lemma_raw_sels_view_push(set0, sel);
            assert(sels_vspec(toksv, p0, acc0) == sels_vspec(
                toksv,
                p as int,
                raw_sels_view(set@),
            ));
        }
    }
    proof {
        assert(sels_vspec(toksv, p as int, raw_sels_view(set@)) == Some(
            (raw_sels_view(set@), p as int),
        ));
    }
    if p >= toks.len() || toks[p].kind != TokKind::RBrace {
        return None;
    }
    Some((set, p + 1))
}

/// Parses one selection: a spread `...Name`, or a field with optional
/// alias, arguments and nested block.
fn parse_selection(toks: &Vec<Token>, pos: usize) -> (r: Option<(RawSelection, usize)>)
    requires
        pos < toks@.len(),
    ensures
        match r {
            Some((sel, p2)) => pos < p2 <= toks@.len() && selection_vspec(
                crate::lex::tok_views(toks@),
                pos as int,
            ) == Some((raw_sel_view(sel), p2 as int)),
            None => selection_vspec(crate::lex::tok_views(toks@), pos as int) is None,
        },
    decreases toks@.len() - pos, 1nat,
{
    let ghost toksv = crate::lex::tok_views(toks@);
    let n = toks.len();
    if toks[pos].kind == TokKind::Spread {
        if pos + 1 >= toks.len() || toks[pos + 1].kind != TokKind::Name {
            return None;
        }
        return Some((RawSelection::RawSpread(toks[pos + 1].text.clone()), pos + 2));
    }
    if toks[pos].kind != TokKind::Name {
        return None;
    }
    let mut alias: Option<String> = None;
    let mut name = toks[pos].text.clone();
    let mut p = pos + 1;
    if n - p > 1 && toks[p].kind == TokKind::Colon && toks[p + 1].kind == TokKind::Name {
        alias = Some(name);
        name = toks[p + 1].text.clone();
        p = p + 2;
    }
    let ghost aliasedv = toksv.len() - (pos + 1) > 1 && toksv[pos + 1].kind == TokKind::Colon
        && toksv[pos + 2].kind == TokKind::Name;
    let ghost aliasv: Option<Seq<char>> = if aliasedv {
        Some(toksv[pos as int].text)
    } else {
        None
    };
    let ghost namev: Seq<char> = if aliasedv {
        toksv[pos + 2].text
    } else {
        toksv[pos as int].text
    };
    let ghost p1v = p as int;
    proof {
        assert(match alias {
            Some(a) => aliasv == Some(a@),
            None => aliasv is None,
        });
        assert(name@ == namev);
    }
    let mut args: Vec<(String, GqlValue)> = Vec::new();
    let ghost mut argsr: Option<(Seq<(Seq<char>, GqlValueV)>, int)> = Some((Seq::empty(), p1v));
    if p < toks.len() && toks[p].kind == TokKind::LParen {
        p = p + 1;
        proof {
            assert(gql_entries_view(args@) =~~= Seq::<(Seq<char>, GqlValueV)>::empty());
        }
        while p < toks.len() && toks[p].kind == TokKind::Name
            invariant
                pos < p <= toks@.len(),
                toksv == crate::lex::tok_views(toks@),
                pos < toks@.len(),
                toksv[pos as int].kind == TokKind::Name,
                aliasedv == (toksv.len() - (pos + 1) > 1 && toksv[pos + 1].kind
                    == TokKind::Colon && toksv[pos + 2].kind == TokKind::Name),
                p1v == (if aliasedv {
                    pos + 3int
                } else {
                    pos + 1int
                }),
                0 <= p1v < toks@.len() && toksv[p1v].kind == TokKind::LParen,
                args_vspec(toksv, p1v + 1, Seq::empty()) == args_vspec(
                    toksv,
                    p as int,
                    gql_entries_view(args@),
                ),
            decreases toks@.len() - p,
        {
            let ghost p0 = p as int;
            let ghost acc0 = gql_entries_view(args@);
            let ghost args0 = args@;
            let arg = toks[p].text.clone();
            if p + 1 >= toks.len() || toks[p + 1].kind != TokKind::Colon {
                proof {
                    assert(args_vspec(toksv, p0, acc0) is None);
                    assert(selection_vspec(toksv, pos as int) is None);
                }
                return None;
            }
            let (v, p2) = match parse_value(toks, p + 2) {
                Some(x) => x,
                None => {
                    proof {
                        assert(args_vspec(toksv, p0, acc0) is None);
                        assert(selection_vspec(toksv, pos as int) is None);
                    }
                    return None;
                },
            };
            args.push((arg, v));
            p = p2;
            proof {
                assert(args@ =~= args0.push((arg, v)));
                lemma_gql_entries_view_push(args0, (arg, v));
                assert(args_vspec(toksv, p0, acc0) == args_vspec(
                    toksv,
                    p as int,
                    gql_entries_view(args@),
                ));
            }
        }
        proof {
            assert(args_vspec(toksv, p as int, gql_entries_view(args@)) == Some(
                (gql_entries_view(args@), p as int),
            ));
        }
        if p >= toks.len() || toks[p].kind != TokKind::RParen {
            proof {
                assert(selection_vspec(toksv, pos as int) is None);
            }
            return None;
        }
        p = p + 1;
        proof {
            argsr = Some((gql_entries_view(args@), p as int));
        }
    }
    proof {
        assert(argsr == Some((gql_entries_view(args@), p as int)));
    }
    let mut set: Vec<RawSelection> = Vec::new();
    if p < toks.len() && toks[p].kind == TokKind::LBrace {
        let (s, p2) = match parse_selection_set(toks, p) {
            Some(x) => x,
            None => {
                proof {
                    assert(selection_vspec(toksv, pos as int) is None);
                }
                return None;
            },
        };
        set = s;
        p = p2;
    }
    let sel = RawSelection::RawFieldSel(RawField { alias, name, args, set });
    proof {
        assert(raw_sel_view(sel) == (RawSelectionV::RawFieldSelV {
            alias: aliasv,
            name: namev,
            args: gql_entries_view(args@),
            set: raw_sels_view(set@),
        }));
        assert(selection_vspec(toksv, pos as int) == Some((raw_sel_view(sel), p as int)));
    }
    Some((sel, p))
}

/// Parses one definition: an operation or a fragment definition.
fn parse_definition(toks: &Vec<Token>, pos: usize) -> (r: Option<(RawDefinition, usize)>)
    requires
        pos < toks@.len(),
    ensures
        match r {
            Some((d, p2)) => pos < p2 <= toks@.len() && definition_vspec(
                crate::lex::tok_views(toks@),
                pos as int,
            ) == Some((raw_def_view(d), p2 as int)),
            None => definition_vspec(crate::lex::tok_views(toks@), pos as int) is None,
        },
{
    let ghost toksv = crate::lex::tok_views(toks@);
    if toks[pos].kind == TokKind::LBrace {
        let (set, p2) = match parse_selection_set(toks, pos) {
            Some(x) => x,
            None => {
                return None;
            },
        };
        return Some((RawDefinition::RawOp { kind: OpKind::BareOp, name: None, set }, p2));
    }
    if toks[pos].kind != TokKind::Name {
        return None;
    }
    if crate::strutil::str_eq(toks[pos].text.as_str(), "fragment") {
        if toks.len() - pos < 4 {
            return None;
        }
        if toks[pos + 1].kind != TokKind::Name || !crate::strutil::str_eq(
            toks[pos + 2].text.as_str(),
            "on",
        ) || toks[pos + 2].kind != TokKind::Name || toks[pos + 3].kind != TokKind::Name {
            return None;
        }
        let name = toks[pos + 1].text.clone();
        let cond = toks[pos + 3].text.clone();
        let (set, p2) = match parse_selection_set(toks, pos + 4) {
            Some(x) => x,
            None => {
                return None;
            },
        };
        return Some((RawDefinition::RawFragment { name, cond, set }, p2));
    }
    let kind = if crate::strutil::str_eq(toks[pos].text.as_str(), "query") {
        OpKind::QueryOp
    } else if crate::strutil::str_eq(toks[pos].text.as_str(), "mutation") {
        OpKind::MutationOp
    } else if crate::strutil::str_eq(toks[pos].text.as_str(), "subscription") {
        OpKind::SubscriptionOp
    } else {
        return None;
    };
    let n = toks.len();
    let mut p: usize = pos + 1;
    let mut name: Option<String> = None;
    if p < toks.len() && toks[p].kind == TokKind::Name {
        name = Some(toks[p].text.clone());
        p = p + 1;
    }
    if p >= toks.len() {
        return None;
    }
    let (set, p2) = match parse_selection_set(toks, p) {
        Some(x) => x,
        None => {
            return None;
        },
    };
    Some((RawDefinition::RawOp { kind, name, set }, p2))
}

/// Parses request text into its raw definitions. The shape of what it
/// accepts is pinned by the selection builder's contracts and the
/// scenario tests; text that does not scan or parse is refused.
pub fn parse_query_doc(text: &str) -> (r: Option<QueryDoc>)
    ensures
        r is Some <==> query_doc_of(text) is Some,
        match r {
            Some(d) => query_doc_of(text) == Some(raw_defs_view(d.defs@)),
            None => true,
        },
{
    let toks = match crate::lex::tokenize(text) {
        Some(t) => t,
        None => {
            return None;
        },
    };
    let ghost toksv = crate::lex::tok_views(toks@);
    let mut defs: Vec<RawDefinition> = Vec::new();
    let mut p: usize = 0;
    proof {
        assert(raw_defs_view(defs@) =~~= Seq::<RawDefinitionV>::empty());
    }
    while p < toks.len()
        invariant
            p <= toks@.len(),
            toksv == crate::lex::tok_views(toks@),
            crate::lex::toks_spec(text.spec_bytes(), 0) == Some(toksv),
            text.is_ascii(),
            defs_vspec(toksv, 0, Seq::empty()) == defs_vspec(
                toksv,
                p as int,
                raw_defs_view(defs@),
            ),
        decreases toks@.len() - p,
    {
        let ghost p0 = p as int;
        let ghost ds0 = defs@;
        let (d, p2) = match parse_definition(&toks, p) {
            Some(x) => x,
            None => {
                proof {
                    assert(defs_vspec(toksv, p0, raw_defs_view(ds0)) is None);
                }
                return None;
            },
        };
        defs.push(d);
        p = p2;
        proof {
            assert(defs@ =~= ds0.push(d));
            assert(raw_defs_view(defs@) =~~= raw_defs_view(ds0).push(raw_def_view(d)));
            assert(defs_vspec(toksv, p0, raw_defs_view(ds0)) == defs_vspec(
                toksv,
                p as int,
                raw_defs_view(defs@),
            ));
        }
    }
    proof {
        assert(defs_vspec(toksv, p as int, raw_defs_view(defs@)) == Some(raw_defs_view(defs@)));
        assert(query_doc_of(text) == Some(raw_defs_view(defs@)));
    }
    Some(QueryDoc { defs })
}

} // verus!
