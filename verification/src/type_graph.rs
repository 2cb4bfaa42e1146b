//! The declarative type-graph: its abstract syntax, its parser, and the
//! registry of built-in leaf types.
//!
//! A document is a sequence of definitions: one `schema { query: NAME }`
//! root declaration and object definitions `type NAME { field: TypeRef
//! @directive ... }`. A type reference is a name, a list wrapper or a
//! non-null wrapper; the directives are `@unique`, `@indexed` and
//! `@join(on: FIELD)`.
//!
//! The parser's contract ties the parse back to the text: a document it
//! accepts flattens, token for token, to the lexer's reading of the
//! input.

use crate::lex::{lemma_toks_spec_wf, tok_views, toks_spec, wf_toks, TokKind, TokV, Token};
use vstd::prelude::*;
use vstd::string::StringSliceAdditionalSpecFns;

verus! {

/// A reference to a type: a name, possibly wrapped as list or non-null.
#[derive(Debug)]
pub enum TypeRef {
    Named(String),
    ListOf(Box<TypeRef>),
    NonNull(Box<TypeRef>),
}

impl Clone for TypeRef {
    fn clone(&self) -> (r: Self)
        ensures
            r == *self,
        decreases self,
    {
        match self {
            TypeRef::Named(n) => TypeRef::Named(n.clone()),
            TypeRef::ListOf(inner) => TypeRef::ListOf(Box::new((**inner).clone())),
            TypeRef::NonNull(inner) => TypeRef::NonNull(Box::new((**inner).clone())),
        }
    }
}

/// A field directive, in source order.
#[derive(Clone, Debug)]
pub enum Directive {
    Unique,
    Indexed,
    Join { on: String },
}

/// One field of an object definition.
#[derive(Clone, Debug)]
pub struct FieldDef {
    pub name: String,
    pub field_type: TypeRef,
    pub directives: Vec<Directive>,
}

/// One object definition.
#[derive(Clone, Debug)]
pub struct ObjectDef {
    pub name: String,
    pub fields: Vec<FieldDef>,
}

/// One definition of a document.
#[derive(Clone, Debug)]
pub enum SchemaItem {
    Root { query: String },
    Object(ObjectDef),
}

/// A parsed type-graph document.
#[derive(Clone, Debug)]
pub struct SchemaDoc {
    pub items: Vec<SchemaItem>,
}

/// The schema compiler's error taxonomy: text that does not conform,
/// a missing query root, a list-typed field, a reference to a type the
/// document does not define, and any construct outside the language.
#[derive(Clone, Debug)]
pub enum SchemaError {
    SchemaParse(String),
    MissingQueryRoot,
    ListField(String),
    UnresolvedType(String),
    UnsupportedConstruct(String),
}

pub open spec fn no_text() -> Seq<char> {
    Seq::empty()
}

/// The tokens a type reference flattens to.
pub open spec fn typeref_toks(t: TypeRef) -> Seq<TokV>
    decreases t,
{
    match t {
        TypeRef::Named(n) => seq![TokV { kind: TokKind::Name, text: n@ }],
        TypeRef::ListOf(inner) => seq![TokV { kind: TokKind::LBrack, text: no_text() }] + typeref_toks(*inner)
            + seq![TokV { kind: TokKind::RBrack, text: no_text() }],
        TypeRef::NonNull(inner) => typeref_toks(*inner) + seq![TokV { kind: TokKind::Bang, text: no_text() }],
    }
}

/// The tokens a directive flattens to.
pub open spec fn directive_toks(d: Directive) -> Seq<TokV> {
    match d {
        Directive::Unique => seq![TokV { kind: TokKind::At, text: no_text() }, TokV { kind: TokKind::Name, text: "unique"@ }],
        Directive::Indexed => seq![TokV { kind: TokKind::At, text: no_text() }, TokV { kind: TokKind::Name, text: "indexed"@ }],
        Directive::Join { on } => seq![
            TokV { kind: TokKind::At, text: no_text() },
            TokV { kind: TokKind::Name, text: "join"@ },
            TokV { kind: TokKind::LParen, text: no_text() },
            TokV { kind: TokKind::Name, text: "on"@ },
            TokV { kind: TokKind::Colon, text: no_text() },
            TokV { kind: TokKind::Name, text: on@ },
            TokV { kind: TokKind::RParen, text: no_text() },
        ],
    }
}

pub open spec fn directives_toks(ds: Seq<Directive>) -> Seq<TokV>
    decreases ds.len(),
{
    if ds.len() == 0 {
        Seq::empty()
    } else {
        directive_toks(ds[0]) + directives_toks(ds.drop_first())
    }
}

pub open spec fn field_toks(f: FieldDef) -> Seq<TokV> {
    seq![TokV { kind: TokKind::Name, text: f.name@ }, TokV { kind: TokKind::Colon, text: no_text() }] + typeref_toks(
        f.field_type,
    ) + directives_toks(f.directives@)
}

pub open spec fn fields_toks(fs: Seq<FieldDef>) -> Seq<TokV>
    decreases fs.len(),
{
    if fs.len() == 0 {
        Seq::empty()
    } else {
        field_toks(fs[0]) + fields_toks(fs.drop_first())
    }
}

pub open spec fn item_toks(it: SchemaItem) -> Seq<TokV> {
    match it {
        SchemaItem::Root { query } => seq![
            TokV { kind: TokKind::Name, text: "schema"@ },
            TokV { kind: TokKind::LBrace, text: no_text() },
            TokV { kind: TokKind::Name, text: "query"@ },
            TokV { kind: TokKind::Colon, text: no_text() },
            TokV { kind: TokKind::Name, text: query@ },
            TokV { kind: TokKind::RBrace, text: no_text() },
        ],
        SchemaItem::Object(o) => seq![
            TokV { kind: TokKind::Name, text: "type"@ },
            TokV { kind: TokKind::Name, text: o.name@ },
            TokV { kind: TokKind::LBrace, text: no_text() },
        ] + fields_toks(o.fields@) + seq![TokV { kind: TokKind::RBrace, text: no_text() }],
    }
}

pub open spec fn items_toks(its: Seq<SchemaItem>) -> Seq<TokV>
    decreases its.len(),
{
    if its.len() == 0 {
        Seq::empty()
    } else {
        item_toks(its[0]) + items_toks(its.drop_first())
    }
}

/// The tokens a whole document flattens to.
pub open spec fn doc_toks(d: SchemaDoc) -> Seq<TokV> {
    items_toks(d.items@)
}

proof fn lemma_directives_toks_push(ds: Seq<Directive>, d: Directive)
    ensures
        directives_toks(ds.push(d)) == directives_toks(ds) + directive_toks(d),
    decreases ds.len(),
{
    assert(ds.push(d)[0] == if ds.len() == 0 { d } else { ds[0] });
    if ds.len() == 0 {
        assert(ds.push(d).drop_first() =~= Seq::<Directive>::empty());
        assert(ds.push(d).len() == 1);
        assert(directives_toks(ds.push(d).drop_first()) == Seq::<TokV>::empty());
        assert(directives_toks(ds.push(d)) == directive_toks(d) + directives_toks(
            ds.push(d).drop_first(),
        ));
        assert(directives_toks(ds) == Seq::<TokV>::empty());
        assert(directives_toks(ds.push(d)) =~~= directives_toks(ds) + directive_toks(d));
    } else {
        assert(ds.push(d).drop_first() =~~= ds.drop_first().push(d));
        lemma_directives_toks_push(ds.drop_first(), d);
        assert(directive_toks(ds[0]) + (directives_toks(ds.drop_first()) + directive_toks(
            d,
        )) =~~= (directive_toks(ds[0]) + directives_toks(ds.drop_first())) + directive_toks(
            d,
        ));
        assert(directives_toks(ds.push(d)) =~~= directives_toks(ds) + directive_toks(d));
    }
}

proof fn lemma_fields_toks_push(fs: Seq<FieldDef>, f: FieldDef)
    ensures
        fields_toks(fs.push(f)) == fields_toks(fs) + field_toks(f),
    decreases fs.len(),
{
    assert(fs.push(f)[0] == if fs.len() == 0 { f } else { fs[0] });
    if fs.len() == 0 {
        assert(fs.push(f).drop_first() =~~= Seq::<FieldDef>::empty());
        assert(fs.push(f).len() == 1);
        assert(fields_toks(fs.push(f).drop_first()) == Seq::<TokV>::empty());
        assert(fields_toks(fs.push(f)) == field_toks(f) + fields_toks(
            fs.push(f).drop_first(),
        ));
        assert(fields_toks(fs) == Seq::<TokV>::empty());
        assert(fields_toks(fs.push(f)) =~~= fields_toks(fs) + field_toks(f));
    } else {
        assert(fs.push(f).drop_first() =~~= fs.drop_first().push(f));
        lemma_fields_toks_push(fs.drop_first(), f);
        assert(field_toks(fs[0]) + (fields_toks(fs.drop_first()) + field_toks(f)) =~~= (
        field_toks(fs[0]) + fields_toks(fs.drop_first())) + field_toks(f));
        assert(fields_toks(fs.push(f)) =~~= fields_toks(fs) + field_toks(f));
    }
}

proof fn lemma_items_toks_push(its: Seq<SchemaItem>, it: SchemaItem)
    ensures
        items_toks(its.push(it)) == items_toks(its) + item_toks(it),
    decreases its.len(),
{
    assert(its.push(it)[0] == if its.len() == 0 { it } else { its[0] });
    if its.len() == 0 {
        assert(its.push(it).drop_first() =~~= Seq::<SchemaItem>::empty());
        assert(its.push(it).len() == 1);
        assert(items_toks(its.push(it).drop_first()) == Seq::<TokV>::empty());
        assert(items_toks(its.push(it)) == item_toks(it) + items_toks(
            its.push(it).drop_first(),
        ));
        assert(items_toks(its) == Seq::<TokV>::empty());
        assert(items_toks(its.push(it)) =~~= items_toks(its) + item_toks(it));
    } else {
        assert(its.push(it).drop_first() =~~= its.drop_first().push(it));
        lemma_items_toks_push(its.drop_first(), it);
        assert(item_toks(its[0]) + (items_toks(its.drop_first()) + item_toks(it)) =~~= (
        item_toks(its[0]) + items_toks(its.drop_first())) + item_toks(it));
        assert(items_toks(its.push(it)) =~~= items_toks(its) + item_toks(it));
    }
}

/// A type reference as mathematics: the same shape over character
/// sequences.
#[verifier::ext_equal]
pub enum TypeRefV {
    NamedV { name: Seq<char> },
    ListOfV { inner: Box<TypeRefV> },
    NonNullV { inner: Box<TypeRefV> },
}

/// A directive as mathematics.
#[verifier::ext_equal]
pub enum DirectiveV {
    UniqueV,
    IndexedV,
    JoinV { on: Seq<char> },
}

/// A field definition as mathematics.
#[verifier::ext_equal]
pub struct FieldDefV {
    pub name: Seq<char>,
    pub field_type: TypeRefV,
    pub directives: Seq<DirectiveV>,
}

/// One document definition as mathematics.
#[verifier::ext_equal]
pub enum SchemaItemV {
    RootV { query: Seq<char> },
    ObjectV { name: Seq<char>, fields: Seq<FieldDefV> },
}

pub open spec fn tr_view(t: TypeRef) -> TypeRefV
    decreases t,
{
    match t {
        TypeRef::Named(n) => TypeRefV::NamedV { name: n@ },
        TypeRef::ListOf(inner) => TypeRefV::ListOfV { inner: Box::new(tr_view(*inner)) },
        TypeRef::NonNull(inner) => TypeRefV::NonNullV { inner: Box::new(tr_view(*inner)) },
    }
}

pub open spec fn dir_view(d: Directive) -> DirectiveV {
    match d {
        Directive::Unique => DirectiveV::UniqueV,
        Directive::Indexed => DirectiveV::IndexedV,
        Directive::Join { on } => DirectiveV::JoinV { on: on@ },
    }
}

pub open spec fn dirs_view(ds: Seq<Directive>) -> Seq<DirectiveV> {
    Seq::new(ds.len(), |i: int| dir_view(ds[i]))
}

pub open spec fn field_view(f: FieldDef) -> FieldDefV {
    FieldDefV { name: f.name@, field_type: tr_view(f.field_type), directives: dirs_view(f.directives@) }
}

pub open spec fn fdefs_view(fs: Seq<FieldDef>) -> Seq<FieldDefV> {
    Seq::new(fs.len(), |i: int| field_view(fs[i]))
}

pub open spec fn item_view(it: SchemaItem) -> SchemaItemV {
    match it {
        SchemaItem::Root { query } => SchemaItemV::RootV { query: query@ },
        SchemaItem::Object(o) => SchemaItemV::ObjectV { name: o.name@, fields: fdefs_view(o.fields@) },
    }
}

pub open spec fn items_view(its: Seq<SchemaItem>) -> Seq<SchemaItemV> {
    Seq::new(its.len(), |i: int| item_view(its[i]))
}

/// One name token with the given spelling.
pub open spec fn name_tok(s: Seq<char>) -> TokV {
    TokV { kind: TokKind::Name, text: s }
}

/// The non-null marks standing after a base type, read greedily.
pub open spec fn bangs_vspec(toks: Seq<TokV>, pos: int, t: TypeRefV) -> (TypeRefV, int)
    decreases toks.len() - pos
        when 0 <= pos <= toks.len()
{
    if pos < toks.len() && toks[pos].kind == TokKind::Bang {
        bangs_vspec(toks, pos + 1, TypeRefV::NonNullV { inner: Box::new(t) })
    } else {
        (t, pos)
    }
}

/// The type-reference grammar as a function of the tokens: a name or a
/// bracketed list, then any number of non-null marks.
pub open spec fn typeref_vspec(toks: Seq<TokV>, pos: int) -> Option<(TypeRefV, int)>
    decreases toks.len() - pos
        when 0 <= pos <= toks.len()
{
    if pos >= toks.len() {
        None
    } else if toks[pos].kind == TokKind::LBrack {
        match typeref_vspec(toks, pos + 1) {
            Some((inner, pi)) => if 0 <= pi < toks.len() && toks[pi].kind == TokKind::RBrack {
                Some(bangs_vspec(toks, pi + 1, TypeRefV::ListOfV { inner: Box::new(inner) }))
            } else {
                None
            },
            None => None,
        }
    } else if toks[pos].kind == TokKind::Name {
        Some(bangs_vspec(toks, pos + 1, TypeRefV::NamedV { name: toks[pos].text }))
    } else {
        None
    }
}

/// The directive list as a function of the tokens, read greedily at
/// each `@`.
pub open spec fn directives_vspec(toks: Seq<TokV>, pos: int, acc: Seq<DirectiveV>) -> Option<
    (Seq<DirectiveV>, int),
>
    decreases toks.len() - pos
        when 0 <= pos <= toks.len()
{
    if pos < toks.len() && toks[pos].kind == TokKind::At {
        if pos + 1 >= toks.len() {
            None
        } else if toks[pos + 1] == name_tok("unique"@) {
            directives_vspec(toks, pos + 2, acc.push(DirectiveV::UniqueV))
        } else if toks[pos + 1] == name_tok("indexed"@) {
            directives_vspec(toks, pos + 2, acc.push(DirectiveV::IndexedV))
        } else if toks[pos + 1] == name_tok("join"@) {
            if toks.len() - pos < 7 {
                None
            } else if toks[pos + 2].kind == TokKind::LParen && toks[pos + 3] == name_tok("on"@)
                && toks[pos + 4].kind == TokKind::Colon && toks[pos + 5].kind == TokKind::Name
                && toks[pos + 6].kind == TokKind::RParen {
                directives_vspec(toks, pos + 7, acc.push(DirectiveV::JoinV { on: toks[pos + 5].text }))
            } else {
                None
            }
        } else {
            None
        }
    } else {
        Some((acc, pos))
    }
}

/// The field grammar as a function of the tokens: `name: Type` then
/// directives.
pub open spec fn field_vspec(toks: Seq<TokV>, pos: int) -> Option<(FieldDefV, int)> {
    if toks.len() - pos < 2 {
        None
    } else if !(toks[pos].kind == TokKind::Name && toks[pos + 1].kind == TokKind::Colon) {
        None
    } else {
        match typeref_vspec(toks, pos + 2) {
            None => None,
            Some((ft, pt)) => match directives_vspec(toks, pt, Seq::empty()) {
                None => None,
                Some((ds, pd)) => Some(
                    (FieldDefV { name: toks[pos].text, field_type: ft, directives: ds }, pd),
                ),
            },
        }
    }
}

/// The fields of a type block, read while a name stands next.
pub open spec fn fields_vspec(toks: Seq<TokV>, pos: int, acc: Seq<FieldDefV>) -> Option<
    (Seq<FieldDefV>, int),
>
    decreases toks.len() - pos
        when 0 <= pos <= toks.len()
{
    if pos < toks.len() && toks[pos].kind == TokKind::Name {
        match field_vspec(toks, pos) {
            None => None,
            Some((f, p2)) => if pos < p2 <= toks.len() {
                fields_vspec(toks, p2, acc.push(f))
            } else {
                None
            },
        }
    } else {
        Some((acc, pos))
    }
}

/// The definition grammar as a function of the tokens: the fixed-form
/// schema root or a type block.
pub open spec fn item_vspec(toks: Seq<TokV>, pos: int) -> Option<(SchemaItemV, int)> {
    if pos >= toks.len() {
        None
    } else if toks[pos] == name_tok("schema"@) {
        if toks.len() - pos < 6 {
            None
        } else if toks[pos + 1].kind == TokKind::LBrace && toks[pos + 2] == name_tok("query"@)
            && toks[pos + 3].kind == TokKind::Colon && toks[pos + 4].kind == TokKind::Name
            && toks[pos + 5].kind == TokKind::RBrace {
            Some((SchemaItemV::RootV { query: toks[pos + 4].text }, pos + 6))
        } else {
            None
        }
    } else if toks[pos] == name_tok("type"@) {
        if toks.len() - pos < 3 {
            None
        } else if toks[pos + 1].kind == TokKind::Name && toks[pos + 2].kind == TokKind::LBrace {
            match fields_vspec(toks, pos + 3, Seq::empty()) {
                None => None,
                Some((fs, p)) => if 0 <= p < toks.len() && toks[p].kind == TokKind::RBrace {
                    Some((SchemaItemV::ObjectV { name: toks[pos + 1].text, fields: fs }, p + 1))
                } else {
                    None
                },
            }
        } else {
            None
        }
    } else {
        None
    }
}

/// The definitions of a document, read to the end of the tokens.
pub open spec fn items_vspec(toks: Seq<TokV>, pos: int, acc: Seq<SchemaItemV>) -> Option<
    Seq<SchemaItemV>,
>
    decreases toks.len() - pos
        when 0 <= pos <= toks.len()
{
    if pos >= toks.len() {
        Some(acc)
    } else {
        match item_vspec(toks, pos) {
            None => None,
            Some((it, p2)) => if pos < p2 <= toks.len() {
                items_vspec(toks, p2, acc.push(it))
            } else {
                None
            },
        }
    }
}

/// The document the type-graph grammar reads from a token stream.
pub open spec fn doc_vspec(toks: Seq<TokV>) -> Option<Seq<SchemaItemV>> {
    items_vspec(toks, 0, Seq::empty())
}

/// The document a piece of schema text denotes: the lexer's reading of
/// the text fed to the grammar, `None` when either refuses.
pub open spec fn schema_doc_of(text: &str) -> Option<Seq<SchemaItemV>> {
    if text.is_ascii() && toks_spec(text.spec_bytes(), 0) is Some {
        doc_vspec(toks_spec(text.spec_bytes(), 0)->Some_0)
    } else {
        None
    }
}

fn parse_error(msg: &str) -> (r: SchemaError)
    ensures
        r is SchemaParse,
{
    SchemaError::SchemaParse(msg.to_owned())
}

/// True when the token is a name with the given spelling.
fn tok_is_name(t: &Token, s: &str) -> (r: bool)
    ensures
        r == (t@ == TokV { kind: TokKind::Name, text: s@ }),
{
    t.kind == TokKind::Name && crate::strutil::str_eq(t.text.as_str(), s)
}

/// True when the token is the given piece of text-free punctuation.
fn tok_is(t: &Token, k: TokKind) -> (r: bool)
    ensures
        r == (t.kind == k),
{
    t.kind == k
}

/// Parses one type reference at `pos`; on success the consumed tokens are
/// exactly the reference's flattening.
fn parse_typeref(toks: &Vec<Token>, pos: usize) -> (r: Result<(TypeRef, usize), SchemaError>)
    requires
        pos <= toks@.len(),
        wf_toks(tok_views(toks@)),
    ensures
        match r {
            Ok((t, p2)) => pos < p2 <= toks@.len() && typeref_toks(t) == tok_views(
                toks@,
            ).subrange(pos as int, p2 as int) && typeref_vspec(tok_views(toks@), pos as int)
                == Some((tr_view(t), p2 as int)),
            Err(e) => e is SchemaParse && typeref_vspec(tok_views(toks@), pos as int) is None,
        },
    decreases toks@.len() - pos,
{
    let ghost toksv = tok_views(toks@);
    if pos >= toks.len() {
        return Err(parse_error("expected a type, found the end of the text"));
    }
    let t = &toks[pos];
    let (base, mut p): (TypeRef, usize) = if tok_is(t, TokKind::LBrack) {
        let (inner, p_inner) = match parse_typeref(toks, pos + 1) {
            Ok(x) => x,
            Err(e) => {
                return Err(e);
            },
        };
        if p_inner >= toks.len() || !tok_is(&toks[p_inner], TokKind::RBrack) {
            proof {
                assert(typeref_vspec(toksv, pos as int) is None);
            }
            return Err(parse_error("a list type misses its closing bracket"));
        }
        let tr = TypeRef::ListOf(Box::new(inner));
        proof {
            assert(typeref_toks(tr) =~~= tok_views(toks@).subrange(
                pos as int,
                p_inner + 1,
            ));
            assert(tr_view(tr) == (TypeRefV::ListOfV { inner: Box::new(tr_view(inner)) }));
            assert(typeref_vspec(toksv, pos as int) == Some(
                bangs_vspec(toksv, p_inner + 1, tr_view(tr)),
            ));
        }
        (tr, p_inner + 1)
    } else if t.kind == TokKind::Name {
        let tr = TypeRef::Named(t.text.clone());
        proof {
            assert(typeref_toks(tr) =~~= tok_views(toks@).subrange(pos as int, pos + 1));
            assert(tr_view(tr) == (TypeRefV::NamedV { name: toksv[pos as int].text }));
            assert(typeref_vspec(toksv, pos as int) == Some(
                bangs_vspec(toksv, pos + 1, tr_view(tr)),
            ));
        }
        (tr, pos + 1)
    } else {
        proof {
            assert(typeref_vspec(toksv, pos as int) is None);
        }
        return Err(parse_error("expected a type name"));
    };
    let mut out = base;
    while p < toks.len() && tok_is(&toks[p], TokKind::Bang)
        invariant
            pos < p <= toks@.len(),
            wf_toks(tok_views(toks@)),
            toksv == tok_views(toks@),
            typeref_toks(out) == tok_views(toks@).subrange(pos as int, p as int),
            typeref_vspec(toksv, pos as int) == Some(bangs_vspec(toksv, p as int, tr_view(out))),
        decreases toks@.len() - p,
    {
        let ghost out0 = tr_view(out);
        let ghost p0 = p as int;
        out = TypeRef::NonNull(Box::new(out));
        p = p + 1;
        proof {
            assert(typeref_toks(out) =~~= tok_views(toks@).subrange(pos as int, p as int));
            assert(bangs_vspec(toksv, p0, out0) == bangs_vspec(toksv, p0 + 1, tr_view(out)));
        }
    }
    proof {
        assert(bangs_vspec(toksv, p as int, tr_view(out)) == (tr_view(out), p as int));
    }
    Ok((out, p))
}

/// Parses the directives standing after a field's type.
fn parse_directives(toks: &Vec<Token>, pos: usize) -> (r: Result<
    (Vec<Directive>, usize),
    SchemaError,
>)
    requires
        pos <= toks@.len(),
        wf_toks(tok_views(toks@)),
    ensures
        match r {
            Ok((ds, p2)) => pos <= p2 <= toks@.len() && directives_toks(ds@) == tok_views(
                toks@,
            ).subrange(pos as int, p2 as int) && directives_vspec(
                tok_views(toks@),
                pos as int,
                Seq::empty(),
            ) == Some((dirs_view(ds@), p2 as int)),
            Err(e) => e is SchemaParse && directives_vspec(
                tok_views(toks@),
                pos as int,
                Seq::empty(),
            ) is None,
        },
{
    let ghost toksv = tok_views(toks@);
    let mut ds: Vec<Directive> = Vec::new();
    let mut p = pos;
    proof {
        assert(directives_toks(ds@) =~~= tok_views(toks@).subrange(pos as int, pos as int));
        assert(dirs_view(ds@) =~~= Seq::<DirectiveV>::empty());
    }
    while p < toks.len() && tok_is(&toks[p], TokKind::At)
        invariant
            pos <= p <= toks@.len(),
            wf_toks(tok_views(toks@)),
            toksv == tok_views(toks@),
            directives_toks(ds@) == tok_views(toks@).subrange(pos as int, p as int),
            directives_vspec(toksv, pos as int, Seq::empty()) == directives_vspec(
                toksv,
                p as int,
                dirs_view(ds@),
            ),
        decreases toks@.len() - p,
    {
        let ghost ds0 = ds@;
        let ghost p0 = p as int;
        if p + 1 >= toks.len() {
            proof {
                assert(directives_vspec(toksv, p0, dirs_view(ds0)) is None);
            }
            return Err(parse_error("a directive misses its name"));
        }
        let ghost dv: Directive;
        if tok_is_name(&toks[p + 1], "unique") {
            ds.push(Directive::Unique);
            p = p + 2;
            proof {
                dv = Directive::Unique;
            }
        } else if tok_is_name(&toks[p + 1], "indexed") {
            ds.push(Directive::Indexed);
            p = p + 2;
            proof {
                dv = Directive::Indexed;
            }
        } else if tok_is_name(&toks[p + 1], "join") {
            if toks.len() - p < 7 {
                proof {
                    assert(directives_vspec(toksv, p0, dirs_view(ds0)) is None);
                }
                return Err(parse_error("a join directive misses its argument"));
            }
            if !tok_is(&toks[p + 2], TokKind::LParen) || !tok_is_name(&toks[p + 3], "on")
                || !tok_is(&toks[p + 4], TokKind::Colon) || toks[p + 5].kind
                != TokKind::Name || !tok_is(&toks[p + 6], TokKind::RParen) {
                proof {
                    assert(directives_vspec(toksv, p0, dirs_view(ds0)) is None);
                }
                return Err(parse_error("a join directive takes the form join(on: FIELD)"));
            }
            let d = Directive::Join { on: toks[p + 5].text.clone() };
            proof {
                dv = d;
            }
            ds.push(d);
            p = p + 7;
        } else {
            proof {
                assert(directives_vspec(toksv, p0, dirs_view(ds0)) is None);
            }
            return Err(parse_error("the directives are unique, indexed and join"));
        }
        proof {
            assert(ds@ =~= ds0.push(dv));
            lemma_directives_toks_push(ds0, dv);
            assert(directives_toks(ds@) =~~= tok_views(toks@).subrange(pos as int, p as int));
            assert(dirs_view(ds@) =~~= dirs_view(ds0).push(dir_view(dv)));
            assert(directives_vspec(toksv, p0, dirs_view(ds0)) == directives_vspec(
                toksv,
                p as int,
                dirs_view(ds@),
            ));
        }
    }
    proof {
        assert(directives_vspec(toksv, p as int, dirs_view(ds@)) == Some(
            (dirs_view(ds@), p as int),
        ));
    }
    Ok((ds, p))
}

/// Parses one `name: Type @directives` field.
fn parse_field(toks: &Vec<Token>, pos: usize) -> (r: Result<(FieldDef, usize), SchemaError>)
    requires
        pos <= toks@.len(),
        wf_toks(tok_views(toks@)),
    ensures
        match r {
            Ok((f, p2)) => pos < p2 <= toks@.len() && field_toks(f) == tok_views(
                toks@,
            ).subrange(pos as int, p2 as int) && field_vspec(tok_views(toks@), pos as int)
                == Some((field_view(f), p2 as int)),
            Err(e) => e is SchemaParse && field_vspec(tok_views(toks@), pos as int) is None,
        },
{
    let ghost toksv = tok_views(toks@);
    if toks.len() - pos < 2 {
        return Err(parse_error("expected a field definition"));
    }
    if toks[pos].kind != TokKind::Name || !tok_is(&toks[pos + 1], TokKind::Colon) {
        return Err(parse_error("a field takes the form name: Type"));
    }
    let name = toks[pos].text.clone();
    let (ftype, p_type) = match parse_typeref(toks, pos + 2) {
        Ok(x) => x,
        Err(e) => {
            proof {
                assert(field_vspec(toksv, pos as int) is None);
            }
            return Err(e);
        },
    };
    let (directives, p_dirs) = match parse_directives(toks, p_type) {
        Ok(x) => x,
        Err(e) => {
            proof {
                assert(field_vspec(toksv, pos as int) is None);
            }
            return Err(e);
        },
    };
    let f = FieldDef { name, field_type: ftype, directives };
    proof {
        assert(field_toks(f) =~~= tok_views(toks@).subrange(pos as int, p_dirs as int));
        assert(field_view(f) == (FieldDefV {
            name: toksv[pos as int].text,
            field_type: tr_view(ftype),
            directives: dirs_view(directives@),
        }));
        assert(field_vspec(toksv, pos as int) == Some((field_view(f), p_dirs as int)));
    }
    Ok((f, p_dirs))
}

/// Parses one definition: the schema root or an object type.
fn parse_item(toks: &Vec<Token>, pos: usize) -> (r: Result<(SchemaItem, usize), SchemaError>)
    requires
        pos < toks@.len(),
        wf_toks(tok_views(toks@)),
    ensures
        match r {
            Ok((it, p2)) => pos < p2 <= toks@.len() && item_toks(it) == tok_views(
                toks@,
            ).subrange(pos as int, p2 as int) && item_vspec(tok_views(toks@), pos as int)
                == Some((item_view(it), p2 as int)),
            Err(e) => e is SchemaParse && item_vspec(tok_views(toks@), pos as int) is None,
        },
{
    let ghost toksv = tok_views(toks@);
    if tok_is_name(&toks[pos], "schema") {
        if toks.len() - pos < 6 {
            return Err(parse_error("a schema block takes the form schema { query: NAME }"));
        }
        if !tok_is(&toks[pos + 1], TokKind::LBrace) || !tok_is_name(&toks[pos + 2], "query")
            || !tok_is(&toks[pos + 3], TokKind::Colon) || toks[pos + 4].kind
            != TokKind::Name || !tok_is(&toks[pos + 5], TokKind::RBrace) {
            return Err(parse_error("a schema block takes the form schema { query: NAME }"));
        }
        let it = SchemaItem::Root { query: toks[pos + 4].text.clone() };
        proof {
            assert(item_toks(it) =~~= tok_views(toks@).subrange(pos as int, pos + 6));
            assert(item_view(it) == (SchemaItemV::RootV { query: toksv[pos + 4].text }));
            assert(item_vspec(toksv, pos as int) == Some((item_view(it), pos + 6 as int)));
        }
        Ok((it, pos + 6))
    } else if tok_is_name(&toks[pos], "type") {
        if toks.len() - pos < 3 {
            return Err(parse_error("a type block takes the form type NAME { fields }"));
        }
        if toks[pos + 1].kind != TokKind::Name || !tok_is(&toks[pos + 2], TokKind::LBrace) {
            return Err(parse_error("a type block takes the form type NAME { fields }"));
        }
        let name = toks[pos + 1].text.clone();
        let mut fields: Vec<FieldDef> = Vec::new();
        let mut p = pos + 3;
        proof {
            assert(fields_toks(fields@) =~~= tok_views(toks@).subrange(pos + 3, pos + 3));
            assert(fdefs_view(fields@) =~~= Seq::<FieldDefV>::empty());
        }
        while p < toks.len() && toks[p].kind == TokKind::Name
            invariant
                pos + 3 <= p <= toks@.len(),
                wf_toks(tok_views(toks@)),
                toksv == tok_views(toks@),
                fields_toks(fields@) == tok_views(toks@).subrange(pos + 3, p as int),
                fields_vspec(toksv, pos + 3, Seq::empty()) == fields_vspec(
                    toksv,
                    p as int,
                    fdefs_view(fields@),
                ),
            decreases toks@.len() - p,
        {
            let ghost fs0 = fields@;
            let ghost p0 = p as int;
            let (f, p2) = match parse_field(toks, p) {
                Ok(x) => x,
                Err(e) => {
                    proof {
                        assert(fields_vspec(toksv, p0, fdefs_view(fs0)) is None);
                    }
                    return Err(e);
                },
            };
            fields.push(f);
            proof {
                assert(fields@ =~= fs0.push(f));
                lemma_fields_toks_push(fs0, f);
                assert(tok_views(toks@).subrange(pos + 3, p as int) + tok_views(
                    toks@,
                ).subrange(p as int, p2 as int) =~~= tok_views(toks@).subrange(
                    pos + 3,
                    p2 as int,
                ));
                assert(fdefs_view(fields@) =~~= fdefs_view(fs0).push(field_view(f)));
                assert(fields_vspec(toksv, p0, fdefs_view(fs0)) == fields_vspec(
                    toksv,
                    p2 as int,
                    fdefs_view(fields@),
                ));
            }
            p = p2;
        }
        proof {
            assert(fields_vspec(toksv, p as int, fdefs_view(fields@)) == Some(
                (fdefs_view(fields@), p as int),
            ));
        }
        if p >= toks.len() || !tok_is(&toks[p], TokKind::RBrace) {
            proof {
                assert(item_vspec(toksv, pos as int) is None);
            }
            return Err(parse_error("a type block misses its closing brace"));
        }
        let it = SchemaItem::Object(ObjectDef { name, fields });
        proof {
            assert(item_toks(it) =~~= tok_views(toks@).subrange(pos as int, p + 1));
            assert(item_view(it) == (SchemaItemV::ObjectV {
                name: toksv[pos + 1].text,
                fields: fdefs_view(fields@),
            }));
            assert(item_vspec(toksv, pos as int) == Some((item_view(it), p + 1 as int)));
        }
        Ok((it, p + 1))
    } else {
        proof {
            assert(item_vspec(toksv, pos as int) is None);
        }
        Err(parse_error("a definition starts with schema or type"))
    }
}

/// Parses the type-graph text. A document it accepts flattens, token for
/// token, to the lexer's reading of the text.
pub fn parse_schema_doc(text: &str) -> (r: Result<SchemaDoc, SchemaError>)
    ensures
        r is Ok <==> schema_doc_of(text) is Some,
        match r {
            Ok(d) => toks_spec(text.spec_bytes(), 0) == Some(doc_toks(d)) && schema_doc_of(
                text,
            ) == Some(items_view(d.items@)),
            Err(e) => e is SchemaParse,
        },
{
    let toks = match crate::lex::tokenize(text) {
        Some(t) => t,
        None => {
            return Err(parse_error("the text does not scan as schema tokens"));
        },
    };
    let ghost toksv = tok_views(toks@);
    proof {
        lemma_toks_spec_wf(text.spec_bytes(), 0);
    }
    let mut items: Vec<SchemaItem> = Vec::new();
    let mut p: usize = 0;
    proof {
        assert(items_toks(items@) =~~= tok_views(toks@).subrange(0, 0));
        assert(items_view(items@) =~~= Seq::<SchemaItemV>::empty());
    }
    while p < toks.len()
        invariant
            p <= toks@.len(),
            wf_toks(tok_views(toks@)),
            toksv == tok_views(toks@),
            toks_spec(text.spec_bytes(), 0) == Some(tok_views(toks@)),
            text.is_ascii(),
            items_toks(items@) == tok_views(toks@).subrange(0, p as int),
            items_vspec(toksv, 0, Seq::empty()) == items_vspec(
                toksv,
                p as int,
                items_view(items@),
            ),
        decreases toks@.len() - p,
    {
        let ghost its0 = items@;
        let ghost p0 = p as int;
        let (it, p2) = match parse_item(&toks, p) {
            Ok(x) => x,
            Err(e) => {
                proof {
                    assert(items_vspec(toksv, p0, items_view(its0)) is None);
                }
                return Err(e);
            },
        };
        items.push(it);
        proof {
            assert(items@ =~= its0.push(it));
            lemma_items_toks_push(its0, it);
            assert(tok_views(toks@).subrange(0, p as int) + tok_views(toks@).subrange(
                p as int,
                p2 as int,
            ) =~~= tok_views(toks@).subrange(0, p2 as int));
            assert(items_view(items@) =~~= items_view(its0).push(item_view(it)));
            assert(items_vspec(toksv, p0, items_view(its0)) == items_vspec(
                toksv,
                p2 as int,
                items_view(items@),
            ));
        }
        p = p2;
    }
    let d = SchemaDoc { items };
    proof {
        assert(tok_views(toks@).subrange(0, toks@.len() as int) =~~= tok_views(toks@));
        assert(items_vspec(toksv, p as int, items_view(items@)) == Some(items_view(items@)));
        assert(schema_doc_of(text) == Some(items_view(d.items@)));
    }
    Ok(d)
}

} // verus!
