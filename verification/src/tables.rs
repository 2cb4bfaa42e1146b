//! The schema compiler: lowering a parsed type-graph to relational DDL
//! (tables, foreign keys, indices), the persisted metadata records, and
//! the reflection `Schema` the query compiler reads.

use crate::strmap::{sm_contains, sm_get, sm_insert, StrMap};
use crate::strutil::{lower_seq, str_eq, to_lower};
use crate::type_graph::{
    dir_view, dirs_view, fdefs_view, field_view, item_view, items_view, tr_view, Directive,
    DirectiveV,
    FieldDef, FieldDefV, ObjectDef, SchemaDoc, SchemaError, SchemaItem, SchemaItemV, TypeRef,
    TypeRefV,
};
use vstd::prelude::*;
use vstd::string::StringSliceAdditionalSpecFns;

verus! {

/// The one supported database dialect.
#[derive(Clone, Copy, Debug, PartialEq, Eq, Structural)]
pub enum DbType {
    Postgres,
}

impl Default for DbType {
    fn default() -> (r: Self)
        ensures
            r == DbType::Postgres,
    {
        DbType::Postgres
    }
}

impl DbType {
    /// The fully qualified table name: `namespace.table`.
    pub open spec fn table_name_spec(&self, namespace: Seq<char>, table: Seq<char>) -> Seq<
        char,
    > {
        namespace + "."@ + table
    }

    pub fn table_name(&self, namespace: &str, table: &str) -> (r: String)
        ensures
            r@ == self.table_name_spec(namespace@, table@),
    {
        let mut s: String = namespace.to_owned();
        s.append(".");
        s.append(table);
        s
    }
}

/// The innermost name of a type reference.
pub open spec fn base_name(t: TypeRef) -> Seq<char>
    decreases t,
{
    match t {
        TypeRef::Named(n) => n@,
        TypeRef::ListOf(inner) => base_name(*inner),
        TypeRef::NonNull(inner) => base_name(*inner),
    }
}

/// True when a list wrapper occurs anywhere in the reference.
pub open spec fn contains_list(t: TypeRef) -> bool
    decreases t,
{
    match t {
        TypeRef::Named(_) => false,
        TypeRef::ListOf(_) => true,
        TypeRef::NonNull(inner) => contains_list(*inner),
    }
}

/// A column is nullable unless the reference is non-null at the top.
pub open spec fn top_nullable(t: TypeRef) -> bool {
    !(t is NonNull)
}

/// The printed form of a type reference: `Name`, `[T]`, `T!`.
pub open spec fn type_ref_chars(t: TypeRef) -> Seq<char>
    decreases t,
{
    match t {
        TypeRef::Named(n) => n@,
        TypeRef::ListOf(inner) => "["@ + type_ref_chars(*inner) + "]"@,
        TypeRef::NonNull(inner) => type_ref_chars(*inner) + "!"@,
    }
}

pub fn type_base_name(t: &TypeRef) -> (r: String)
    ensures
        r@ == base_name(*t),
    decreases *t,
{
    match t {
        TypeRef::Named(n) => n.clone(),
        TypeRef::ListOf(inner) => type_base_name(inner),
        TypeRef::NonNull(inner) => type_base_name(inner),
    }
}

pub fn type_contains_list(t: &TypeRef) -> (r: bool)
    ensures
        r == contains_list(*t),
    decreases *t,
{
    match t {
        TypeRef::Named(_) => false,
        TypeRef::ListOf(_) => true,
        TypeRef::NonNull(inner) => type_contains_list(inner),
    }
}

pub fn type_nullable(t: &TypeRef) -> (r: bool)
    ensures
        r == top_nullable(*t),
{
    match t {
        TypeRef::NonNull(_) => false,
        _ => true,
    }
}

pub fn type_ref_str(t: &TypeRef) -> (r: String)
    ensures
        r@ == type_ref_chars(*t),
    decreases *t,
{
    match t {
        TypeRef::Named(n) => n.clone(),
        TypeRef::ListOf(inner) => {
            let mut s: String = "[".to_owned();
            let i = type_ref_str(inner);
            s.append(i.as_str());
            s.append("]");
            s
        },
        TypeRef::NonNull(inner) => {
            let mut s = type_ref_str(inner);
            s.append("!");
            s
        },
    }
}

/// A field's type name with the non-null marks removed.
pub open spec fn strip_bangs(s: Seq<char>) -> Seq<char>
    decreases s.len(),
{
    if s.len() == 0 {
        s
    } else if s[0] == '!' {
        strip_bangs(s.drop_first())
    } else {
        seq![s[0]] + strip_bangs(s.drop_first())
    }
}

/// The table-facing form of a field's type name, as the reflection
/// lookup normalises it.
pub fn normalize_field_type_name(s: &str) -> (r: String)
    ensures
        r@ == strip_bangs(s@),
{
    let n = s.unicode_len();
    let mut r = String::new();
    let mut i: usize = 0;
    proof {
        assert(s@.subrange(0, 0) =~= Seq::<char>::empty());
        assert(r@ =~= strip_bangs_partial(s@, 0));
    }
    while i < n
        invariant
            i <= n,
            n == s@.len(),
            r@ == strip_bangs_partial(s@, i as int),
        decreases n - i,
    {
        let c = s.get_char(i);
        if c != '!' {
            let piece = s.substring_char(i, i + 1);
            r.append(piece);
        }
        proof {
            lemma_strip_bangs_step(s@, i as int);
        }
        i = i + 1;
    }
    proof {
        lemma_strip_bangs_end(s@);
    }
    r
}

/// The bang-free prefix reading: what `strip_bangs` yields on the first
/// `i` characters.
pub open spec fn strip_bangs_partial(s: Seq<char>, i: int) -> Seq<char> {
    strip_bangs(s.subrange(0, i))
}

proof fn lemma_strip_bangs_append(a: Seq<char>, c: char)
    ensures
        strip_bangs(a.push(c)) == strip_bangs(a) + (if c == '!' {
            Seq::<char>::empty()
        } else {
            seq![c]
        }),
    decreases a.len(),
{
    if a.len() == 0 {
        assert(a.push(c).drop_first() =~= Seq::<char>::empty());
        assert(a.push(c)[0] == c);
        assert(a.push(c).len() == 1);
        assert(strip_bangs(a.push(c).drop_first()) == Seq::<char>::empty());
        if c == '!' {
            assert(strip_bangs(a.push(c)) =~= strip_bangs(a) + Seq::<char>::empty());
        } else {
            assert(strip_bangs(a.push(c)) =~= strip_bangs(a) + seq![c]);
        }
    } else {
        assert(a.push(c)[0] == a[0]);
        assert(a.push(c).drop_first() =~= a.drop_first().push(c));
        lemma_strip_bangs_append(a.drop_first(), c);
        if a[0] == '!' {
            assert(strip_bangs(a.push(c)) =~= strip_bangs(a) + (if c == '!' {
                Seq::<char>::empty()
            } else {
                seq![c]
            }));
        } else {
            assert(strip_bangs(a.push(c)) =~= strip_bangs(a) + (if c == '!' {
                Seq::<char>::empty()
            } else {
                seq![c]
            }));
        }
    }
}

proof fn lemma_strip_bangs_step(s: Seq<char>, i: int)
    requires
        0 <= i < s.len(),
    ensures
        strip_bangs_partial(s, i + 1) == strip_bangs_partial(s, i) + (if s[i] == '!' {
            Seq::<char>::empty()
        } else {
            seq![s[i]]
        }),
{
    assert(s.subrange(0, i + 1) =~= s.subrange(0, i).push(s[i]));
    lemma_strip_bangs_append(s.subrange(0, i), s[i]);
}

proof fn lemma_strip_bangs_end(s: Seq<char>)
    ensures
        strip_bangs_partial(s, s.len() as int) == strip_bangs(s),
{
    assert(s.subrange(0, s.len() as int) =~= s);
}

/// The built-in leaf types of the base schema.
pub open spec fn is_primitive_chars(n: Seq<char>) -> bool {
    ||| n == "ID"@
    ||| n == "Address"@
    ||| n == "AssetId"@
    ||| n == "Bytes4"@
    ||| n == "Bytes8"@
    ||| n == "Bytes32"@
    ||| n == "ContractId"@
    ||| n == "Salt"@
    ||| n == "Int4"@
    ||| n == "Int8"@
    ||| n == "UInt4"@
    ||| n == "UInt8"@
    ||| n == "Timestamp"@
    ||| n == "Blob"@
    ||| n == "Json"@
    ||| n == "MessageId"@
    ||| n == "Charfield"@
    ||| n == "Identity"@
    ||| n == "Boolean"@
    ||| n == "Object"@
}

pub fn is_primitive(n: &str) -> (r: bool)
    ensures
        r == is_primitive_chars(n@),
{
    str_eq(n, "ID") || str_eq(n, "Address") || str_eq(n, "AssetId") || str_eq(n, "Bytes4")
        || str_eq(n, "Bytes8") || str_eq(n, "Bytes32") || str_eq(n, "ContractId")
        || str_eq(n, "Salt") || str_eq(n, "Int4") || str_eq(n, "Int8") || str_eq(
        n,
        "UInt4",
    ) || str_eq(n, "UInt8") || str_eq(n, "Timestamp") || str_eq(n, "Blob") || str_eq(
        n,
        "Json",
    ) || str_eq(n, "MessageId") || str_eq(n, "Charfield") || str_eq(n, "Identity")
        || str_eq(n, "Boolean") || str_eq(n, "Object")
}

/// The PostgreSQL column type of each leaf type.
pub open spec fn pg_type(n: Seq<char>) -> Seq<char> {
    if n == "ID"@ { "numeric(20, 0) primary key"@ }
    else if n == "Address"@ { "varchar(64)"@ }
    else if n == "AssetId"@ { "varchar(64)"@ }
    else if n == "Bytes4"@ { "varchar(8)"@ }
    else if n == "Bytes8"@ { "varchar(16)"@ }
    else if n == "Bytes32"@ { "varchar(64)"@ }
    else if n == "ContractId"@ { "varchar(64)"@ }
    else if n == "Salt"@ { "varchar(64)"@ }
    else if n == "Int4"@ { "integer"@ }
    else if n == "Int8"@ { "bigint"@ }
    else if n == "UInt4"@ { "integer"@ }
    else if n == "UInt8"@ { "numeric(20, 0)"@ }
    else if n == "Timestamp"@ { "timestamp"@ }
    else if n == "Blob"@ { "bytea"@ }
    else if n == "Json"@ { "json"@ }
    else if n == "MessageId"@ { "varchar(64)"@ }
    else if n == "Charfield"@ { "varchar(255)"@ }
    else if n == "Identity"@ { "varchar(66)"@ }
    else if n == "Boolean"@ { "boolean"@ }
    else if n == "Object"@ { "bytea"@ }
    else { "varchar(255)"@ }
}

pub fn pg_sql_type(n: &str) -> (r: String)
    ensures
        r@ == pg_type(n@),
{
    if str_eq(n, "ID") { "numeric(20, 0) primary key".to_owned() }
    else if str_eq(n, "Address") { "varchar(64)".to_owned() }
    else if str_eq(n, "AssetId") { "varchar(64)".to_owned() }
    else if str_eq(n, "Bytes4") { "varchar(8)".to_owned() }
    else if str_eq(n, "Bytes8") { "varchar(16)".to_owned() }
    else if str_eq(n, "Bytes32") { "varchar(64)".to_owned() }
    else if str_eq(n, "ContractId") { "varchar(64)".to_owned() }
    else if str_eq(n, "Salt") { "varchar(64)".to_owned() }
    else if str_eq(n, "Int4") { "integer".to_owned() }
    else if str_eq(n, "Int8") { "bigint".to_owned() }
    else if str_eq(n, "UInt4") { "integer".to_owned() }
    else if str_eq(n, "UInt8") { "numeric(20, 0)".to_owned() }
    else if str_eq(n, "Timestamp") { "timestamp".to_owned() }
    else if str_eq(n, "Blob") { "bytea".to_owned() }
    else if str_eq(n, "Json") { "json".to_owned() }
    else if str_eq(n, "MessageId") { "varchar(64)".to_owned() }
    else if str_eq(n, "Charfield") { "varchar(255)".to_owned() }
    else if str_eq(n, "Identity") { "varchar(66)".to_owned() }
    else if str_eq(n, "Boolean") { "boolean".to_owned() }
    else if str_eq(n, "Object") { "bytea".to_owned() }
    else { "varchar(255)".to_owned() }
}

/// True when the directives carry `@unique`.
pub open spec fn has_unique(ds: Seq<Directive>) -> bool {
    exists|i: int| 0 <= i < ds.len() && (#[trigger] ds[i]) is Unique
}

/// True when the directives carry `@indexed`.
pub open spec fn has_indexed(ds: Seq<Directive>) -> bool {
    exists|i: int| 0 <= i < ds.len() && (#[trigger] ds[i]) is Indexed
}

/// The first `@join(on: X)` argument, if any.
pub open spec fn join_on_of(ds: Seq<Directive>) -> Option<Seq<char>>
    decreases ds.len(),
{
    if ds.len() == 0 {
        None
    } else {
        match ds[0] {
            Directive::Join { on } => Some(on@),
            _ => join_on_of(ds.drop_first()),
        }
    }
}

pub fn directive_unique(ds: &Vec<Directive>) -> (r: bool)
    ensures
        r == has_unique(ds@),
{
    let mut i: usize = 0;
    while i < ds.len()
        invariant
            i <= ds@.len(),
            forall|j: int| 0 <= j < i ==> !((#[trigger] ds@[j]) is Unique),
        decreases ds@.len() - i,
    {
        if matches!(&ds[i], Directive::Unique) {
            return true;
        }
        i = i + 1;
    }
    false
}

pub fn directive_indexed(ds: &Vec<Directive>) -> (r: bool)
    ensures
        r == has_indexed(ds@),
{
    let mut i: usize = 0;
    while i < ds.len()
        invariant
            i <= ds@.len(),
            forall|j: int| 0 <= j < i ==> !((#[trigger] ds@[j]) is Indexed),
        decreases ds@.len() - i,
    {
        if matches!(&ds[i], Directive::Indexed) {
            return true;
        }
        i = i + 1;
    }
    false
}

pub fn directive_join_on(ds: &Vec<Directive>) -> (r: Option<String>)
    ensures
        match r {
            Some(s) => join_on_of(ds@) == Some(s@),
            None => join_on_of(ds@) is None,
        },
{
    let mut i: usize = 0;
    proof {
        assert(ds@.subrange(0, ds@.len() as int) =~= ds@);
    }
    while i < ds.len()
        invariant
            i <= ds@.len(),
            join_on_of(ds@) == join_on_of(ds@.subrange(i as int, ds@.len() as int)),
        decreases ds@.len() - i,
    {
        proof {
            assert(ds@.subrange(i as int, ds@.len() as int).drop_first() =~= ds@.subrange(
                i + 1,
                ds@.len() as int,
            ));
            assert(ds@.subrange(i as int, ds@.len() as int)[0] == ds@[i as int]);
        }
        if let Directive::Join { on } = &ds[i] {
            return Some(on.clone());
        }
        i = i + 1;
    }
    None
}


/// The view of a column record.
#[verifier::ext_equal]
pub struct NewColumnV {
    pub type_id: int,
    pub column_position: int,
    pub column_name: Seq<char>,
    pub column_type: Seq<char>,
    pub graphql_type: Seq<char>,
    pub nullable: bool,
    pub unique: bool,
}

/// One column to create and persist.
#[derive(Clone, Debug)]
pub struct NewColumn {
    pub type_id: i64,
    pub column_position: usize,
    pub column_name: String,
    pub column_type: String,
    pub graphql_type: String,
    pub nullable: bool,
    pub unique: bool,
}

impl View for NewColumn {
    type V = NewColumnV;

    open spec fn view(&self) -> NewColumnV {
        NewColumnV {
            type_id: self.type_id as int,
            column_position: self.column_position as int,
            column_name: self.column_name@,
            column_type: self.column_type@,
            graphql_type: self.graphql_type@,
            nullable: self.nullable,
            unique: self.unique,
        }
    }
}

/// Text appended only under a flag.
pub open spec fn opt_chars(b: bool, s: Seq<char>) -> Seq<char> {
    if b {
        s
    } else {
        Seq::empty()
    }
}

/// The column's piece of a CREATE TABLE statement.
pub open spec fn sql_fragment_spec(c: NewColumnV) -> Seq<char> {
    c.column_name + " "@ + pg_type(c.column_type) + opt_chars(c.unique, " unique"@)
        + opt_chars(!c.nullable, " not null"@)
}

impl NewColumn {
    pub fn sql_fragment(&self) -> (r: String)
        ensures
            r@ == sql_fragment_spec(self@),
    {
        let mut s = self.column_name.clone();
        s.append(" ");
        let t = pg_sql_type(self.column_type.as_str());
        s.append(t.as_str());
        if self.unique {
            s.append(" unique");
        }
        if !self.nullable {
            s.append(" not null");
        }
        proof {
            assert(s@ =~= sql_fragment_spec(self@));
        }
        s
    }
}

/// The view of a foreign-key record.
#[verifier::ext_equal]
pub struct ForeignKeyV {
    pub namespace: Seq<char>,
    pub table_name: Seq<char>,
    pub column_name: Seq<char>,
    pub reference_table_name: Seq<char>,
    pub reference_column_name: Seq<char>,
    pub reference_column_type: Seq<char>,
}

/// One foreign-key constraint to create.
#[derive(Clone, Debug)]
pub struct ForeignKey {
    pub db_type: DbType,
    pub namespace: String,
    pub table_name: String,
    pub column_name: String,
    pub reference_table_name: String,
    pub reference_column_name: String,
    pub reference_column_type: String,
}

impl View for ForeignKey {
    type V = ForeignKeyV;

    open spec fn view(&self) -> ForeignKeyV {
        ForeignKeyV {
            namespace: self.namespace@,
            table_name: self.table_name@,
            column_name: self.column_name@,
            reference_table_name: self.reference_table_name@,
            reference_column_name: self.reference_column_name@,
            reference_column_type: self.reference_column_type@,
        }
    }
}

/// The ALTER TABLE statement adding the constraint. Its name takes the
/// form `fk_{table}_{column}__{referenced table}_{referenced column}`.
pub open spec fn fk_statement_spec(f: ForeignKeyV) -> Seq<char> {
    "ALTER TABLE "@ + f.namespace + "."@ + f.table_name + " ADD CONSTRAINT fk_"@
        + f.table_name + "_"@ + f.column_name + "__"@ + f.reference_table_name + "_"@
        + f.reference_column_name + " FOREIGN KEY ("@ + f.column_name + ") REFERENCES "@
        + f.namespace + "."@ + f.reference_table_name + "("@ + f.reference_column_name
        + ") ON DELETE NO ACTION ON UPDATE NO ACTION INITIALLY DEFERRED;"@
}

impl ForeignKey {
    pub fn new(
        db_type: DbType,
        namespace: String,
        table_name: String,
        column_name: String,
        reference_table_name: String,
        reference_column_name: String,
        reference_column_type: String,
    ) -> (r: Self)
        ensures
            r.db_type == db_type,
            r@ == (ForeignKeyV {
                namespace: namespace@,
                table_name: table_name@,
                column_name: column_name@,
                reference_table_name: reference_table_name@,
                reference_column_name: reference_column_name@,
                reference_column_type: reference_column_type@,
            }),
    {
        ForeignKey {
            db_type,
            namespace,
            table_name,
            column_name,
            reference_table_name,
            reference_column_name,
            reference_column_type,
        }
    }

    pub fn create_statement(&self) -> (r: String)
        ensures
            r@ == fk_statement_spec(self@),
    {
        let mut s: String = "ALTER TABLE ".to_owned();
        s.append(self.namespace.as_str());
        s.append(".");
        s.append(self.table_name.as_str());
        s.append(" ADD CONSTRAINT fk_");
        s.append(self.table_name.as_str());
        s.append("_");
        s.append(self.column_name.as_str());
        s.append("__");
        s.append(self.reference_table_name.as_str());
        s.append("_");
        s.append(self.reference_column_name.as_str());
        s.append(" FOREIGN KEY (");
        s.append(self.column_name.as_str());
        s.append(") REFERENCES ");
        s.append(self.namespace.as_str());
        s.append(".");
        s.append(self.reference_table_name.as_str());
        s.append("(");
        s.append(self.reference_column_name.as_str());
        s.append(") ON DELETE NO ACTION ON UPDATE NO ACTION INITIALLY DEFERRED;");
        proof {
            assert(s@ =~= fk_statement_spec(self@));
        }
        s
    }
}

/// The secondary-index access method.
#[derive(Clone, Copy, Debug, PartialEq, Eq, Structural)]
pub enum IndexMethod {
    Btree,
}

/// The view of a secondary-index record.
#[verifier::ext_equal]
pub struct ColumnIndexV {
    pub table_name: Seq<char>,
    pub namespace: Seq<char>,
    pub unique: bool,
    pub column_name: Seq<char>,
}

/// One secondary index to create.
#[derive(Clone, Debug)]
pub struct ColumnIndex {
    pub db_type: DbType,
    pub table_name: String,
    pub namespace: String,
    pub method: IndexMethod,
    pub unique: bool,
    pub column_name: String,
}

impl View for ColumnIndex {
    type V = ColumnIndexV;

    open spec fn view(&self) -> ColumnIndexV {
        ColumnIndexV {
            table_name: self.table_name@,
            namespace: self.namespace@,
            unique: self.unique,
            column_name: self.column_name@,
        }
    }
}

/// The CREATE INDEX statement. Its name takes the form
/// `{table}_{column}_idx`.
pub open spec fn idx_statement_spec(x: ColumnIndexV) -> Seq<char> {
    opt_chars(x.unique, "CREATE UNIQUE INDEX "@) + opt_chars(!x.unique, "CREATE INDEX "@)
        + x.table_name + "_"@ + x.column_name + "_idx ON "@ + x.namespace + "."@
        + x.table_name + " USING btree ("@ + x.column_name + ");"@
}

impl ColumnIndex {
    pub fn create_statement(&self) -> (r: String)
        ensures
            r@ == idx_statement_spec(self@),
    {
        let mut s: String = if self.unique {
            "CREATE UNIQUE INDEX ".to_owned()
        } else {
            "CREATE INDEX ".to_owned()
        };
        s.append(self.table_name.as_str());
        s.append("_");
        s.append(self.column_name.as_str());
        s.append("_idx ON ");
        s.append(self.namespace.as_str());
        s.append(".");
        s.append(self.table_name.as_str());
        s.append(" USING btree (");
        s.append(self.column_name.as_str());
        s.append(");");
        proof {
            assert(s@ =~= idx_statement_spec(self@));
        }
        s
    }
}

/// The view of a persisted type-id row.
#[verifier::ext_equal]
pub struct TypeIdV {
    pub id: int,
    pub schema_version: Seq<char>,
    pub schema_name: Seq<char>,
    pub schema_identifier: Seq<char>,
    pub graphql_name: Seq<char>,
    pub table_name: Seq<char>,
}

/// One persisted type-id row.
#[derive(Clone, Debug)]
pub struct TypeId {
    pub id: i64,
    pub schema_version: String,
    pub schema_name: String,
    pub schema_identifier: String,
    pub graphql_name: String,
    pub table_name: String,
}

impl View for TypeId {
    type V = TypeIdV;

    open spec fn view(&self) -> TypeIdV {
        TypeIdV {
            id: self.id as int,
            schema_version: self.schema_version@,
            schema_name: self.schema_name@,
            schema_identifier: self.schema_identifier@,
            graphql_name: self.graphql_name@,
            table_name: self.table_name@,
        }
    }
}

/// The persisted root row of one schema version.
#[derive(Clone, Debug)]
pub struct NewGraphRoot {
    pub version: String,
    pub schema_name: String,
    pub schema_identifier: String,
    pub query: String,
    pub schema: String,
}

/// One persisted root-column row.
#[derive(Clone, Debug)]
pub struct NewRootColumns {
    pub root_id: i64,
    pub column_name: String,
    pub graphql_type: String,
}

/// The views of a string vector.
pub open spec fn strings_view(s: Seq<String>) -> Seq<Seq<char>> {
    Seq::new(s.len(), |i: int| s[i]@)
}

pub open spec fn cols_view(s: Seq<NewColumn>) -> Seq<NewColumnV> {
    Seq::new(s.len(), |i: int| s[i]@)
}

pub open spec fn fks_view(s: Seq<ForeignKey>) -> Seq<ForeignKeyV> {
    Seq::new(s.len(), |i: int| s[i]@)
}

pub open spec fn idxs_view(s: Seq<ColumnIndex>) -> Seq<ColumnIndexV> {
    Seq::new(s.len(), |i: int| s[i]@)
}

pub open spec fn tids_view(s: Seq<TypeId>) -> Seq<TypeIdV> {
    Seq::new(s.len(), |i: int| s[i]@)
}

/// The field/type dictionary of a document: `Type.field` to the field's
/// innermost type name, in definition order.
pub open spec fn tm_fields(
    m: Seq<(Seq<char>, Seq<char>)>,
    oname: Seq<char>,
    fs: Seq<FieldDef>,
) -> Seq<(Seq<char>, Seq<char>)>
    decreases fs.len(),
{
    if fs.len() == 0 {
        m
    } else {
        sm_insert(
            tm_fields(m, oname, fs.drop_last()),
            oname + "."@ + fs.last().name@,
            base_name(fs.last().field_type),
        )
    }
}

pub open spec fn tm_items(
    m: Seq<(Seq<char>, Seq<char>)>,
    items: Seq<SchemaItem>,
) -> Seq<(Seq<char>, Seq<char>)>
    decreases items.len(),
{
    if items.len() == 0 {
        m
    } else {
        let prev = tm_items(m, items.drop_last());
        match items.last() {
            SchemaItem::Root { .. } => prev,
            SchemaItem::Object(o) => tm_fields(prev, o.name@, o.fields@),
        }
    }
}

pub open spec fn types_map_of(items: Seq<SchemaItem>) -> Seq<(Seq<char>, Seq<char>)> {
    tm_items(Seq::empty(), items)
}

/// Builds the `Type.field` dictionary the directive resolution reads.
pub fn build_types_map(doc: &SchemaDoc) -> (m: StrMap<String>)
    ensures
        m@ == types_map_of(doc.items@),
        m.wf(),
{
    let mut m: StrMap<String> = StrMap::new();
    let items = &doc.items;
    let mut i: usize = 0;
    proof {
        assert(doc.items@.subrange(0, 0) =~= Seq::<SchemaItem>::empty());
    }
    while i < items.len()
        invariant
            i <= items@.len(),
            items@ == doc.items@,
            m.wf(),
            m@ == tm_items(Seq::empty(), items@.subrange(0, i as int)),
        decreases items@.len() - i,
    {
        let ghost pre = m@;
        match &items[i] {
            SchemaItem::Root { .. } => {},
            SchemaItem::Object(o) => {
                let mut k: usize = 0;
                proof {
                    assert(o.fields@.subrange(0, 0) =~= Seq::<FieldDef>::empty());
                }
                while k < o.fields.len()
                    invariant
                        k <= o.fields@.len(),
                        m.wf(),
                        m@ == tm_fields(pre, o.name@, o.fields@.subrange(0, k as int)),
                    decreases o.fields@.len() - k,
                {
                    let f = &o.fields[k];
                    let mut key = o.name.clone();
                    key.append(".");
                    key.append(f.name.as_str());
                    let v = type_base_name(&f.field_type);
                    m.insert(key, v);
                    proof {
                        assert(o.fields@.subrange(0, k + 1).drop_last() =~= o.fields@.subrange(
                            0,
                            k as int,
                        ));
                        assert(o.fields@.subrange(0, k + 1).last() == o.fields@[k as int]);
                    }
                    k = k + 1;
                }
                proof {
                    assert(o.fields@.subrange(0, o.fields@.len() as int) =~= o.fields@);
                }
            },
        }
        proof {
            assert(items@.subrange(0, i + 1).drop_last() =~= items@.subrange(0, i as int));
            assert(items@.subrange(0, i + 1).last() == items@[i as int]);
        }
        i = i + 1;
    }
    proof {
        assert(items@.subrange(0, items@.len() as int) =~= items@);
    }
    m
}

/// The name of the query root: the first schema definition's query.
pub open spec fn first_root_of(items: Seq<SchemaItem>) -> Option<Seq<char>>
    decreases items.len(),
{
    if items.len() == 0 {
        None
    } else {
        match items[0] {
            SchemaItem::Root { query } => Some(query@),
            _ => first_root_of(items.drop_first()),
        }
    }
}

pub fn find_query_root(doc: &SchemaDoc) -> (r: Option<String>)
    ensures
        match r {
            Some(q) => first_root_of(doc.items@) == Some(q@),
            None => first_root_of(doc.items@) is None,
        },
{
    let items = &doc.items;
    let mut i: usize = 0;
    proof {
        assert(items@.subrange(0, items@.len() as int) =~= items@);
    }
    while i < items.len()
        invariant
            i <= items@.len(),
            items@ == doc.items@,
            first_root_of(items@) == first_root_of(
                items@.subrange(i as int, items@.len() as int),
            ),
        decreases items@.len() - i,
    {
        proof {
            assert(items@.subrange(i as int, items@.len() as int).drop_first()
                =~= items@.subrange(i + 1, items@.len() as int));
            assert(items@.subrange(i as int, items@.len() as int)[0] == items@[i as int]);
        }
        if let SchemaItem::Root { query } = &items[i] {
            proof {
                assert(items@[i as int] is Root);
                assert(first_root_of(items@.subrange(i as int, items@.len() as int))
                    == Some(query@));
                assert(first_root_of(doc.items@) == Some(query@));
            }
            let q = query.clone();
            assert(q@ == query@);
            return Some(q);
        }
        i = i + 1;
    }
    None
}


/// True of a field whose type is not a built-in leaf: it becomes a
/// foreign-key column.
pub open spec fn field_is_fk(f: FieldDef) -> bool {
    !is_primitive_chars(base_name(f.field_type))
}

/// The referenced column: the join directive\'s argument, `id` otherwise.
pub open spec fn fk_ref_col(f: FieldDef) -> Seq<char> {
    match join_on_of(f.directives@) {
        Some(x) => x,
        None => "id"@,
    }
}

/// The dictionary key under which the referenced column\'s type stands.
pub open spec fn fk_ref_type_key(f: FieldDef) -> Seq<char> {
    base_name(f.field_type) + "."@ + fk_ref_col(f)
}

/// A field lowers cleanly when it is no list and, for a foreign key,
/// the referenced column is declared.
pub open spec fn field_ok(tm: Seq<(Seq<char>, Seq<char>)>, f: FieldDef) -> bool {
    !contains_list(f.field_type) && (field_is_fk(f) ==> sm_contains(tm, fk_ref_type_key(f)))
}

pub open spec fn fields_all_ok(tm: Seq<(Seq<char>, Seq<char>)>, fs: Seq<FieldDef>) -> bool {
    forall|j: int| 0 <= j < fs.len() ==> field_ok(tm, #[trigger] fs[j])
}

/// Every non-root object\'s fields lower cleanly.
pub open spec fn doc_all_ok(
    tm: Seq<(Seq<char>, Seq<char>)>,
    items: Seq<SchemaItem>,
    root: Seq<char>,
) -> bool {
    forall|i: int|
        0 <= i < items.len() ==> match #[trigger] items[i] {
            SchemaItem::Object(o) => o.name@ != root ==> fields_all_ok(tm, o.fields@),
            SchemaItem::Root { .. } => true,
        }
}

/// The column\'s stored type name: the referenced column\'s type for a
/// foreign key, the leaf name otherwise.
pub open spec fn field_col_type(tm: Seq<(Seq<char>, Seq<char>)>, f: FieldDef) -> Seq<char> {
    if field_is_fk(f) {
        sm_get(tm, fk_ref_type_key(f))
    } else {
        base_name(f.field_type)
    }
}

/// The column\'s stored declared type: the target type name for a
/// foreign key, the printed reference otherwise.
pub open spec fn field_graphql_type(f: FieldDef) -> Seq<char> {
    if field_is_fk(f) {
        base_name(f.field_type)
    } else {
        type_ref_chars(f.field_type)
    }
}

pub open spec fn field_colv(
    tm: Seq<(Seq<char>, Seq<char>)>,
    tid: int,
    pos: int,
    f: FieldDef,
) -> NewColumnV {
    NewColumnV {
        type_id: tid,
        column_position: pos,
        column_name: f.name@,
        column_type: field_col_type(tm, f),
        graphql_type: field_graphql_type(f),
        nullable: top_nullable(f.field_type),
        unique: has_unique(f.directives@),
    }
}

pub open spec fn field_fkv(
    tm: Seq<(Seq<char>, Seq<char>)>,
    ns_id: Seq<char>,
    table: Seq<char>,
    f: FieldDef,
) -> ForeignKeyV {
    ForeignKeyV {
        namespace: ns_id,
        table_name: table,
        column_name: f.name@,
        reference_table_name: lower_seq(base_name(f.field_type)),
        reference_column_name: fk_ref_col(f),
        reference_column_type: field_col_type(tm, f),
    }
}

pub open spec fn field_idxv(ns_id: Seq<char>, table: Seq<char>, f: FieldDef) -> ColumnIndexV {
    ColumnIndexV {
        table_name: table,
        namespace: ns_id,
        unique: has_unique(f.directives@),
        column_name: f.name@,
    }
}

/// The opaque entity column closing every table.
pub open spec fn object_colv(tid: int, pos: int) -> NewColumnV {
    NewColumnV {
        type_id: tid,
        column_position: pos,
        column_name: "object"@,
        column_type: "Object"@,
        graphql_type: "__"@,
        nullable: false,
        unique: false,
    }
}

/// What lowering an object\'s user fields yields, in field order.
#[verifier::ext_equal]
pub struct FieldsOut {
    pub frags: Seq<Seq<char>>,
    pub cols: Seq<NewColumnV>,
    pub fks: Seq<ForeignKeyV>,
    pub idxs: Seq<ColumnIndexV>,
}

pub open spec fn fields_out(
    tm: Seq<(Seq<char>, Seq<char>)>,
    ns_id: Seq<char>,
    table: Seq<char>,
    tid: int,
    fs: Seq<FieldDef>,
) -> FieldsOut
    decreases fs.len(),
{
    if fs.len() == 0 {
        FieldsOut {
            frags: Seq::empty(),
            cols: Seq::empty(),
            fks: Seq::empty(),
            idxs: Seq::empty(),
        }
    } else {
        let prev = fields_out(tm, ns_id, table, tid, fs.drop_last());
        let f = fs.last();
        let colv = field_colv(tm, tid, fs.len() - 1, f);
        FieldsOut {
            frags: prev.frags.push(sql_fragment_spec(colv)),
            cols: prev.cols.push(colv),
            fks: if field_is_fk(f) {
                prev.fks.push(field_fkv(tm, ns_id, table, f))
            } else {
                prev.fks
            },
            idxs: if !field_is_fk(f) && has_indexed(f.directives@) {
                prev.idxs.push(field_idxv(ns_id, table, f))
            } else {
                prev.idxs
            },
        }
    }
}

proof fn lemma_fields_out_len(
    tm: Seq<(Seq<char>, Seq<char>)>,
    ns_id: Seq<char>,
    table: Seq<char>,
    tid: int,
    fs: Seq<FieldDef>,
)
    ensures
        fields_out(tm, ns_id, table, tid, fs).frags.len() == fs.len(),
        fields_out(tm, ns_id, table, tid, fs).cols.len() == fs.len(),
    decreases fs.len(),
{
    if fs.len() > 0 {
        lemma_fields_out_len(tm, ns_id, table, tid, fs.drop_last());
    }
}

/// The per-object field dictionary: field name to printed type.
pub open spec fn fmap_of(fs: Seq<FieldDef>) -> Seq<(Seq<char>, Seq<char>)>
    decreases fs.len(),
{
    if fs.len() == 0 {
        Seq::empty()
    } else {
        sm_insert(fmap_of(fs.drop_last()), fs.last().name@, type_ref_chars(fs.last().field_type))
    }
}

/// Column fragments joined for a CREATE TABLE body.
pub open spec fn joined_frags(fr: Seq<Seq<char>>) -> Seq<char>
    decreases fr.len(),
{
    if fr.len() == 0 {
        Seq::empty()
    } else if fr.len() == 1 {
        fr[0]
    } else {
        joined_frags(fr.drop_last()) + ",\n"@ + fr.last()
    }
}

/// The field dictionary of one object.
pub fn object_field_map(o: &ObjectDef) -> (m: StrMap<String>)
    ensures
        m@ == fmap_of(o.fields@),
        m.wf(),
{
    let mut m: StrMap<String> = StrMap::new();
    let mut k: usize = 0;
    proof {
        assert(o.fields@.subrange(0, 0) =~= Seq::<FieldDef>::empty());
    }
    while k < o.fields.len()
        invariant
            k <= o.fields@.len(),
            m.wf(),
            m@ == fmap_of(o.fields@.subrange(0, k as int)),
        decreases o.fields@.len() - k,
    {
        let f = &o.fields[k];
        m.insert(f.name.clone(), type_ref_str(&f.field_type));
        proof {
            assert(o.fields@.subrange(0, k + 1).drop_last() =~= o.fields@.subrange(
                0,
                k as int,
            ));
            assert(o.fields@.subrange(0, k + 1).last() == o.fields@[k as int]);
        }
        k = k + 1;
    }
    proof {
        assert(o.fields@.subrange(0, o.fields@.len() as int) =~= o.fields@);
    }
    m
}

/// What lowering one object to a table yields.
pub struct ObjectLowering {
    pub columns_sql: String,
    pub cols: Vec<NewColumn>,
    pub fks: Vec<ForeignKey>,
    pub idxs: Vec<ColumnIndex>,
}

/// Lowers one non-root object\'s fields: the column fragments, column
/// records, foreign keys and indices, with the opaque entity column
/// appended last.
fn lower_object(
    tm: &StrMap<String>,
    ns_id: &String,
    table: &String,
    tid: i64,
    o: &ObjectDef,
) -> (r: Result<ObjectLowering, SchemaError>)
    requires
        tm.wf(),
    ensures
        match r {
            Ok(ol) => {
                let fo = fields_out(tm@, ns_id@, table@, tid as int, o.fields@);
                &&& fields_all_ok(tm@, o.fields@)
                &&& ol.columns_sql@ == joined_frags(
                    fo.frags.push(
                        sql_fragment_spec(object_colv(tid as int, o.fields@.len() as int)),
                    ),
                )
                &&& cols_view(ol.cols@) == fo.cols.push(
                    object_colv(tid as int, o.fields@.len() as int),
                )
                &&& fks_view(ol.fks@) == fo.fks
                &&& idxs_view(ol.idxs@) == fo.idxs
            },
            Err(e) => !fields_all_ok(tm@, o.fields@) && (e is ListField || e
                is UnresolvedType),
        },
{
    let mut cols: Vec<NewColumn> = Vec::new();
    let mut fks: Vec<ForeignKey> = Vec::new();
    let mut idxs: Vec<ColumnIndex> = Vec::new();
    let mut columns_sql = String::new();
    let mut k: usize = 0;
    proof {
        assert(o.fields@.subrange(0, 0) =~= Seq::<FieldDef>::empty());
        assert(cols_view(cols@) =~~= fields_out(
            tm@,
            ns_id@,
            table@,
            tid as int,
            o.fields@.subrange(0, 0),
        ).cols);
        assert(fks_view(fks@) =~~= Seq::<ForeignKeyV>::empty());
        assert(idxs_view(idxs@) =~~= Seq::<ColumnIndexV>::empty());
    }
    while k < o.fields.len()
        invariant
            k <= o.fields@.len(),
            tm.wf(),
            fields_all_ok(tm@, o.fields@.subrange(0, k as int)),
            cols_view(cols@) == fields_out(
                tm@,
                ns_id@,
                table@,
                tid as int,
                o.fields@.subrange(0, k as int),
            ).cols,
            fks_view(fks@) == fields_out(
                tm@,
                ns_id@,
                table@,
                tid as int,
                o.fields@.subrange(0, k as int),
            ).fks,
            idxs_view(idxs@) == fields_out(
                tm@,
                ns_id@,
                table@,
                tid as int,
                o.fields@.subrange(0, k as int),
            ).idxs,
            columns_sql@ == joined_frags(
                fields_out(tm@, ns_id@, table@, tid as int, o.fields@.subrange(0, k as int)).frags,
            ),
        decreases o.fields@.len() - k,
    {
        let ghost pre = o.fields@.subrange(0, k as int);
        let ghost fo_pre = fields_out(tm@, ns_id@, table@, tid as int, pre);
        let f = &o.fields[k];
        if type_contains_list(&f.field_type) {
            proof {
                assert(!field_ok(tm@, o.fields@[k as int]));
            }
            return Err(SchemaError::ListField(f.name.clone()));
        }
        let base = type_base_name(&f.field_type);
        let nullable = type_nullable(&f.field_type);
        let unique = directive_unique(&f.directives);
        let col: NewColumn;
        if is_primitive(base.as_str()) {
            col = NewColumn {
                type_id: tid,
                column_position: k,
                column_name: f.name.clone(),
                column_type: base,
                graphql_type: type_ref_str(&f.field_type),
                nullable,
                unique,
            };
            if directive_indexed(&f.directives) {
                idxs.push(
                    ColumnIndex {
                        db_type: DbType::Postgres,
                        table_name: table.clone(),
                        namespace: ns_id.clone(),
                        method: IndexMethod::Btree,
                        unique,
                        column_name: f.name.clone(),
                    },
                );
            }
        } else {
            let ref_col = match directive_join_on(&f.directives) {
                Some(x) => x,
                None => "id".to_owned(),
            };
            let mut key = base.clone();
            key.append(".");
            key.append(ref_col.as_str());
            let ref_type: String = match tm.get(key.as_str()) {
                Some(v) => v.clone(),
                None => {
                    proof {
                        assert(!field_ok(tm@, o.fields@[k as int]));
                    }
                    return Err(SchemaError::UnresolvedType(key));
                },
            };
            let fk = ForeignKey::new(
                DbType::Postgres,
                ns_id.clone(),
                table.clone(),
                f.name.clone(),
                to_lower(base.as_str()),
                ref_col,
                ref_type.clone(),
            );
            fks.push(fk);
            col = NewColumn {
                type_id: tid,
                column_position: k,
                column_name: f.name.clone(),
                column_type: ref_type,
                graphql_type: base,
                nullable,
                unique,
            };
        }
        let frag = col.sql_fragment();
        proof {
            assert(col@ =~= field_colv(tm@, tid as int, k as int, o.fields@[k as int]));
        }
        cols.push(col);
        if k > 0 {
            columns_sql.append(",\n");
        }
        columns_sql.append(frag.as_str());
        proof {
            let cur = o.fields@.subrange(0, k + 1);
            assert(cur.drop_last() =~= pre);
            assert(cur.last() == o.fields@[k as int]);
            let fo_cur = fields_out(tm@, ns_id@, table@, tid as int, cur);
            assert(field_ok(tm@, o.fields@[k as int]));
            assert(fields_all_ok(tm@, cur));
            assert(cols_view(cols@) =~~= fo_cur.cols);
            assert(fks_view(fks@) =~~= fo_cur.fks);
            assert(idxs_view(idxs@) =~~= fo_cur.idxs);
            assert(fo_cur.frags.drop_last() =~= fo_pre.frags);
            assert(columns_sql@ =~= joined_frags(fo_cur.frags));
        }
        k = k + 1;
    }
    let ocol = NewColumn {
        type_id: tid,
        column_position: o.fields.len(),
        column_name: "object".to_owned(),
        column_type: "Object".to_owned(),
        graphql_type: "__".to_owned(),
        nullable: false,
        unique: false,
    };
    let frag = ocol.sql_fragment();
    proof {
        assert(o.fields@.subrange(0, o.fields@.len() as int) =~= o.fields@);
        assert(ocol@ =~= object_colv(tid as int, o.fields@.len() as int));
    }
    let ghost fo = fields_out(tm@, ns_id@, table@, tid as int, o.fields@);
    cols.push(ocol);
    if o.fields.len() > 0 {
        columns_sql.append(",\n");
    }
    columns_sql.append(frag.as_str());
    proof {
        let full = fo.frags.push(
            sql_fragment_spec(object_colv(tid as int, o.fields@.len() as int)),
        );
        assert(full.drop_last() =~= fo.frags);
        lemma_fields_out_len(tm@, ns_id@, table@, tid as int, o.fields@);
        assert(columns_sql@ =~= joined_frags(full));
        assert(cols_view(cols@) =~~= fo.cols.push(
            object_colv(tid as int, o.fields@.len() as int),
        ));
    }
    Ok(ObjectLowering { columns_sql, cols, fks, idxs })
}


/// True when the list of names holds the name.
pub open spec fn str_in(ss: Seq<Seq<char>>, x: Seq<char>) -> bool {
    exists|i: int| 0 <= i < ss.len() && ss[i] == x
}

/// Set-like push: already-known names are kept once.
pub open spec fn set_push(ss: Seq<Seq<char>>, x: Seq<char>) -> Seq<Seq<char>> {
    if str_in(ss, x) {
        ss
    } else {
        ss.push(x)
    }
}

fn contains_string(v: &Vec<String>, x: &str) -> (r: bool)
    ensures
        r == str_in(strings_view(v@), x@),
{
    let mut i: usize = 0;
    while i < v.len()
        invariant
            i <= v@.len(),
            forall|j: int| 0 <= j < i ==> strings_view(v@)[j] != x@,
        decreases v@.len() - i,
    {
        if str_eq(v[i].as_str(), x) {
            proof {
                assert(strings_view(v@)[i as int] == x@);
            }
            return true;
        }
        i = i + 1;
    }
    false
}

/// The namespaced schema of an indexer: `{namespace}_{identifier}`.
pub open spec fn ns_id_of(ns: Seq<char>, ident: Seq<char>) -> Seq<char> {
    ns + "_"@ + ident
}

pub open spec fn create_schema_chars(ns_id: Seq<char>) -> Seq<char> {
    "CREATE SCHEMA IF NOT EXISTS "@ + ns_id
}

/// One CREATE TABLE statement.
pub open spec fn table_stmt_spec(ns_id: Seq<char>, table: Seq<char>, body: Seq<char>) -> Seq<
    char,
> {
    "CREATE TABLE IF NOT EXISTS\n "@ + ns_id + "."@ + table + " (\n "@ + body + "\n)"@
}

/// The table body of one object: its column fragments and the closing
/// entity column.
pub open spec fn obj_body(
    tm: Seq<(Seq<char>, Seq<char>)>,
    ns_id: Seq<char>,
    table: Seq<char>,
    tid: int,
    o: ObjectDef,
) -> Seq<char> {
    joined_frags(
        fields_out(tm, ns_id, table, tid, o.fields@).frags.push(
            sql_fragment_spec(object_colv(tid, o.fields@.len() as int)),
        ),
    )
}

/// Everything the schema compiler emits for a document, in definition
/// order.
#[verifier::ext_equal]
pub struct BuildOut {
    pub statements: Seq<Seq<char>>,
    pub tids: Seq<TypeIdV>,
    pub cols: Seq<NewColumnV>,
    pub fks: Seq<ForeignKeyV>,
    pub idxs: Seq<ColumnIndexV>,
    pub types: Seq<Seq<char>>,
    pub fields: Seq<(Seq<char>, Seq<(Seq<char>, Seq<char>)>)>,
    pub qfields: Seq<(Seq<char>, Seq<(Seq<char>, Seq<char>)>)>,
}

pub open spec fn build_out(
    tm: Seq<(Seq<char>, Seq<char>)>,
    ns_id: Seq<char>,
    ver: Seq<char>,
    ns: Seq<char>,
    ident: Seq<char>,
    root: Seq<char>,
    items: Seq<SchemaItem>,
) -> BuildOut
    decreases items.len(),
{
    if items.len() == 0 {
        BuildOut {
            statements: Seq::empty(),
            tids: Seq::empty(),
            cols: Seq::empty(),
            fks: Seq::empty(),
            idxs: Seq::empty(),
            types: Seq::empty(),
            fields: Seq::empty(),
            qfields: Seq::empty(),
        }
    } else {
        let prev = build_out(tm, ns_id, ver, ns, ident, root, items.drop_last());
        match items.last() {
            SchemaItem::Root { .. } => prev,
            SchemaItem::Object(o) => {
                let types2 = set_push(prev.types, o.name@);
                let fields2 = sm_insert(prev.fields, o.name@, fmap_of(o.fields@));
                if o.name@ == root {
                    BuildOut {
                        statements: prev.statements,
                        tids: prev.tids,
                        cols: prev.cols,
                        fks: prev.fks,
                        idxs: prev.idxs,
                        types: types2,
                        fields: fields2,
                        qfields: sm_insert(prev.qfields, root, fmap_of(o.fields@)),
                    }
                } else {
                    let table = lower_seq(o.name@);
                    let tid = crate::utils::type_id_of(ns_id, o.name@);
                    let fo = fields_out(tm, ns_id, table, tid, o.fields@);
                    BuildOut {
                        statements: prev.statements.push(
                            table_stmt_spec(ns_id, table, obj_body(tm, ns_id, table, tid, o)),
                        ),
                        tids: prev.tids.push(
                            TypeIdV {
                                id: tid,
                                schema_version: ver,
                                schema_name: ns,
                                schema_identifier: ident,
                                graphql_name: o.name@,
                                table_name: table,
                            },
                        ),
                        cols: prev.cols + fo.cols.push(
                            object_colv(tid, o.fields@.len() as int),
                        ),
                        fks: prev.fks + fo.fks,
                        idxs: prev.idxs + fo.idxs,
                        types: types2,
                        fields: fields2,
                        qfields: prev.qfields,
                    }
                }
            },
        }
    }
}

/// Lowers the type-graph to DDL and the reflection dictionaries.
#[derive(Debug)]
pub struct SchemaBuilder {
    pub db_type: DbType,
    pub statements: Vec<String>,
    pub type_ids: Vec<TypeId>,
    pub columns: Vec<NewColumn>,
    pub foreign_keys: Vec<ForeignKey>,
    pub indices: Vec<ColumnIndex>,
    pub namespace: String,
    pub identifier: String,
    pub version: String,
    pub schema: String,
    pub types: Vec<String>,
    pub fields: StrMap<StrMap<String>>,
    pub query: String,
    pub query_fields: StrMap<StrMap<String>>,
}

/// What holds of a builder after a document was lowered into it: every
/// emitted collection equals the document-order specification.
pub open spec fn builder_matches(b: SchemaBuilder, items: Seq<SchemaItem>, text: Seq<char>) -> bool {
    let ns_id = ns_id_of(b.namespace@, b.identifier@);
    let tm = types_map_of(items);
    let root = first_root_of(items);
    &&& root is Some
    &&& b.query@ == root->Some_0
    &&& doc_all_ok(tm, items, root->Some_0)
    &&& strings_view(b.statements@) == seq![create_schema_chars(ns_id)] + build_out(
        tm,
        ns_id,
        b.version@,
        b.namespace@,
        b.identifier@,
        root->Some_0,
        items,
    ).statements
    &&& tids_view(b.type_ids@) == build_out(
        tm,
        ns_id,
        b.version@,
        b.namespace@,
        b.identifier@,
        root->Some_0,
        items,
    ).tids
    &&& cols_view(b.columns@) == build_out(
        tm,
        ns_id,
        b.version@,
        b.namespace@,
        b.identifier@,
        root->Some_0,
        items,
    ).cols
    &&& fks_view(b.foreign_keys@) == build_out(
        tm,
        ns_id,
        b.version@,
        b.namespace@,
        b.identifier@,
        root->Some_0,
        items,
    ).fks
    &&& idxs_view(b.indices@) == build_out(
        tm,
        ns_id,
        b.version@,
        b.namespace@,
        b.identifier@,
        root->Some_0,
        items,
    ).idxs
    &&& strings_view(b.types@) == build_out(
        tm,
        ns_id,
        b.version@,
        b.namespace@,
        b.identifier@,
        root->Some_0,
        items,
    ).types
    &&& b.fields@ == build_out(
        tm,
        ns_id,
        b.version@,
        b.namespace@,
        b.identifier@,
        root->Some_0,
        items,
    ).fields
    &&& b.query_fields@ == build_out(
        tm,
        ns_id,
        b.version@,
        b.namespace@,
        b.identifier@,
        root->Some_0,
        items,
    ).qfields
    &&& b.schema@ == text
    &&& b.fields.wf()
    &&& b.query_fields.wf()
}

impl SchemaBuilder {
    /// A builder holds nothing but its identity until a document is
    /// lowered.
    pub open spec fn is_fresh(&self) -> bool {
        &&& self.statements@.len() == 0
        &&& self.type_ids@.len() == 0
        &&& self.columns@.len() == 0
        &&& self.foreign_keys@.len() == 0
        &&& self.indices@.len() == 0
        &&& self.types@.len() == 0
        &&& self.fields@.len() == 0
        &&& self.query_fields@.len() == 0
        &&& self.fields.wf()
        &&& self.query_fields.wf()
    }

    pub fn new(namespace: &str, identifier: &str, version: &str, db_type: DbType) -> (r:
        SchemaBuilder)
        ensures
            r.is_fresh(),
            r.namespace@ == namespace@,
            r.identifier@ == identifier@,
            r.version@ == version@,
            r.db_type == db_type,
    {
        SchemaBuilder {
            db_type,
            statements: Vec::new(),
            type_ids: Vec::new(),
            columns: Vec::new(),
            foreign_keys: Vec::new(),
            indices: Vec::new(),
            namespace: namespace.to_owned(),
            identifier: identifier.to_owned(),
            version: version.to_owned(),
            schema: String::new(),
            types: Vec::new(),
            fields: StrMap::new(),
            query: String::new(),
            query_fields: StrMap::new(),
        }
    }

    /// The namespaced schema this builder writes into.
    pub fn namespace_identifier(&self) -> (r: String)
        ensures
            r@ == ns_id_of(self.namespace@, self.identifier@),
    {
        let mut s = self.namespace.clone();
        s.append("_");
        s.append(self.identifier.as_str());
        s
    }

    /// Why a well-rooted document was refused: either some field is
    /// list-typed or names an unknown type, or the root type named by the
    /// schema declaration is never defined.
    pub open spec fn doc_build_refused(
        self,
        e: SchemaError,
        items: Seq<SchemaItem>,
    ) -> bool {
        &&& (e is MissingQueryRoot <==> first_root_of(items) is None)
        &&& !(e is MissingQueryRoot) ==> !doc_all_ok(
            types_map_of(items),
            items,
            first_root_of(items)->Some_0,
        ) || !str_in(
            build_out(
                types_map_of(items),
                ns_id_of(self.namespace@, self.identifier@),
                self.version@,
                self.namespace@,
                self.identifier@,
                first_root_of(items)->Some_0,
                items,
            ).types,
            first_root_of(items)->Some_0,
        )
    }

    /// Why a document was refused, over the mathematical document alone.
    pub open spec fn doc_build_refused_v(
        self,
        e: SchemaError,
        items: Seq<SchemaItemV>,
    ) -> bool {
        &&& (e is MissingQueryRoot <==> first_root_of_v(items) is None)
        &&& !(e is MissingQueryRoot) ==> !doc_all_ok_v(
            types_map_of_v(items),
            items,
            first_root_of_v(items)->Some_0,
        ) || !str_in(
            build_out_v(
                types_map_of_v(items),
                ns_id_of(self.namespace@, self.identifier@),
                self.version@,
                self.namespace@,
                self.identifier@,
                first_root_of_v(items)->Some_0,
                items,
            ).types,
            first_root_of_v(items)->Some_0,
        )
    }

    /// The refusal transfers to the mathematical document.
    pub proof fn lemma_doc_build_refused_view(self, e: SchemaError, items: Seq<SchemaItem>)
        requires
            self.doc_build_refused(e, items),
        ensures
            self.doc_build_refused_v(e, items_view(items)),
    {
        lemma_tm_items_agree(Seq::empty(), items);
        lemma_first_root_agree(items);
        if !(e is MissingQueryRoot) {
            lemma_doc_all_ok_agree(types_map_of(items), items, first_root_of(items)->Some_0);
            lemma_build_out_agree(
                types_map_of(items),
                ns_id_of(self.namespace@, self.identifier@),
                self.version@,
                self.namespace@,
                self.identifier@,
                first_root_of(items)->Some_0,
                items,
            );
        }
    }

    /// Lowers a parsed document: one CREATE SCHEMA, one CREATE TABLE per
    /// object other than the query root, and the column, foreign-key,
    /// index and type-id records, all in definition order. Fails with
    /// `MissingQueryRoot` exactly when the document has no schema
    /// declaration, and on any list-typed or unresolvable field.
    pub fn build_document(self, doc: &SchemaDoc, schema_text: &str) -> (r: Result<
        SchemaBuilder,
        SchemaError,
    >)
        requires
            self.is_fresh(),
        ensures
            match r {
                Ok(b) => builder_matches(b, doc.items@, schema_text@) && b.namespace@
                    == self.namespace@ && b.identifier@ == self.identifier@ && b.version@
                    == self.version@ && b.db_type == self.db_type && str_in(
                    strings_view(b.types@),
                    b.query@,
                ),
                Err(e) => (e is MissingQueryRoot || e is ListField || e
                    is UnresolvedType) && self.doc_build_refused(e, doc.items@),
            },
    {
        let mut b = self;
        let query = match find_query_root(doc) {
            Some(q) => q,
            None => {
                return Err(SchemaError::MissingQueryRoot);
            },
        };
        let tm = build_types_map(doc);
        let ns_id = b.namespace_identifier();
        let mut cs: String = "CREATE SCHEMA IF NOT EXISTS ".to_owned();
        cs.append(ns_id.as_str());
        b.statements.push(cs);
        let ghost tmv = tm@;
        let ghost nsv = ns_id@;
        let ghost rootv = query@;
        let ghost ns0 = b.namespace@;
        let ghost id0 = b.identifier@;
        let ghost ver0 = b.version@;
        let ghost db0 = b.db_type;
        let items = &doc.items;
        let mut i: usize = 0;
        proof {
            assert(items@.subrange(0, 0) =~= Seq::<SchemaItem>::empty());
            assert(strings_view(b.statements@) =~~= seq![create_schema_chars(nsv)]
                + build_out(
                tmv,
                nsv,
                b.version@,
                b.namespace@,
                b.identifier@,
                rootv,
                items@.subrange(0, 0),
            ).statements);
            assert(tids_view(b.type_ids@) =~~= Seq::<TypeIdV>::empty());
            assert(cols_view(b.columns@) =~~= Seq::<NewColumnV>::empty());
            assert(fks_view(b.foreign_keys@) =~~= Seq::<ForeignKeyV>::empty());
            assert(idxs_view(b.indices@) =~~= Seq::<ColumnIndexV>::empty());
            assert(strings_view(b.types@) =~~= Seq::<Seq<char>>::empty());
        }
        while i < items.len()
            invariant
                i <= items@.len(),
                items@ == doc.items@,
                tm.wf(),
                tmv == tm@,
                tmv == types_map_of(doc.items@),
                nsv == ns_id_of(b.namespace@, b.identifier@),
                nsv == ns_id@,
                b.namespace@ == ns0,
                b.identifier@ == id0,
                b.version@ == ver0,
                b.db_type == db0,
                rootv == query@,
                first_root_of(doc.items@) == Some(rootv),
                b.fields.wf(),
                b.query_fields.wf(),
                doc_all_ok(tmv, items@.subrange(0, i as int), rootv),
                strings_view(b.statements@) == seq![create_schema_chars(nsv)] + build_out(
                    tmv,
                    nsv,
                    b.version@,
                    b.namespace@,
                    b.identifier@,
                    rootv,
                    items@.subrange(0, i as int),
                ).statements,
                tids_view(b.type_ids@) == build_out(
                    tmv,
                    nsv,
                    b.version@,
                    b.namespace@,
                    b.identifier@,
                    rootv,
                    items@.subrange(0, i as int),
                ).tids,
                cols_view(b.columns@) == build_out(
                    tmv,
                    nsv,
                    b.version@,
                    b.namespace@,
                    b.identifier@,
                    rootv,
                    items@.subrange(0, i as int),
                ).cols,
                fks_view(b.foreign_keys@) == build_out(
                    tmv,
                    nsv,
                    b.version@,
                    b.namespace@,
                    b.identifier@,
                    rootv,
                    items@.subrange(0, i as int),
                ).fks,
                idxs_view(b.indices@) == build_out(
                    tmv,
                    nsv,
                    b.version@,
                    b.namespace@,
                    b.identifier@,
                    rootv,
                    items@.subrange(0, i as int),
                ).idxs,
                strings_view(b.types@) == build_out(
                    tmv,
                    nsv,
                    b.version@,
                    b.namespace@,
                    b.identifier@,
                    rootv,
                    items@.subrange(0, i as int),
                ).types,
                b.fields@ == build_out(
                    tmv,
                    nsv,
                    b.version@,
                    b.namespace@,
                    b.identifier@,
                    rootv,
                    items@.subrange(0, i as int),
                ).fields,
                b.query_fields@ == build_out(
                    tmv,
                    nsv,
                    b.version@,
                    b.namespace@,
                    b.identifier@,
                    rootv,
                    items@.subrange(0, i as int),
                ).qfields,
            decreases items@.len() - i,
        {
            let ghost pre = items@.subrange(0, i as int);
            let ghost out_pre = build_out(
                tmv,
                nsv,
                b.version@,
                b.namespace@,
                b.identifier@,
                rootv,
                pre,
            );
            match &items[i] {
                SchemaItem::Root { .. } => {},
                SchemaItem::Object(o) => {
                    let fmap = object_field_map(o);
                    if !contains_string(&b.types, o.name.as_str()) {
                        b.types.push(o.name.clone());
                    }
                    proof {
                        assert(strings_view(b.types@) =~~= set_push(out_pre.types, o.name@));
                    }
                    b.fields.insert(o.name.clone(), fmap);
                    if str_eq(o.name.as_str(), query.as_str()) {
                        let fmap2 = object_field_map(o);
                        b.query_fields.insert(o.name.clone(), fmap2);
                    } else {
                        let table = to_lower(o.name.as_str());
                        let tid = crate::utils::type_id(ns_id.as_str(), o.name.as_str());
                        let mut ol = match lower_object(&tm, &ns_id, &table, tid, o) {
                            Ok(x) => x,
                            Err(e) => {
                                proof {
                                    assert(!fields_all_ok(tmv, o.fields@));
                                    assert(items@[i as int] is Object);
                                    assert(!doc_all_ok(tmv, doc.items@, rootv));
                                }
                                return Err(e);
                            },
                        };
                        let sql_table = b.db_type.table_name(ns_id.as_str(), table.as_str());
                        let mut stmt: String = "CREATE TABLE IF NOT EXISTS\n ".to_owned();
                        stmt.append(sql_table.as_str());
                        stmt.append(" (\n ");
                        stmt.append(ol.columns_sql.as_str());
                        stmt.append("\n)");
                        proof {
                            assert(stmt@ =~= table_stmt_spec(
                                nsv,
                                lower_seq(o.name@),
                                obj_body(
                                    tmv,
                                    nsv,
                                    lower_seq(o.name@),
                                    crate::utils::type_id_of(nsv, o.name@),
                                    *o,
                                ),
                            ));
                        }
                        b.statements.push(stmt);
                        b.type_ids.push(
                            TypeId {
                                id: tid,
                                schema_version: b.version.clone(),
                                schema_name: b.namespace.clone(),
                                schema_identifier: b.identifier.clone(),
                                graphql_name: o.name.clone(),
                                table_name: table,
                            },
                        );
                        b.columns.append(&mut ol.cols);
                        b.foreign_keys.append(&mut ol.fks);
                        b.indices.append(&mut ol.idxs);
                    }
                },
            }
            proof {
                let cur = items@.subrange(0, i + 1);
                assert(cur.drop_last() =~= pre);
                assert(cur.last() == items@[i as int]);
                let out_cur = build_out(
                    tmv,
                    nsv,
                    b.version@,
                    b.namespace@,
                    b.identifier@,
                    rootv,
                    cur,
                );
                assert(doc_all_ok(tmv, cur, rootv));
                match items@[i as int] {
                    SchemaItem::Root { .. } => {
                        assert(out_cur == out_pre);
                    },
                    SchemaItem::Object(ob) => {
                        if ob.name@ == rootv {
                            assert(out_cur.statements == out_pre.statements);
                        } else {
                            let tss = table_stmt_spec(
                                nsv,
                                lower_seq(ob.name@),
                                obj_body(
                                    tmv,
                                    nsv,
                                    lower_seq(ob.name@),
                                    crate::utils::type_id_of(nsv, ob.name@),
                                    ob,
                                ),
                            );
                            assert(out_cur.statements == out_pre.statements.push(tss));
                            assert(strings_view(b.statements@).last() == tss);
                            assert(strings_view(b.statements@).drop_last() =~~= seq![
                                create_schema_chars(nsv),
                            ] + out_pre.statements);
                            assert(strings_view(b.statements@) =~~= strings_view(
                                b.statements@,
                            ).drop_last().push(strings_view(b.statements@).last()));
                            assert((seq![create_schema_chars(nsv)] + out_pre.statements).push(
                                tss,
                            ) =~~= seq![create_schema_chars(nsv)] + out_pre.statements.push(
                                tss,
                            ));
                        }
                    },
                }
                assert(strings_view(b.statements@) =~~= seq![create_schema_chars(nsv)]
                    + out_cur.statements);
                assert(tids_view(b.type_ids@) =~~= out_cur.tids);
                assert(cols_view(b.columns@) =~~= out_cur.cols);
                assert(fks_view(b.foreign_keys@) =~~= out_cur.fks);
                assert(idxs_view(b.indices@) =~~= out_cur.idxs);
                assert(strings_view(b.types@) =~~= out_cur.types);
                assert(b.fields@ =~~= out_cur.fields);
                assert(b.query_fields@ =~~= out_cur.qfields);
            }
            i = i + 1;
        }
        proof {
            assert(items@.subrange(0, items@.len() as int) =~= items@);
        }
        if !contains_string(&b.types, query.as_str()) {
            return Err(SchemaError::UnresolvedType(query));
        }
        b.query = query;
        b.schema = schema_text.to_owned();
        Ok(b)
    }

    /// Lowers type-graph text: parsing followed by `build_document`.
    pub fn build(self, schema: &str) -> (r: Result<SchemaBuilder, SchemaError>)
        requires
            self.is_fresh(),
        ensures
            r is Err && r->Err_0 is SchemaParse <==> crate::type_graph::schema_doc_of(
                schema,
            ) is None,
            match r {
                Ok(b) => exists|d: SchemaDoc|
                    {
                        &&& crate::lex::toks_spec(schema.spec_bytes(), 0) == Some(
                            crate::type_graph::doc_toks(d),
                        )
                        &&& crate::type_graph::items_view(d.items@)
                            == crate::type_graph::schema_doc_of(schema)->Some_0
                        &&& #[trigger] builder_matches(b, d.items@, schema@)
                        &&& builder_matches_v(
                            b,
                            crate::type_graph::schema_doc_of(schema)->Some_0,
                            schema@,
                        )
                        &&& b.namespace@ == self.namespace@
                        &&& b.identifier@ == self.identifier@
                        &&& b.version@ == self.version@
                        &&& str_in(strings_view(b.types@), b.query@)
                    },
                Err(e) => {
                    &&& (e is SchemaParse || e is MissingQueryRoot || e is ListField || e
                        is UnresolvedType)
                    &&& (!(e is SchemaParse) ==> exists|d: SchemaDoc|
                        crate::lex::toks_spec(schema.spec_bytes(), 0) == Some(
                            crate::type_graph::doc_toks(d),
                        ) && crate::type_graph::items_view(d.items@)
                            == crate::type_graph::schema_doc_of(schema)->Some_0 && (
                        #[trigger] self.doc_build_refused(e, d.items@)))
                    &&& (!(e is SchemaParse) ==> self.doc_build_refused_v(
                        e,
                        crate::type_graph::schema_doc_of(schema)->Some_0,
                    ))
                },
            },
    {
        let doc = match crate::type_graph::parse_schema_doc(schema) {
            Ok(d) => d,
            Err(e) => {
                return Err(e);
            },
        };
        match self.build_document(&doc, schema) {
            Ok(b) => {
                proof {
                    assert(builder_matches(b, doc.items@, schema@));
                    lemma_builder_matches_view(b, doc.items@, schema@);
                }
                Ok(b)
            },
            Err(e) => {
                proof {
                    assert(crate::lex::toks_spec(schema.spec_bytes(), 0) == Some(
                        crate::type_graph::doc_toks(doc),
                    ));
                    self.lemma_doc_build_refused_view(e, doc.items@);
                }
                Err(e)
            },
        }
    }
}


/// The inner lookup of a two-level dictionary.
pub open spec fn inner_get(m: Seq<(Seq<char>, Seq<char>)>, name: Seq<char>) -> Option<
    Seq<char>,
> {
    if sm_contains(m, name) {
        Some(sm_get(m, name))
    } else {
        None
    }
}

/// The reflection lookup of a field\'s declared type: first under the
/// name as given, then under the name with non-null marks removed.
pub open spec fn field_type_spec(
    fields: Seq<(Seq<char>, Seq<(Seq<char>, Seq<char>)>)>,
    cond: Seq<char>,
    name: Seq<char>,
) -> Option<Seq<char>> {
    if sm_contains(fields, cond) {
        inner_get(sm_get(fields, cond), name)
    } else if sm_contains(fields, strip_bangs(cond)) {
        inner_get(sm_get(fields, strip_bangs(cond)), name)
    } else {
        None
    }
}

/// The foreign-key dictionary value of one target.
pub type FkDict = Seq<(Seq<char>, Seq<(Seq<char>, (Seq<char>, Seq<char>))>)>;

/// One field\'s contribution to the foreign-key dictionary.
pub open spec fn fkd_field(d: FkDict, oname_lc: Seq<char>, f: FieldDef) -> FkDict {
    if !field_is_fk(f) {
        d
    } else {
        let inner = if sm_contains(d, oname_lc) {
            sm_get(d, oname_lc)
        } else {
            Seq::empty()
        };
        sm_insert(
            d,
            oname_lc,
            sm_insert(inner, f.name@, (lower_seq(base_name(f.field_type)), fk_ref_col(f))),
        )
    }
}

pub open spec fn fkd_fields(d: FkDict, oname_lc: Seq<char>, fs: Seq<FieldDef>) -> FkDict
    decreases fs.len(),
{
    if fs.len() == 0 {
        d
    } else {
        fkd_field(fkd_fields(d, oname_lc, fs.drop_last()), oname_lc, fs.last())
    }
}

pub open spec fn fkd_items(d: FkDict, items: Seq<SchemaItem>) -> FkDict
    decreases items.len(),
{
    if items.len() == 0 {
        d
    } else {
        let prev = fkd_items(d, items.drop_last());
        match items.last() {
            SchemaItem::Root { .. } => prev,
            SchemaItem::Object(o) => if lower_seq(o.name@) == "queryroot"@ {
                prev
            } else {
                fkd_fields(prev, lower_seq(o.name@), o.fields@)
            },
        }
    }
}

/// The foreign-key dictionary of a document: for every non-leaf field of
/// every object, `lowercased owner -> field -> (lowercased target type,
/// joined column or id)`.
pub open spec fn fk_dict_of(items: Seq<SchemaItem>) -> FkDict {
    fkd_items(Seq::empty(), items)
}

/// Every owner\'s inner dictionary is key-unique.
pub open spec fn fk_dict_wf(d: FkDict) -> bool {
    &&& crate::strmap::sm_wf(d)
    &&& forall|i: int| 0 <= i < d.len() ==> crate::strmap::sm_wf((#[trigger] d[i]).1)
}

pub open spec fn base_name_v(t: TypeRefV) -> Seq<char>
    decreases t,
{
    match t {
        TypeRefV::NamedV { name } => name,
        TypeRefV::ListOfV { inner } => base_name_v(*inner),
        TypeRefV::NonNullV { inner } => base_name_v(*inner),
    }
}

pub open spec fn join_on_v(ds: Seq<DirectiveV>) -> Option<Seq<char>>
    decreases ds.len(),
{
    if ds.len() == 0 {
        None
    } else {
        match ds[0] {
            DirectiveV::JoinV { on } => Some(on),
            _ => join_on_v(ds.drop_first()),
        }
    }
}

pub open spec fn field_is_fk_v(f: FieldDefV) -> bool {
    !is_primitive_chars(base_name_v(f.field_type))
}

pub open spec fn fk_ref_col_v(f: FieldDefV) -> Seq<char> {
    match join_on_v(f.directives) {
        Some(x) => x,
        None => "id"@,
    }
}

/// One field\'s contribution to the foreign-key dictionary, over the
/// mathematical document.
pub open spec fn fkd_field_v(d: FkDict, oname_lc: Seq<char>, f: FieldDefV) -> FkDict {
    if !field_is_fk_v(f) {
        d
    } else {
        let inner = if sm_contains(d, oname_lc) {
            sm_get(d, oname_lc)
        } else {
            Seq::empty()
        };
        sm_insert(
            d,
            oname_lc,
            sm_insert(inner, f.name, (lower_seq(base_name_v(f.field_type)), fk_ref_col_v(f))),
        )
    }
}

pub open spec fn fkd_fields_v(
    d: FkDict,
    oname_lc: Seq<char>,
    fs: Seq<FieldDefV>,
) -> FkDict
    decreases fs.len(),
{
    if fs.len() == 0 {
        d
    } else {
        fkd_field_v(fkd_fields_v(d, oname_lc, fs.drop_last()), oname_lc, fs.last())
    }
}

pub open spec fn fkd_items_v(d: FkDict, items: Seq<SchemaItemV>) -> FkDict
    decreases items.len(),
{
    if items.len() == 0 {
        d
    } else {
        let prev = fkd_items_v(d, items.drop_last());
        match items.last() {
            SchemaItemV::RootV { .. } => prev,
            SchemaItemV::ObjectV { name, fields } => if lower_seq(name)
                == "queryroot"@ {
                prev
            } else {
                fkd_fields_v(prev, lower_seq(name), fields)
            },
        }
    }
}

/// The foreign-key dictionary as a function of the mathematical
/// document alone.
pub open spec fn fk_dict_of_v(items: Seq<SchemaItemV>) -> FkDict {
    fkd_items_v(Seq::empty(), items)
}

proof fn lemma_base_name_agree(t: TypeRef)
    ensures
        base_name_v(tr_view(t)) == base_name(t),
    decreases t,
{
    match t {
        TypeRef::Named(_) => {},
        TypeRef::ListOf(inner) => {
            lemma_base_name_agree(*inner);
        },
        TypeRef::NonNull(inner) => {
            lemma_base_name_agree(*inner);
        },
    }
}

proof fn lemma_join_on_agree(ds: Seq<Directive>)
    ensures
        join_on_v(dirs_view(ds)) == join_on_of(ds),
    decreases ds.len(),
{
    if ds.len() > 0 {
        assert(dirs_view(ds).drop_first() =~~= dirs_view(ds.drop_first()));
        lemma_join_on_agree(ds.drop_first());
    }
}

proof fn lemma_fkd_field_agree(d: FkDict, oname_lc: Seq<char>, f: FieldDef)
    ensures
        fkd_field_v(d, oname_lc, field_view(f)) == fkd_field(d, oname_lc, f),
{
    lemma_base_name_agree(f.field_type);
    lemma_join_on_agree(f.directives@);
}

proof fn lemma_fkd_fields_agree(d: FkDict, oname_lc: Seq<char>, fs: Seq<FieldDef>)
    ensures
        fkd_fields_v(d, oname_lc, fdefs_view(fs)) == fkd_fields(d, oname_lc, fs),
    decreases fs.len(),
{
    if fs.len() > 0 {
        assert(fdefs_view(fs).drop_last() =~~= fdefs_view(fs.drop_last()));
        assert(fdefs_view(fs).last() == field_view(fs.last()));
        lemma_fkd_fields_agree(d, oname_lc, fs.drop_last());
        lemma_fkd_field_agree(fkd_fields(d, oname_lc, fs.drop_last()), oname_lc, fs.last());
    } else {
        assert(fdefs_view(fs).len() == 0);
    }
}

proof fn lemma_fkd_items_agree(d: FkDict, items: Seq<SchemaItem>)
    ensures
        fkd_items_v(d, items_view(items)) == fkd_items(d, items),
    decreases items.len(),
{
    if items.len() > 0 {
        assert(items_view(items).drop_last() =~~= items_view(items.drop_last()));
        assert(items_view(items).last() == item_view(items.last()));
        lemma_fkd_items_agree(d, items.drop_last());
        match items.last() {
            SchemaItem::Root { .. } => {},
            SchemaItem::Object(o) => {
                lemma_fkd_fields_agree(
                    fkd_items(d, items.drop_last()),
                    lower_seq(o.name@),
                    o.fields@,
                );
            },
        }
    } else {
        assert(items_view(items).len() == 0);
    }
}

/// The document-level and mathematical foreign-key dictionaries agree:
/// the dictionary is a function of the document\'s view alone.
pub proof fn lemma_fk_dict_view(items: Seq<SchemaItem>)
    ensures
        fk_dict_of_v(items_view(items)) == fk_dict_of(items),
{
    lemma_fkd_items_agree(Seq::empty(), items);
}

pub open spec fn contains_list_v(t: TypeRefV) -> bool
    decreases t,
{
    match t {
        TypeRefV::NamedV { .. } => false,
        TypeRefV::ListOfV { .. } => true,
        TypeRefV::NonNullV { inner } => contains_list_v(*inner),
    }
}

pub open spec fn top_nullable_v(t: TypeRefV) -> bool {
    !(t is NonNullV)
}

pub open spec fn type_ref_chars_v(t: TypeRefV) -> Seq<char>
    decreases t,
{
    match t {
        TypeRefV::NamedV { name } => name,
        TypeRefV::ListOfV { inner } => "["@ + type_ref_chars_v(*inner) + "]"@,
        TypeRefV::NonNullV { inner } => type_ref_chars_v(*inner) + "!"@,
    }
}

pub open spec fn has_unique_v(ds: Seq<DirectiveV>) -> bool {
    exists|i: int| 0 <= i < ds.len() && (#[trigger] ds[i]) is UniqueV
}

pub open spec fn has_indexed_v(ds: Seq<DirectiveV>) -> bool {
    exists|i: int| 0 <= i < ds.len() && (#[trigger] ds[i]) is IndexedV
}

pub open spec fn fk_ref_type_key_v(f: FieldDefV) -> Seq<char> {
    base_name_v(f.field_type) + "."@ + fk_ref_col_v(f)
}

pub open spec fn field_ok_v(tm: Seq<(Seq<char>, Seq<char>)>, f: FieldDefV) -> bool {
    !contains_list_v(f.field_type) && (field_is_fk_v(f) ==> sm_contains(tm, fk_ref_type_key_v(f)))
}

pub open spec fn fields_all_ok_v(tm: Seq<(Seq<char>, Seq<char>)>, fs: Seq<FieldDefV>) -> bool {
    forall|j: int| 0 <= j < fs.len() ==> field_ok_v(tm, #[trigger] fs[j])
}

pub open spec fn doc_all_ok_v(
    tm: Seq<(Seq<char>, Seq<char>)>,
    items: Seq<SchemaItemV>,
    root: Seq<char>,
) -> bool {
    forall|i: int|
        0 <= i < items.len() ==> match #[trigger] items[i] {
            SchemaItemV::ObjectV { name, fields } => name != root ==> fields_all_ok_v(
                tm,
                fields,
            ),
            SchemaItemV::RootV { .. } => true,
        }
}

pub open spec fn field_col_type_v(tm: Seq<(Seq<char>, Seq<char>)>, f: FieldDefV) -> Seq<char> {
    if field_is_fk_v(f) {
        sm_get(tm, fk_ref_type_key_v(f))
    } else {
        base_name_v(f.field_type)
    }
}

pub open spec fn field_graphql_type_v(f: FieldDefV) -> Seq<char> {
    if field_is_fk_v(f) {
        base_name_v(f.field_type)
    } else {
        type_ref_chars_v(f.field_type)
    }
}

pub open spec fn field_colv_v(
    tm: Seq<(Seq<char>, Seq<char>)>,
    tid: int,
    pos: int,
    f: FieldDefV,
) -> NewColumnV {
    NewColumnV {
        type_id: tid,
        column_position: pos,
        column_name: f.name,
        column_type: field_col_type_v(tm, f),
        graphql_type: field_graphql_type_v(f),
        nullable: top_nullable_v(f.field_type),
        unique: has_unique_v(f.directives),
    }
}

pub open spec fn field_fkv_v(
    tm: Seq<(Seq<char>, Seq<char>)>,
    ns_id: Seq<char>,
    table: Seq<char>,
    f: FieldDefV,
) -> ForeignKeyV {
    ForeignKeyV {
        namespace: ns_id,
        table_name: table,
        column_name: f.name,
        reference_table_name: lower_seq(base_name_v(f.field_type)),
        reference_column_name: fk_ref_col_v(f),
        reference_column_type: field_col_type_v(tm, f),
    }
}

pub open spec fn field_idxv_v(ns_id: Seq<char>, table: Seq<char>, f: FieldDefV) -> ColumnIndexV {
    ColumnIndexV { table_name: table, namespace: ns_id, unique: has_unique_v(f.directives), column_name: f.name }
}

pub open spec fn fields_out_v(
    tm: Seq<(Seq<char>, Seq<char>)>,
    ns_id: Seq<char>,
    table: Seq<char>,
    tid: int,
    fs: Seq<FieldDefV>,
) -> FieldsOut
    decreases fs.len(),
{
    if fs.len() == 0 {
        FieldsOut { frags: Seq::empty(), cols: Seq::empty(), fks: Seq::empty(), idxs: Seq::empty() }
    } else {
        let prev = fields_out_v(tm, ns_id, table, tid, fs.drop_last());
        let f = fs.last();
        let colv = field_colv_v(tm, tid, fs.len() - 1, f);
        FieldsOut {
            frags: prev.frags.push(sql_fragment_spec(colv)),
            cols: prev.cols.push(colv),
            fks: if field_is_fk_v(f) {
                prev.fks.push(field_fkv_v(tm, ns_id, table, f))
            } else {
                prev.fks
            },
            idxs: if !field_is_fk_v(f) && has_indexed_v(f.directives) {
                prev.idxs.push(field_idxv_v(ns_id, table, f))
            } else {
                prev.idxs
            },
        }
    }
}

pub open spec fn fmap_of_v(fs: Seq<FieldDefV>) -> Seq<(Seq<char>, Seq<char>)>
    decreases fs.len(),
{
    if fs.len() == 0 {
        Seq::empty()
    } else {
        sm_insert(fmap_of_v(fs.drop_last()), fs.last().name, type_ref_chars_v(fs.last().field_type))
    }
}

pub open spec fn tm_fields_v(
    m: Seq<(Seq<char>, Seq<char>)>,
    oname: Seq<char>,
    fs: Seq<FieldDefV>,
) -> Seq<(Seq<char>, Seq<char>)>
    decreases fs.len(),
{
    if fs.len() == 0 {
        m
    } else {
        sm_insert(
            tm_fields_v(m, oname, fs.drop_last()),
            oname + "."@ + fs.last().name,
            base_name_v(fs.last().field_type),
        )
    }
}

pub open spec fn tm_items_v(
    m: Seq<(Seq<char>, Seq<char>)>,
    items: Seq<SchemaItemV>,
) -> Seq<(Seq<char>, Seq<char>)>
    decreases items.len(),
{
    if items.len() == 0 {
        m
    } else {
        let prev = tm_items_v(m, items.drop_last());
        match items.last() {
            SchemaItemV::RootV { .. } => prev,
            SchemaItemV::ObjectV { name, fields } => tm_fields_v(prev, name, fields),
        }
    }
}

pub open spec fn types_map_of_v(items: Seq<SchemaItemV>) -> Seq<(Seq<char>, Seq<char>)> {
    tm_items_v(Seq::empty(), items)
}

pub open spec fn first_root_of_v(items: Seq<SchemaItemV>) -> Option<Seq<char>>
    decreases items.len(),
{
    if items.len() == 0 {
        None
    } else {
        match items[0] {
            SchemaItemV::RootV { query } => Some(query),
            _ => first_root_of_v(items.drop_first()),
        }
    }
}

pub open spec fn obj_body_v(
    tm: Seq<(Seq<char>, Seq<char>)>,
    ns_id: Seq<char>,
    table: Seq<char>,
    tid: int,
    fields: Seq<FieldDefV>,
) -> Seq<char> {
    joined_frags(
        fields_out_v(tm, ns_id, table, tid, fields).frags.push(
            sql_fragment_spec(object_colv(tid, fields.len() as int)),
        ),
    )
}

/// Everything the schema compiler emits, as a function of the
/// mathematical document alone.
pub open spec fn build_out_v(
    tm: Seq<(Seq<char>, Seq<char>)>,
    ns_id: Seq<char>,
    ver: Seq<char>,
    ns: Seq<char>,
    ident: Seq<char>,
    root: Seq<char>,
    items: Seq<SchemaItemV>,
) -> BuildOut
    decreases items.len(),
{
    if items.len() == 0 {
        BuildOut {
            statements: Seq::empty(),
            tids: Seq::empty(),
            cols: Seq::empty(),
            fks: Seq::empty(),
            idxs: Seq::empty(),
            types: Seq::empty(),
            fields: Seq::empty(),
            qfields: Seq::empty(),
        }
    } else {
        let prev = build_out_v(tm, ns_id, ver, ns, ident, root, items.drop_last());
        match items.last() {
            SchemaItemV::RootV { .. } => prev,
            SchemaItemV::ObjectV { name, fields } => {
                let types2 = set_push(prev.types, name);
                let fields2 = sm_insert(prev.fields, name, fmap_of_v(fields));
                if name == root {
                    BuildOut {
                        statements: prev.statements,
                        tids: prev.tids,
                        cols: prev.cols,
                        fks: prev.fks,
                        idxs: prev.idxs,
                        types: types2,
                        fields: fields2,
                        qfields: sm_insert(prev.qfields, root, fmap_of_v(fields)),
                    }
                } else {
                    let table = lower_seq(name);
                    let tid = crate::utils::type_id_of(ns_id, name);
                    let fo = fields_out_v(tm, ns_id, table, tid, fields);
                    BuildOut {
                        statements: prev.statements.push(
                            table_stmt_spec(ns_id, table, obj_body_v(tm, ns_id, table, tid, fields)),
                        ),
                        tids: prev.tids.push(
                            TypeIdV {
                                id: tid,
                                schema_version: ver,
                                schema_name: ns,
                                schema_identifier: ident,
                                graphql_name: name,
                                table_name: table,
                            },
                        ),
                        cols: prev.cols + fo.cols.push(object_colv(tid, fields.len() as int)),
                        fks: prev.fks + fo.fks,
                        idxs: prev.idxs + fo.idxs,
                        types: types2,
                        fields: fields2,
                        qfields: prev.qfields,
                    }
                }
            },
        }
    }
}

proof fn lemma_typeref_agree(t: TypeRef)
    ensures
        base_name_v(tr_view(t)) == base_name(t),
        contains_list_v(tr_view(t)) == contains_list(t),
        top_nullable_v(tr_view(t)) == top_nullable(t),
        type_ref_chars_v(tr_view(t)) == type_ref_chars(t),
    decreases t,
{
    match t {
        TypeRef::Named(_) => {},
        TypeRef::ListOf(inner) => {
            lemma_typeref_agree(*inner);
        },
        TypeRef::NonNull(inner) => {
            lemma_typeref_agree(*inner);
        },
    }
}

proof fn lemma_dirs_agree(ds: Seq<Directive>)
    ensures
        has_unique_v(dirs_view(ds)) == has_unique(ds),
        has_indexed_v(dirs_view(ds)) == has_indexed(ds),
        join_on_v(dirs_view(ds)) == join_on_of(ds),
{
    lemma_join_on_agree(ds);
    assert forall|i: int| 0 <= i < ds.len() implies (#[trigger] dirs_view(ds)[i]) == dir_view(
        ds[i],
    ) by {}
    if has_unique(ds) {
        let i = choose|i: int| 0 <= i < ds.len() && (#[trigger] ds[i]) is Unique;
        assert(dirs_view(ds)[i] is UniqueV);
    }
    if has_unique_v(dirs_view(ds)) {
        let i = choose|i: int| 0 <= i < dirs_view(ds).len() && (#[trigger] dirs_view(ds)[i]) is UniqueV;
        assert(ds[i] is Unique);
    }
    if has_indexed(ds) {
        let i = choose|i: int| 0 <= i < ds.len() && (#[trigger] ds[i]) is Indexed;
        assert(dirs_view(ds)[i] is IndexedV);
    }
    if has_indexed_v(dirs_view(ds)) {
        let i = choose|i: int| 0 <= i < dirs_view(ds).len() && (#[trigger] dirs_view(ds)[i]) is IndexedV;
        assert(ds[i] is Indexed);
    }
}

proof fn lemma_field_agree(
    tm: Seq<(Seq<char>, Seq<char>)>,
    ns_id: Seq<char>,
    table: Seq<char>,
    tid: int,
    pos: int,
    f: FieldDef,
)
    ensures
        field_is_fk_v(field_view(f)) == field_is_fk(f),
        fk_ref_col_v(field_view(f)) == fk_ref_col(f),
        fk_ref_type_key_v(field_view(f)) == fk_ref_type_key(f),
        field_ok_v(tm, field_view(f)) == field_ok(tm, f),
        field_col_type_v(tm, field_view(f)) == field_col_type(tm, f),
        field_graphql_type_v(field_view(f)) == field_graphql_type(f),
        field_colv_v(tm, tid, pos, field_view(f)) == field_colv(tm, tid, pos, f),
        field_fkv_v(tm, ns_id, table, field_view(f)) == field_fkv(tm, ns_id, table, f),
        field_idxv_v(ns_id, table, field_view(f)) == field_idxv(ns_id, table, f),
{
    lemma_typeref_agree(f.field_type);
    lemma_dirs_agree(f.directives@);
}

proof fn lemma_fields_out_agree(
    tm: Seq<(Seq<char>, Seq<char>)>,
    ns_id: Seq<char>,
    table: Seq<char>,
    tid: int,
    fs: Seq<FieldDef>,
)
    ensures
        fields_out_v(tm, ns_id, table, tid, fdefs_view(fs)) == fields_out(tm, ns_id, table, tid, fs),
        fmap_of_v(fdefs_view(fs)) == fmap_of(fs),
        fields_all_ok_v(tm, fdefs_view(fs)) == fields_all_ok(tm, fs),
    decreases fs.len(),
{
    assert forall|j: int| 0 <= j < fs.len() implies (#[trigger] fdefs_view(fs)[j]) == field_view(
        fs[j],
    ) by {}
    assert forall|j: int| 0 <= j < fs.len() implies field_ok_v(tm, #[trigger] fdefs_view(fs)[j])
        == field_ok(tm, fs[j]) by {
        lemma_field_agree(tm, ns_id, table, tid, 0, fs[j]);
    }
    if fields_all_ok(tm, fs) {
        assert forall|j: int| 0 <= j < fdefs_view(fs).len() implies field_ok_v(
            tm,
            #[trigger] fdefs_view(fs)[j],
        ) by {
            assert(field_ok(tm, fs[j]));
        }
    }
    if fields_all_ok_v(tm, fdefs_view(fs)) {
        assert forall|j: int| 0 <= j < fs.len() implies field_ok(tm, #[trigger] fs[j]) by {
            assert(field_ok_v(tm, fdefs_view(fs)[j]));
        }
    }
    if fs.len() == 0 {
        assert(fdefs_view(fs).len() == 0);
        assert(fields_out_v(tm, ns_id, table, tid, fdefs_view(fs)) =~~= fields_out(
            tm,
            ns_id,
            table,
            tid,
            fs,
        ));
        assert(fmap_of_v(fdefs_view(fs)) =~~= fmap_of(fs));
    } else {
        assert(fdefs_view(fs).drop_last() =~~= fdefs_view(fs.drop_last()));
        assert(fdefs_view(fs).last() == field_view(fs.last()));
        lemma_fields_out_agree(tm, ns_id, table, tid, fs.drop_last());
        lemma_field_agree(tm, ns_id, table, tid, fs.len() - 1, fs.last());
        lemma_typeref_agree(fs.last().field_type);
        lemma_dirs_agree(fs.last().directives@);
        assert(fields_out_v(tm, ns_id, table, tid, fdefs_view(fs)) =~~= fields_out(
            tm,
            ns_id,
            table,
            tid,
            fs,
        ));
        assert(fmap_of_v(fdefs_view(fs)) =~~= fmap_of(fs));
    }
}

proof fn lemma_tm_fields_agree(m: Seq<(Seq<char>, Seq<char>)>, oname: Seq<char>, fs: Seq<FieldDef>)
    ensures
        tm_fields_v(m, oname, fdefs_view(fs)) == tm_fields(m, oname, fs),
    decreases fs.len(),
{
    if fs.len() > 0 {
        assert(fdefs_view(fs).drop_last() =~~= fdefs_view(fs.drop_last()));
        assert(fdefs_view(fs).last() == field_view(fs.last()));
        lemma_tm_fields_agree(m, oname, fs.drop_last());
        lemma_typeref_agree(fs.last().field_type);
    } else {
        assert(fdefs_view(fs).len() == 0);
    }
}

proof fn lemma_tm_items_agree(m: Seq<(Seq<char>, Seq<char>)>, items: Seq<SchemaItem>)
    ensures
        tm_items_v(m, items_view(items)) == tm_items(m, items),
    decreases items.len(),
{
    if items.len() > 0 {
        assert(items_view(items).drop_last() =~~= items_view(items.drop_last()));
        assert(items_view(items).last() == item_view(items.last()));
        lemma_tm_items_agree(m, items.drop_last());
        match items.last() {
            SchemaItem::Root { .. } => {},
            SchemaItem::Object(o) => {
                lemma_tm_fields_agree(tm_items(m, items.drop_last()), o.name@, o.fields@);
            },
        }
    } else {
        assert(items_view(items).len() == 0);
    }
}

proof fn lemma_first_root_agree(items: Seq<SchemaItem>)
    ensures
        first_root_of_v(items_view(items)) == first_root_of(items),
    decreases items.len(),
{
    if items.len() > 0 {
        assert(items_view(items)[0] == item_view(items[0]));
        assert(items_view(items).drop_first() =~~= items_view(items.drop_first()));
        lemma_first_root_agree(items.drop_first());
    } else {
        assert(items_view(items).len() == 0);
    }
}

proof fn lemma_doc_all_ok_agree(
    tm: Seq<(Seq<char>, Seq<char>)>,
    items: Seq<SchemaItem>,
    root: Seq<char>,
)
    ensures
        doc_all_ok_v(tm, items_view(items), root) == doc_all_ok(tm, items, root),
{
    assert forall|i: int| 0 <= i < items.len() implies (#[trigger] items_view(items)[i])
        == item_view(items[i]) by {}
    assert forall|i: int| 0 <= i < items.len() implies (match #[trigger] items[i] {
        SchemaItem::Object(o) => o.name@ != root ==> fields_all_ok(tm, o.fields@),
        SchemaItem::Root { .. } => true,
    } == match items_view(items)[i] {
        SchemaItemV::ObjectV { name, fields } => name != root ==> fields_all_ok_v(tm, fields),
        SchemaItemV::RootV { .. } => true,
    }) by {
        match items[i] {
            SchemaItem::Object(o) => {
                lemma_fields_out_agree(tm, Seq::empty(), Seq::empty(), 0, o.fields@);
            },
            SchemaItem::Root { .. } => {},
        }
    }
}

proof fn lemma_build_out_agree(
    tm: Seq<(Seq<char>, Seq<char>)>,
    ns_id: Seq<char>,
    ver: Seq<char>,
    ns: Seq<char>,
    ident: Seq<char>,
    root: Seq<char>,
    items: Seq<SchemaItem>,
)
    ensures
        build_out_v(tm, ns_id, ver, ns, ident, root, items_view(items)) == build_out(
            tm,
            ns_id,
            ver,
            ns,
            ident,
            root,
            items,
        ),
    decreases items.len(),
{
    if items.len() > 0 {
        assert(items_view(items).drop_last() =~~= items_view(items.drop_last()));
        assert(items_view(items).last() == item_view(items.last()));
        lemma_build_out_agree(tm, ns_id, ver, ns, ident, root, items.drop_last());
        match items.last() {
            SchemaItem::Root { .. } => {},
            SchemaItem::Object(o) => {
                let table = lower_seq(o.name@);
                let tid = crate::utils::type_id_of(ns_id, o.name@);
                lemma_fields_out_agree(tm, ns_id, table, tid, o.fields@);
            },
        }
        assert(build_out_v(tm, ns_id, ver, ns, ident, root, items_view(items)) =~~= build_out(
            tm,
            ns_id,
            ver,
            ns,
            ident,
            root,
            items,
        ));
    } else {
        assert(items_view(items).len() == 0);
        assert(build_out_v(tm, ns_id, ver, ns, ident, root, items_view(items)) =~~= build_out(
            tm,
            ns_id,
            ver,
            ns,
            ident,
            root,
            items,
        ));
    }
}

/// What holds of a builder after lowering, over the mathematical
/// document alone.
pub open spec fn builder_matches_v(
    b: SchemaBuilder,
    items: Seq<SchemaItemV>,
    text: Seq<char>,
) -> bool {
    let ns_id = ns_id_of(b.namespace@, b.identifier@);
    let tm = types_map_of_v(items);
    let root = first_root_of_v(items);
    let out = build_out_v(tm, ns_id, b.version@, b.namespace@, b.identifier@, root->Some_0, items);
    &&& root is Some
    &&& b.query@ == root->Some_0
    &&& doc_all_ok_v(tm, items, root->Some_0)
    &&& strings_view(b.statements@) == seq![create_schema_chars(ns_id)] + out.statements
    &&& tids_view(b.type_ids@) == out.tids
    &&& cols_view(b.columns@) == out.cols
    &&& fks_view(b.foreign_keys@) == out.fks
    &&& idxs_view(b.indices@) == out.idxs
    &&& strings_view(b.types@) == out.types
    &&& b.fields@ == out.fields
    &&& b.query_fields@ == out.qfields
    &&& b.schema@ == text
    &&& b.fields.wf()
    &&& b.query_fields.wf()
}

/// The builder contract transfers to the mathematical document: every
/// emission is a function of the document\'s view alone.
pub proof fn lemma_builder_matches_view(b: SchemaBuilder, items: Seq<SchemaItem>, text: Seq<char>)
    requires
        builder_matches(b, items, text),
    ensures
        builder_matches_v(b, items_view(items), text),
{
    let ns_id = ns_id_of(b.namespace@, b.identifier@);
    lemma_tm_items_agree(Seq::empty(), items);
    lemma_first_root_agree(items);
    lemma_doc_all_ok_agree(types_map_of(items), items, first_root_of(items)->Some_0);
    lemma_build_out_agree(
        types_map_of(items),
        ns_id,
        b.version@,
        b.namespace@,
        b.identifier@,
        first_root_of(items)->Some_0,
        items,
    );
}

fn dup_fk_inner(m: &StrMap<(String, String)>) -> (r: StrMap<(String, String)>)
    ensures
        r@ == m@,
        r.wf() == m.wf(),
{
    let mut entries: Vec<(String, (String, String))> = Vec::new();
    let mut i: usize = 0;
    while i < m.entries.len()
        invariant
            i <= m.entries@.len(),
            entries@.len() == i,
            forall|j: int|
                0 <= j < i ==> (#[trigger] entries@[j]).0@ == m@[j].0 && entries@[j].1.0@
                    == m@[j].1.0 && entries@[j].1.1@ == m@[j].1.1,
        decreases m.entries@.len() - i,
    {
        let k = m.entries[i].0.clone();
        let v0 = m.entries[i].1.0.clone();
        let v1 = m.entries[i].1.1.clone();
        entries.push((k, (v0, v1)));
        i = i + 1;
    }
    let r = StrMap { entries };
    proof {
        assert(r@ =~~= m@);
    }
    r
}

/// Derives the foreign-key dictionary straight from schema text, as the
/// reflection loader does.
pub fn get_foreign_keys(schema: &str) -> (r: Result<StrMap<StrMap<(String, String)>>, SchemaError>)
    ensures
        r is Ok <==> crate::type_graph::schema_doc_of(schema) is Some,
        match r {
            Ok(d) => {
                &&& exists|doc: SchemaDoc|
                    crate::lex::toks_spec(schema.spec_bytes(), 0) == Some(
                        crate::type_graph::doc_toks(doc),
                    ) && crate::type_graph::items_view(doc.items@)
                        == crate::type_graph::schema_doc_of(schema)->Some_0 && d@
                        == #[trigger] fk_dict_of(doc.items@)
                &&& d@ == fk_dict_of_v(crate::type_graph::schema_doc_of(schema)->Some_0)
                &&& fk_dict_wf(d@)
                &&& d.wf()
            },
            Err(e) => e is SchemaParse,
        },
{
    let doc = match crate::type_graph::parse_schema_doc(schema) {
        Ok(d) => d,
        Err(e) => {
            return Err(e);
        },
    };
    let mut d: StrMap<StrMap<(String, String)>> = StrMap::new();
    let items = &doc.items;
    let mut i: usize = 0;
    proof {
        assert(items@.subrange(0, 0) =~= Seq::<SchemaItem>::empty());
    }
    while i < items.len()
        invariant
            i <= items@.len(),
            items@ == doc.items@,
            d.wf(),
            fk_dict_wf(d@),
            d@ == fkd_items(Seq::empty(), items@.subrange(0, i as int)),
        decreases items@.len() - i,
    {
        let ghost pre = items@.subrange(0, i as int);
        let ghost d_pre = d@;
        match &items[i] {
            SchemaItem::Root { .. } => {},
            SchemaItem::Object(o) => {
                let lc = to_lower(o.name.as_str());
                if !str_eq(lc.as_str(), "queryroot") {
                    let mut k: usize = 0;
                    proof {
                        assert(o.fields@.subrange(0, 0) =~= Seq::<FieldDef>::empty());
                    }
                    while k < o.fields.len()
                        invariant
                            k <= o.fields@.len(),
                            lc@ == lower_seq(o.name@),
                            d.wf(),
                            fk_dict_wf(d@),
                            d@ == fkd_fields(d_pre, lc@, o.fields@.subrange(0, k as int)),
                        decreases o.fields@.len() - k,
                    {
                        let ghost din = d@;
                        let f = &o.fields[k];
                        let base = type_base_name(&f.field_type);
                        if !is_primitive(base.as_str()) {
                            let ref_col = match directive_join_on(&f.directives) {
                                Some(x) => x,
                                None => "id".to_owned(),
                            };
                            let mut inner: StrMap<(String, String)> = match d.get(
                                lc.as_str(),
                            ) {
                                Some(m) => dup_fk_inner(m),
                                None => StrMap::new(),
                            };
                            proof {
                                if sm_contains(din, lc@) {
                                    assert(crate::strmap::sm_wf(inner@));
                                }
                            }
                            inner.insert(f.name.clone(), (to_lower(base.as_str()), ref_col));
                            d.insert(lc.clone(), inner);
                            proof {
                                assert forall|j: int|
                                    0 <= j < d@.len() implies crate::strmap::sm_wf(
                                    (#[trigger] d@[j]).1,
                                ) by {
                                    if sm_contains(din, lc@) {
                                        if j != crate::strmap::sm_index(din, lc@) {
                                            assert(d@[j] == din[j]);
                                        }
                                    } else {
                                        if j < din.len() {
                                            assert(d@[j] == din[j]);
                                        }
                                    }
                                }
                            }
                        }
                        proof {
                            assert(o.fields@.subrange(0, k + 1).drop_last()
                                =~= o.fields@.subrange(0, k as int));
                            assert(o.fields@.subrange(0, k + 1).last() == o.fields@[k as int]);
                            assert(d@ =~~= fkd_fields(
                                d_pre,
                                lc@,
                                o.fields@.subrange(0, k + 1),
                            ));
                        }
                        k = k + 1;
                    }
                    proof {
                        assert(o.fields@.subrange(0, o.fields@.len() as int) =~= o.fields@);
                    }
                }
            },
        }
        proof {
            assert(items@.subrange(0, i + 1).drop_last() =~= items@.subrange(0, i as int));
            assert(items@.subrange(0, i + 1).last() == items@[i as int]);
            assert(d@ =~~= fkd_items(Seq::empty(), items@.subrange(0, i + 1)));
        }
        i = i + 1;
    }
    proof {
        assert(items@.subrange(0, items@.len() as int) =~= items@);
        assert(d@ == fk_dict_of(doc.items@));
        lemma_fk_dict_view(doc.items@);
    }
    Ok(d)
}

/// The immutable reflection record the query compiler reads.
#[derive(Debug)]
pub struct Schema {
    pub version: String,
    pub namespace: String,
    pub identifier: String,
    pub query: String,
    pub types: Vec<String>,
    pub fields: StrMap<StrMap<String>>,
    pub foreign_keys: StrMap<StrMap<(String, String)>>,
}

impl Schema {
    /// The dictionaries are key-unique at both levels.
    pub open spec fn wf(&self) -> bool {
        &&& self.fields.wf()
        &&& forall|i: int|
            0 <= i < self.fields@.len() ==> crate::strmap::sm_wf(
                (#[trigger] self.fields@[i]).1,
            )
        &&& self.foreign_keys.wf()
        &&& forall|i: int|
            0 <= i < self.foreign_keys@.len() ==> crate::strmap::sm_wf(
                (#[trigger] self.foreign_keys@[i]).1,
            )
    }

    /// True when the type name is known.
    pub fn check_type(&self, ty: &str) -> (r: bool)
        ensures
            r == str_in(strings_view(self.types@), ty@),
    {
        contains_string(&self.types, ty)
    }

    /// The declared type of a field, looked up under the context type as
    /// given and then under its normalised name.
    pub fn field_type<'a>(&'a self, cond: &str, name: &str) -> (r: Option<&'a String>)
        requires
            self.wf(),
        ensures
            match r {
                Some(v) => field_type_spec(self.fields@, cond@, name@) == Some(v@),
                None => field_type_spec(self.fields@, cond@, name@) is None,
            },
    {
        match self.fields.get(cond) {
            Some(fieldset) => {
                proof {
                    let i = crate::strmap::sm_index(self.fields@, cond@);
                    assert(crate::strmap::sm_wf(self.fields@[i].1));
                }
                fieldset.get(name)
            },
            None => {
                let tablename = normalize_field_type_name(cond);
                match self.fields.get(tablename.as_str()) {
                    Some(fieldset) => {
                        proof {
                            let i = crate::strmap::sm_index(self.fields@, strip_bangs(cond@));
                            assert(crate::strmap::sm_wf(self.fields@[i].1));
                        }
                        fieldset.get(name)
                    },
                    None => None,
                }
            },
        }
    }
}

pub open spec fn fk_stmts_of(s: Seq<ForeignKeyV>) -> Seq<Seq<char>> {
    Seq::new(s.len(), |i: int| fk_statement_spec(s[i]))
}

pub open spec fn idx_stmts_of(s: Seq<ColumnIndexV>) -> Seq<Seq<char>> {
    Seq::new(s.len(), |i: int| idx_statement_spec(s[i]))
}

impl SchemaBuilder {
    /// Every statement the commit runs, in execution order: the DDL, the
    /// foreign-key constraints, then the indices.
    pub fn all_statements(&self) -> (r: Vec<String>)
        ensures
            strings_view(r@) == strings_view(self.statements@) + fk_stmts_of(
                fks_view(self.foreign_keys@),
            ) + idx_stmts_of(idxs_view(self.indices@)),
    {
        let n1 = self.statements.len();
        let n2 = self.foreign_keys.len();
        let n3 = self.indices.len();
        let mut out: Vec<String> = Vec::new();
        let mut i: usize = 0;
        while i < n1
            invariant
                i <= n1,
                n1 == self.statements@.len(),
                out@.len() == i,
                forall|t: int| 0 <= t < i ==> (#[trigger] out@[t])@ == self.statements@[t]@,
            decreases n1 - i,
        {
            out.push(self.statements[i].clone());
            i = i + 1;
        }
        let mut k: usize = 0;
        while k < n2
            invariant
                k <= n2,
                n1 == self.statements@.len(),
                n2 == self.foreign_keys@.len(),
                out@.len() == n1 + k,
                forall|t: int| 0 <= t < n1 ==> (#[trigger] out@[t])@ == self.statements@[t]@,
                forall|t: int|
                    0 <= t < k ==> (#[trigger] out@[n1 + t])@ == fk_statement_spec(
                        self.foreign_keys@[t]@,
                    ),
            decreases n2 - k,
        {
            out.push(self.foreign_keys[k].create_statement());
            k = k + 1;
        }
        let mut j: usize = 0;
        while j < n3
            invariant
                j <= n3,
                n1 == self.statements@.len(),
                n2 == self.foreign_keys@.len(),
                n3 == self.indices@.len(),
                out@.len() == n1 + n2 + j,
                forall|t: int| 0 <= t < n1 ==> (#[trigger] out@[t])@ == self.statements@[t]@,
                forall|t: int|
                    0 <= t < n2 ==> (#[trigger] out@[n1 + t])@ == fk_statement_spec(
                        self.foreign_keys@[t]@,
                    ),
                forall|t: int|
                    0 <= t < j ==> (#[trigger] out@[n1 + n2 + t])@ == idx_statement_spec(
                        self.indices@[t]@,
                    ),
            decreases n3 - j,
        {
            out.push(self.indices[j].create_statement());
            j = j + 1;
        }
        proof {
            let whole = strings_view(self.statements@) + fk_stmts_of(
                fks_view(self.foreign_keys@),
            ) + idx_stmts_of(idxs_view(self.indices@));
            assert forall|t: int| 0 <= t < out@.len() implies #[trigger] strings_view(
                out@,
            )[t] == whole[t] by {
                if t < n1 {
                } else if t < n1 + n2 {
                    assert(out@[(n1 + (t - n1)) as int]@ == fk_statement_spec(
                        self.foreign_keys@[t - n1]@,
                    ));
                } else {
                    assert(out@[(n1 + n2 + (t - n1 - n2)) as int]@ == idx_statement_spec(
                        self.indices@[t - n1 - n2]@,
                    ));
                }
            }
            assert(strings_view(out@) =~~= whole);
        }
        out
    }

    /// The persisted root row of this build.
    pub fn new_graph_root(&self) -> (r: NewGraphRoot)
        ensures
            r.version@ == self.version@,
            r.schema_name@ == self.namespace@,
            r.schema_identifier@ == self.identifier@,
            r.query@ == self.query@,
            r.schema@ == self.schema@,
    {
        NewGraphRoot {
            version: self.version.clone(),
            schema_name: self.namespace.clone(),
            schema_identifier: self.identifier.clone(),
            query: self.query.clone(),
            schema: self.schema.clone(),
        }
    }

    /// The persisted root-column rows: one per query-root field.
    pub fn root_columns(&self, root_id: i64) -> (r: Vec<NewRootColumns>)
        requires
            self.query_fields.wf(),
        ensures
            sm_contains(self.query_fields@, self.query@) ==> r@.len() == sm_get(
                self.query_fields@,
                self.query@,
            ).len() && forall|j: int|
                0 <= j < r@.len() ==> (#[trigger] r@[j]).root_id == root_id && r@[j].column_name@
                    == sm_get(self.query_fields@, self.query@)[j].0 && r@[j].graphql_type@
                    == sm_get(self.query_fields@, self.query@)[j].1,
            !sm_contains(self.query_fields@, self.query@) ==> r@.len() == 0,
    {
        let mut out: Vec<NewRootColumns> = Vec::new();
        let defs = match self.query_fields.get(self.query.as_str()) {
            Some(m) => m,
            None => {
                return out;
            },
        };
        let mut j: usize = 0;
        while j < defs.entries.len()
            invariant
                j <= defs.entries@.len(),
                out@.len() == j,
                forall|t: int|
                    0 <= t < j ==> (#[trigger] out@[t]).root_id == root_id
                        && out@[t].column_name@ == defs@[t].0 && out@[t].graphql_type@
                        == defs@[t].1,
            decreases defs.entries@.len() - j,
        {
            out.push(
                NewRootColumns {
                    root_id,
                    column_name: defs.entries[j].0.clone(),
                    graphql_type: defs.entries[j].1.clone(),
                },
            );
            j = j + 1;
        }
        out
    }

    /// The reflection record the commit hands back: the built
    /// dictionaries under the builder\'s identity, with an empty
    /// foreign-key dictionary, exactly as the metadata commit returns it.
    pub fn into_schema(self) -> (r: Schema)
        requires
            self.fields.wf(),
            forall|i: int|
                0 <= i < self.fields@.len() ==> crate::strmap::sm_wf(
                    (#[trigger] self.fields@[i]).1,
                ),
        ensures
            r.version@ == self.version@,
            r.namespace@ == self.namespace@,
            r.identifier@ == self.identifier@,
            r.query@ == self.query@,
            strings_view(r.types@) == strings_view(self.types@),
            r.fields@ == self.fields@,
            r.foreign_keys@ == Seq::<(Seq<char>, Seq<(Seq<char>, (Seq<char>, Seq<char>))>)>::empty(),
            r.wf(),
    {
        let fk: StrMap<StrMap<(String, String)>> = StrMap::new();
        Schema {
            version: self.version,
            namespace: self.namespace,
            identifier: self.identifier,
            query: self.query,
            types: self.types,
            fields: self.fields,
            foreign_keys: fk,
        }
    }
}


/// Compiling a document twice yields identical DDL: the statements,
/// constraints, indices, column records and type ids of two builders
/// that lowered the same document under the same identity are equal.
pub proof fn lemma_ddl_deterministic(
    a: SchemaBuilder,
    b: SchemaBuilder,
    items: Seq<SchemaItem>,
    text: Seq<char>,
)
    requires
        builder_matches(a, items, text),
        builder_matches(b, items, text),
        a.namespace@ == b.namespace@,
        a.identifier@ == b.identifier@,
        a.version@ == b.version@,
    ensures
        strings_view(a.statements@) == strings_view(b.statements@),
        fks_view(a.foreign_keys@) == fks_view(b.foreign_keys@),
        idxs_view(a.indices@) == idxs_view(b.indices@),
        cols_view(a.columns@) == cols_view(b.columns@),
        tids_view(a.type_ids@) == tids_view(b.type_ids@),
{
}

/// DDL emission is deterministic at the text level: two builders of the
/// same identity that lowered any two documents denoting one
/// mathematical document agree on every emitted collection and on the
/// reflection dictionaries.
pub proof fn lemma_ddl_deterministic_text(
    a: SchemaBuilder,
    b: SchemaBuilder,
    items_a: Seq<SchemaItem>,
    items_b: Seq<SchemaItem>,
    text: Seq<char>,
)
    requires
        builder_matches(a, items_a, text),
        builder_matches(b, items_b, text),
        items_view(items_a) == items_view(items_b),
        a.namespace@ == b.namespace@,
        a.identifier@ == b.identifier@,
        a.version@ == b.version@,
    ensures
        strings_view(a.statements@) == strings_view(b.statements@),
        fks_view(a.foreign_keys@) == fks_view(b.foreign_keys@),
        idxs_view(a.indices@) == idxs_view(b.indices@),
        cols_view(a.columns@) == cols_view(b.columns@),
        tids_view(a.type_ids@) == tids_view(b.type_ids@),
        strings_view(a.types@) == strings_view(b.types@),
        a.fields@ == b.fields@,
        a.query@ == b.query@,
{
    lemma_builder_matches_view(a, items_a, text);
    lemma_builder_matches_view(b, items_b, text);
}

proof fn lemma_fkd_field_wf(d: FkDict, oname_lc: Seq<char>, f: FieldDef)
    requires
        fk_dict_wf(d),
    ensures
        fk_dict_wf(fkd_field(d, oname_lc, f)),
{
    if field_is_fk(f) {
        let inner: Seq<(Seq<char>, (Seq<char>, Seq<char>))> = if sm_contains(d, oname_lc) {
            sm_get(d, oname_lc)
        } else {
            Seq::empty()
        };
        if sm_contains(d, oname_lc) {
            let w = crate::strmap::sm_index(d, oname_lc);
            assert(crate::strmap::sm_wf(d[w].1));
        }
        crate::strmap::lemma_sm_insert_same(
            inner,
            f.name@,
            (lower_seq(base_name(f.field_type)), fk_ref_col(f)),
        );
        let inner2 = sm_insert(
            inner,
            f.name@,
            (lower_seq(base_name(f.field_type)), fk_ref_col(f)),
        );
        crate::strmap::lemma_sm_insert_same(d, oname_lc, inner2);
        let out = fkd_field(d, oname_lc, f);
        assert forall|i: int|
            0 <= i < out.len() implies crate::strmap::sm_wf((#[trigger] out[i]).1) by {
            if sm_contains(d, oname_lc) {
                let w = crate::strmap::sm_index(d, oname_lc);
                if i != w {
                    assert(out[i] == d[i]);
                }
            } else {
                if i < d.len() {
                    assert(out[i] == d[i]);
                }
            }
        }
    }
}

proof fn lemma_fkd_fields_wf(d: FkDict, oname_lc: Seq<char>, fs: Seq<FieldDef>)
    requires
        fk_dict_wf(d),
    ensures
        fk_dict_wf(fkd_fields(d, oname_lc, fs)),
    decreases fs.len(),
{
    if fs.len() > 0 {
        lemma_fkd_fields_wf(d, oname_lc, fs.drop_last());
        lemma_fkd_field_wf(fkd_fields(d, oname_lc, fs.drop_last()), oname_lc, fs.last());
    }
}

proof fn lemma_fkd_items_wf(d: FkDict, items: Seq<SchemaItem>)
    requires
        fk_dict_wf(d),
    ensures
        fk_dict_wf(fkd_items(d, items)),
    decreases items.len(),
{
    if items.len() > 0 {
        lemma_fkd_items_wf(d, items.drop_last());
        match items.last() {
            SchemaItem::Root { .. } => {},
            SchemaItem::Object(o) => {
                if lower_seq(o.name@) != "queryroot"@ {
                    lemma_fkd_fields_wf(
                        fkd_items(d, items.drop_last()),
                        lower_seq(o.name@),
                        o.fields@,
                    );
                }
            },
        }
    }
}

proof fn lemma_fkd_field_other(d: FkDict, oname_lc: Seq<char>, f: FieldDef, k: Seq<char>)
    requires
        fk_dict_wf(d),
        k != oname_lc,
    ensures
        sm_contains(fkd_field(d, oname_lc, f), k) == sm_contains(d, k),
        sm_contains(d, k) ==> sm_get(fkd_field(d, oname_lc, f), k) == sm_get(d, k),
{
    if field_is_fk(f) {
        let inner: Seq<(Seq<char>, (Seq<char>, Seq<char>))> = if sm_contains(d, oname_lc) {
            sm_get(d, oname_lc)
        } else {
            Seq::empty()
        };
        let inner2 = sm_insert(
            inner,
            f.name@,
            (lower_seq(base_name(f.field_type)), fk_ref_col(f)),
        );
        crate::strmap::lemma_sm_insert_other(d, oname_lc, inner2, k);
    }
}

proof fn lemma_fkd_fields_other(d: FkDict, oname_lc: Seq<char>, fs: Seq<FieldDef>, k: Seq<char>)
    requires
        fk_dict_wf(d),
        k != oname_lc,
    ensures
        sm_contains(fkd_fields(d, oname_lc, fs), k) == sm_contains(d, k),
        sm_contains(d, k) ==> sm_get(fkd_fields(d, oname_lc, fs), k) == sm_get(d, k),
    decreases fs.len(),
{
    if fs.len() > 0 {
        lemma_fkd_fields_other(d, oname_lc, fs.drop_last(), k);
        lemma_fkd_fields_wf(d, oname_lc, fs.drop_last());
        lemma_fkd_field_other(
            fkd_fields(d, oname_lc, fs.drop_last()),
            oname_lc,
            fs.last(),
            k,
        );
    }
}

proof fn lemma_fkd_fields_lookup(d: FkDict, oname_lc: Seq<char>, fs: Seq<FieldDef>, j: int)
    requires
        fk_dict_wf(d),
        0 <= j < fs.len(),
        field_is_fk(fs[j]),
        forall|j2: int| j < j2 < fs.len() ==> (#[trigger] fs[j2]).name@ != fs[j].name@,
    ensures
        sm_contains(fkd_fields(d, oname_lc, fs), oname_lc),
        sm_contains(sm_get(fkd_fields(d, oname_lc, fs), oname_lc), fs[j].name@),
        sm_get(sm_get(fkd_fields(d, oname_lc, fs), oname_lc), fs[j].name@) == (
        lower_seq(base_name(fs[j].field_type)),
        fk_ref_col(fs[j]),
        ),
    decreases fs.len(),
{
    let prev = fkd_fields(d, oname_lc, fs.drop_last());
    lemma_fkd_fields_wf(d, oname_lc, fs.drop_last());
    let f = fs.last();
    let inner: Seq<(Seq<char>, (Seq<char>, Seq<char>))> = if sm_contains(prev, oname_lc) {
        sm_get(prev, oname_lc)
    } else {
        Seq::empty()
    };
    if sm_contains(prev, oname_lc) {
        let w = crate::strmap::sm_index(prev, oname_lc);
        assert(crate::strmap::sm_wf(prev[w].1));
    }
    if j == fs.len() - 1 {
        crate::strmap::lemma_sm_insert_same(
            inner,
            f.name@,
            (lower_seq(base_name(f.field_type)), fk_ref_col(f)),
        );
        let inner2 = sm_insert(
            inner,
            f.name@,
            (lower_seq(base_name(f.field_type)), fk_ref_col(f)),
        );
        crate::strmap::lemma_sm_insert_same(prev, oname_lc, inner2);
    } else {
        assert(fs.drop_last()[j] == fs[j]);
        assert forall|j2: int| j < j2 < fs.drop_last().len() implies (
        #[trigger] fs.drop_last()[j2]).name@ != fs.drop_last()[j].name@ by {
            assert(fs.drop_last()[j2] == fs[j2]);
        }
        lemma_fkd_fields_lookup(d, oname_lc, fs.drop_last(), j);
        if field_is_fk(f) {
            assert(f.name@ != fs[j].name@) by {
                assert(fs[fs.len() - 1].name@ != fs[j].name@);
            }
            crate::strmap::lemma_sm_insert_other(
                inner,
                f.name@,
                (lower_seq(base_name(f.field_type)), fk_ref_col(f)),
                fs[j].name@,
            );
            let inner2 = sm_insert(
                inner,
                f.name@,
                (lower_seq(base_name(f.field_type)), fk_ref_col(f)),
            );
            crate::strmap::lemma_sm_insert_same(prev, oname_lc, inner2);
        }
    }
}

/// Foreign-key dictionary completeness: for every non-leaf field of an
/// object that later definitions do not shadow, the dictionary binds
/// the lowercased owner and field name to the lowercased target type
/// and the joined column, `id` where no join directive stands.
pub proof fn lemma_fk_dictionary_completeness(items: Seq<SchemaItem>, i: int, j: int)
    requires
        0 <= i < items.len(),
        items[i] is Object,
        lower_seq(items[i]->Object_0.name@) != "queryroot"@,
        0 <= j < items[i]->Object_0.fields@.len(),
        field_is_fk(items[i]->Object_0.fields@[j]),
        forall|j2: int|
            j < j2 < items[i]->Object_0.fields@.len() ==> (
            #[trigger] items[i]->Object_0.fields@[j2]).name@
                != items[i]->Object_0.fields@[j].name@,
        forall|i2: int|
            i < i2 < items.len() ==> ((#[trigger] items[i2]) is Object ==> lower_seq(
                items[i2]->Object_0.name@,
            ) != lower_seq(items[i]->Object_0.name@)),
    ensures
        ({
            let owner = lower_seq(items[i]->Object_0.name@);
            let f = items[i]->Object_0.fields@[j];
            &&& sm_contains(fk_dict_of(items), owner)
            &&& sm_contains(sm_get(fk_dict_of(items), owner), f.name@)
            &&& sm_get(sm_get(fk_dict_of(items), owner), f.name@) == (
                lower_seq(base_name(f.field_type)),
                fk_ref_col(f),
            )
        }),
    decreases items.len(),
{
    let owner = lower_seq(items[i]->Object_0.name@);
    let f = items[i]->Object_0.fields@[j];
    let prev = fkd_items(Seq::empty(), items.drop_last());
    assert(fk_dict_wf(Seq::empty()));
    lemma_fkd_items_wf(Seq::empty(), items.drop_last());
    if i == items.len() - 1 {
        assert(items.last() == items[i]);
        lemma_fkd_fields_lookup(prev, owner, items[i]->Object_0.fields@, j);
    } else {
        assert(items.drop_last()[i] == items[i]);
        assert forall|i2: int|
            i < i2 < items.drop_last().len() implies ((#[trigger] items.drop_last()[i2])
            is Object ==> lower_seq(items.drop_last()[i2]->Object_0.name@) != owner) by {
            assert(items.drop_last()[i2] == items[i2]);
        }
        lemma_fk_dictionary_completeness(items.drop_last(), i, j);
        match items.last() {
            SchemaItem::Root { .. } => {},
            SchemaItem::Object(o2) => {
                if lower_seq(o2.name@) != "queryroot"@ {
                    assert(items[items.len() - 1] is Object);
                    assert(lower_seq(o2.name@) != owner);
                    lemma_fkd_fields_other(prev, lower_seq(o2.name@), o2.fields@, owner);
                }
            },
        }
    }
}


/// One persisted column reading: its name and declared type.
#[derive(Clone, Debug, PartialEq)]
pub struct ColumnReading {
    pub column_name: String,
    pub graphql_type: String,
}

/// One persisted type reading: the type's name and its columns.
#[derive(Clone, Debug, PartialEq)]
pub struct TypeReading {
    pub graphql_name: String,
    pub columns: Vec<ColumnReading>,
}

/// The per-type field dictionary a list of column readings stands for.
pub open spec fn readings_fmap(cols: Seq<ColumnReading>) -> Seq<(Seq<char>, Seq<char>)>
    decreases cols.len(),
{
    if cols.len() == 0 {
        Seq::empty()
    } else {
        sm_insert(
            readings_fmap(cols.drop_last()),
            cols.last().column_name@,
            cols.last().graphql_type@,
        )
    }
}

/// The two-level field dictionary the persisted readings stand for: the
/// root's columns under the query type, then one entry per type.
pub open spec fn readings_fields(
    base: Seq<(Seq<char>, Seq<(Seq<char>, Seq<char>)>)>,
    tids: Seq<TypeReading>,
) -> Seq<(Seq<char>, Seq<(Seq<char>, Seq<char>)>)>
    decreases tids.len(),
{
    if tids.len() == 0 {
        base
    } else {
        sm_insert(
            readings_fields(base, tids.drop_last()),
            tids.last().graphql_name@,
            readings_fmap(tids.last().columns@),
        )
    }
}

fn reading_fmap(cols: &Vec<ColumnReading>) -> (m: StrMap<String>)
    ensures
        m@ == readings_fmap(cols@),
        m.wf(),
{
    let mut m: StrMap<String> = StrMap::new();
    let mut k: usize = 0;
    proof {
        assert(cols@.subrange(0, 0) =~= Seq::<ColumnReading>::empty());
    }
    while k < cols.len()
        invariant
            k <= cols@.len(),
            m.wf(),
            m@ == readings_fmap(cols@.subrange(0, k as int)),
        decreases cols@.len() - k,
    {
        m.insert(cols[k].column_name.clone(), cols[k].graphql_type.clone());
        proof {
            assert(cols@.subrange(0, k + 1).drop_last() =~= cols@.subrange(0, k as int));
            assert(cols@.subrange(0, k + 1).last() == cols@[k as int]);
        }
        k = k + 1;
    }
    proof {
        assert(cols@.subrange(0, cols@.len() as int) =~= cols@);
    }
    m
}

impl Schema {
    /// Rebuilds the reflection record from the persisted metadata: the
    /// identity tuple, the root's columns under the query type, one
    /// field dictionary per stored type, and the foreign-key dictionary
    /// derived from the stored schema text.
    pub fn load_from_rows(
        version: String,
        namespace: String,
        identifier: String,
        query: String,
        schema_text: &str,
        root_columns: Vec<ColumnReading>,
        type_readings: Vec<TypeReading>,
    ) -> (r: Result<Schema, SchemaError>)
        ensures
            match r {
                Ok(s) => {
                    &&& s.version@ == version@
                    &&& s.namespace@ == namespace@
                    &&& s.identifier@ == identifier@
                    &&& s.query@ == query@
                    &&& str_in(strings_view(s.types@), query@)
                    &&& (forall|i: int|
                        0 <= i < type_readings@.len() ==> str_in(
                            strings_view(s.types@),
                            (#[trigger] type_readings@[i]).graphql_name@,
                        ))
                    &&& s.fields@ == readings_fields(
                        seq![(query@, readings_fmap(root_columns@))],
                        type_readings@,
                    )
                    &&& (exists|doc: crate::type_graph::SchemaDoc|
                        crate::lex::toks_spec(schema_text.spec_bytes(), 0) == Some(
                            crate::type_graph::doc_toks(doc),
                        ) && crate::type_graph::items_view(doc.items@)
                            == crate::type_graph::schema_doc_of(schema_text)->Some_0
                            && s.foreign_keys@ == #[trigger] fk_dict_of(doc.items@))
                    &&& s.foreign_keys@ == fk_dict_of_v(
                        crate::type_graph::schema_doc_of(schema_text)->Some_0,
                    )
                    &&& s.wf()
                },
                Err(e) => e is SchemaParse,
            },
            r is Ok <==> crate::type_graph::schema_doc_of(schema_text) is Some,
    {
        let foreign_keys = match get_foreign_keys(schema_text) {
            Ok(d) => d,
            Err(e) => {
                return Err(e);
            },
        };
        let mut types: Vec<String> = Vec::new();
        types.push(query.clone());
        let mut fields: StrMap<StrMap<String>> = StrMap::new();
        fields.insert(query.clone(), reading_fmap(&root_columns));
        let ghost base = fields@;
        proof {
            assert(base =~~= seq![(query@, readings_fmap(root_columns@))]);
        }
        let mut t: usize = 0;
        proof {
            assert(type_readings@.subrange(0, 0) =~= Seq::<TypeReading>::empty());
            assert(strings_view(types@)[0] == query@);
        }
        while t < type_readings.len()
            invariant
                t <= type_readings@.len(),
                fields.wf(),
                forall|i: int|
                    0 <= i < fields@.len() ==> crate::strmap::sm_wf(
                        (#[trigger] fields@[i]).1,
                    ),
                fields@ == readings_fields(base, type_readings@.subrange(0, t as int)),
                str_in(strings_view(types@), query@),
                forall|i: int|
                    0 <= i < t ==> str_in(
                        strings_view(types@),
                        (#[trigger] type_readings@[i]).graphql_name@,
                    ),
            decreases type_readings@.len() - t,
        {
            let ghost f0 = fields@;
            let ghost types0 = strings_view(types@);
            if !contains_string(&types, type_readings[t].graphql_name.as_str()) {
                types.push(type_readings[t].graphql_name.clone());
            }
            proof {
                assert forall|i: int| 0 <= i < types0.len() implies str_in(
                    strings_view(types@),
                    #[trigger] types0[i],
                ) by {
                    assert(strings_view(types@)[i] == types0[i]);
                }
                assert(str_in(strings_view(types@), type_readings@[t as int].graphql_name@))
                    by {
                    if !str_in(types0, type_readings@[t as int].graphql_name@) {
                        assert(strings_view(types@)[types0.len() as int]
                            == type_readings@[t as int].graphql_name@);
                    }
                }
            }
            let fmap = reading_fmap(&type_readings[t].columns);
            fields.insert(type_readings[t].graphql_name.clone(), fmap);
            proof {
                assert(type_readings@.subrange(0, t + 1).drop_last() =~= type_readings@.subrange(
                    0,
                    t as int,
                ));
                assert(type_readings@.subrange(0, t + 1).last()
                    == type_readings@[t as int]);
                assert forall|i: int|
                    0 <= i < fields@.len() implies crate::strmap::sm_wf(
                    (#[trigger] fields@[i]).1,
                ) by {
                    if sm_contains(f0, type_readings@[t as int].graphql_name@) {
                        if i != crate::strmap::sm_index(
                            f0,
                            type_readings@[t as int].graphql_name@,
                        ) {
                            assert(fields@[i] == f0[i]);
                        }
                    } else {
                        if i < f0.len() {
                            assert(fields@[i] == f0[i]);
                        }
                    }
                }
            }
            t = t + 1;
        }
        proof {
            assert(type_readings@.subrange(0, type_readings@.len() as int)
                =~= type_readings@);
        }
        Ok(
            Schema {
                version,
                namespace,
                identifier,
                query,
                types,
                fields,
                foreign_keys,
            },
        )
    }
}

} // verus!
