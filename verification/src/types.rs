//! Types, values and metadata of the globals, as far as name resolution reads them.
use vstd::prelude::*;

verus! {

/// A field of a record type.
#[derive(Debug, PartialEq, Eq, Hash)]
pub struct Field {
    pub name: String,
    pub typ: Type,
}

/// The type of a global or of a part of it.
#[derive(Debug, PartialEq, Eq, Hash)]
pub enum Type {
    /// A type that has no fields, known by its name.
    Builtin(String),
    /// A record: the types it exports and its fields, in declaration order.
    Record { types: Vec<Field>, fields: Vec<Field> },
    /// A name for another type.
    Alias { name: String, typ: Box<Type> },
}

/// A value that a module has been executed to.
#[derive(Debug, PartialEq, Eq, Hash)]
pub enum Value {
    Int(i64),
    String(String),
    /// The fields of a record, in the order of the fields of its type.
    Data(Vec<Value>),
}

/// A named part of the metadata of a binding.
#[derive(Debug, PartialEq, Eq, Hash)]
pub struct MetadataField {
    pub name: String,
    pub metadata: Metadata,
}

/// Documentation of a binding and of the fields below it.
#[derive(Debug, PartialEq, Eq, Hash)]
pub struct Metadata {
    pub comment: Option<String>,
    pub module: Vec<MetadataField>,
}

/// The public value of a module that has been executed.
#[derive(Debug, PartialEq, Eq, Hash)]
pub struct Global {
    pub id: String,
    pub typ: Type,
    pub metadata: Metadata,
    pub value: Value,
}

/// Whether `a` and `b` are the same type: the same shape, with the same names
/// at the same places.
pub open spec fn type_eq(a: Type, b: Type) -> bool
    decreases a,
{
    match (a, b) {
        (Type::Builtin(x), Type::Builtin(y)) => x@ == y@,
        (Type::Record { types: t1, fields: f1 }, Type::Record { types: t2, fields: f2 }) => {
            fields_eq(t1@, t2@) && fields_eq(f1@, f2@)
        },
        (Type::Alias { name: n1, typ: t1 }, Type::Alias { name: n2, typ: t2 }) => {
            n1@ == n2@ && type_eq(*t1, *t2)
        },
        _ => false,
    }
}

/// Whether `a` and `b` hold the same fields, in the same order.
pub open spec fn fields_eq(a: Seq<Field>, b: Seq<Field>) -> bool
    decreases a,
{
    if a.len() == 0 {
        b.len() == 0
    } else {
        &&& b.len() == a.len()
        &&& fields_eq(a.drop_last(), b.drop_last())
        &&& a.last().name@ == b.last().name@
        &&& type_eq(a.last().typ, b.last().typ)
    }
}

/// Being the same type does not depend on the side.
pub proof fn lemma_type_eq_symmetric(a: Type, b: Type)
    ensures
        type_eq(a, b) == type_eq(b, a),
    decreases a,
{
    match (a, b) {
        (Type::Record { types: t1, fields: f1 }, Type::Record { types: t2, fields: f2 }) => {
            lemma_fields_eq_symmetric(t1@, t2@);
            lemma_fields_eq_symmetric(f1@, f2@);
        },
        (Type::Alias { typ: t1, .. }, Type::Alias { typ: t2, .. }) => {
            lemma_type_eq_symmetric(*t1, *t2);
        },
        _ => {},
    }
}

/// Holding the same fields does not depend on the side.
pub proof fn lemma_fields_eq_symmetric(a: Seq<Field>, b: Seq<Field>)
    ensures
        fields_eq(a, b) == fields_eq(b, a),
    decreases a,
{
    if a.len() > 0 && b.len() == a.len() {
        lemma_fields_eq_symmetric(a.drop_last(), b.drop_last());
        lemma_type_eq_symmetric(a.last().typ, b.last().typ);
    }
}

/// Types that are the same as a third are the same.
pub proof fn lemma_type_eq_transitive(a: Type, b: Type, c: Type)
    requires
        type_eq(a, b),
        type_eq(b, c),
    ensures
        type_eq(a, c),
    decreases a,
{
    match (a, b, c) {
        (
            Type::Record { types: t1, fields: f1 },
            Type::Record { types: t2, fields: f2 },
            Type::Record { types: t3, fields: f3 },
        ) => {
            lemma_fields_eq_transitive(t1@, t2@, t3@);
            lemma_fields_eq_transitive(f1@, f2@, f3@);
        },
        (Type::Alias { typ: t1, .. }, Type::Alias { typ: t2, .. }, Type::Alias { typ: t3, .. }) => {
            lemma_type_eq_transitive(*t1, *t2, *t3);
        },
        _ => {},
    }
}

/// Lists of fields that are the same as a third are the same.
pub proof fn lemma_fields_eq_transitive(a: Seq<Field>, b: Seq<Field>, c: Seq<Field>)
    requires
        fields_eq(a, b),
        fields_eq(b, c),
    ensures
        fields_eq(a, c),
    decreases a,
{
    if a.len() > 0 {
        lemma_fields_eq_transitive(a.drop_last(), b.drop_last(), c.drop_last());
        lemma_type_eq_transitive(a.last().typ, b.last().typ, c.last().typ);
    }
}

/// Whether `a` and `b` are the same type.
pub fn same_type(a: &Type, b: &Type) -> (r: bool)
    ensures
        r == type_eq(*a, *b),
    decreases a,
{
    match (a, b) {
        (Type::Builtin(x), Type::Builtin(y)) => *x == *y,
        (Type::Record { types: t1, fields: f1 }, Type::Record { types: t2, fields: f2 }) => {
            same_fields(t1, t2) && same_fields(f1, f2)
        },
        (Type::Alias { name: n1, typ: t1 }, Type::Alias { name: n2, typ: t2 }) => {
            *n1 == *n2 && same_type(t1, t2)
        },
        _ => false,
    }
}

/// Whether `a` and `b` hold the same fields, in the same order.
pub fn same_fields(a: &Vec<Field>, b: &Vec<Field>) -> (r: bool)
    ensures
        r == fields_eq(a@, b@),
    decreases a,
{
    if a.len() != b.len() {
        return false;
    }
    let mut i: usize = 0;
    proof {
        assert(a@.take(0).len() == 0);
    }
    while i < a.len()
        invariant
            i <= a.len(),
            a.len() == b.len(),
            fields_eq(a@.take(i as int), b@.take(i as int)),
        decreases a.len() - i,
    {
        proof {
            assert(a@.take(i as int + 1).drop_last() == a@.take(i as int));
            assert(b@.take(i as int + 1).drop_last() == b@.take(i as int));
            assert(a@.take(i as int + 1).last() == a@[i as int]);
            assert(b@.take(i as int + 1).last() == b@[i as int]);
        }
        if !(a[i].name == b[i].name && same_type(&a[i].typ, &b[i].typ)) {
            proof {
                if fields_eq(a@, b@) {
                    lemma_fields_eq_prefix(a@, b@, i as int + 1);
                }
            }
            return false;
        }
        i += 1;
    }
    proof {
        assert(a@.take(a.len() as int) == a@);
        assert(b@.take(b.len() as int) == b@);
    }
    true
}

/// Lists that hold the same fields hold the same fields up to any position.
pub proof fn lemma_fields_eq_prefix(a: Seq<Field>, b: Seq<Field>, n: int)
    requires
        0 <= n <= a.len(),
        a.len() == b.len(),
        fields_eq(a, b),
    ensures
        fields_eq(a.take(n), b.take(n)),
    decreases a.len(),
{
    if n == a.len() {
        assert(a.take(n) == a);
        assert(b.take(n) == b);
    } else {
        lemma_fields_eq_prefix(a.drop_last(), b.drop_last(), n);
        assert(a.drop_last().take(n) == a.take(n));
        assert(b.drop_last().take(n) == b.take(n));
    }
}

/// A copy of a type.
pub fn clone_type(t: &Type) -> (r: Type)
    ensures
        type_eq(*t, r),
    decreases t,
{
    match t {
        Type::Builtin(name) => Type::Builtin(name.clone()),
        Type::Record { types, fields } => Type::Record {
            types: clone_fields(types),
            fields: clone_fields(fields),
        },
        Type::Alias { name, typ } => Type::Alias {
            name: name.clone(),
            typ: Box::new(clone_type(typ)),
        },
    }
}

/// A copy of a list of fields.
pub fn clone_fields(fields: &Vec<Field>) -> (r: Vec<Field>)
    ensures
        fields_eq(fields@, r@),
    decreases fields,
{
    let mut out: Vec<Field> = Vec::new();
    let mut i: usize = 0;
    proof {
        assert(fields@.take(0).len() == 0);
    }
    while i < fields.len()
        invariant
            i <= fields.len(),
            out@.len() == i,
            fields_eq(fields@.take(i as int), out@),
        decreases fields.len() - i,
    {
        let field = &fields[i];
        let ghost before = out@;
        out.push(Field { name: field.name.clone(), typ: clone_type(&field.typ) });
        proof {
            assert(fields@.take(i as int + 1).drop_last() == fields@.take(i as int));
            assert(fields@.take(i as int + 1).last() == fields@[i as int]);
            assert(out@.drop_last() == before);
        }
        i += 1;
    }
    proof {
        assert(fields@.take(fields.len() as int) == fields@);
    }
    out
}

/// `t` without the aliases around it.
pub open spec fn strip_aliases(t: Type) -> Type
    decreases t,
{
    match t {
        Type::Alias { typ, .. } => strip_aliases(*typ),
        _ => t,
    }
}

/// Position of the first field of `fields` named `name`, or `-1`.
pub open spec fn field_position(fields: Seq<Field>, name: Seq<char>) -> int
    decreases fields.len(),
{
    if fields.len() == 0 {
        -1
    } else if fields[0].name@ == name {
        0
    } else {
        let rest = field_position(fields.drop_first(), name);
        if rest < 0 {
            -1
        } else {
            rest + 1
        }
    }
}

/// Position of the first part of `parts` named `name`, or `-1`.
pub open spec fn metadata_position(parts: Seq<MetadataField>, name: Seq<char>) -> int
    decreases parts.len(),
{
    if parts.len() == 0 {
        -1
    } else if parts[0].name@ == name {
        0
    } else {
        let rest = metadata_position(parts.drop_first(), name);
        if rest < 0 {
            -1
        } else {
            rest + 1
        }
    }
}

/// Where the first field of a name is: at a field of that name, with no field
/// of that name before it.
pub proof fn lemma_field_position(fields: Seq<Field>, name: Seq<char>)
    ensures
        -1 <= field_position(fields, name) < fields.len(),
        field_position(fields, name) >= 0 ==> fields[field_position(fields, name)].name@ == name,
        forall|i: int|
            0 <= i < fields.len() && fields[i].name@ == name ==> 0 <= field_position(fields, name)
                <= i,
    decreases fields.len(),
{
    if fields.len() > 0 && fields[0].name@ != name {
        lemma_field_position(fields.drop_first(), name);
        assert forall|i: int| 0 <= i < fields.len() && fields[i].name@ == name implies 0
            <= field_position(fields, name) <= i by {
            assert(fields.drop_first()[i - 1] == fields[i]);
        }
    }
}

/// The type under the aliases of `t`.
pub fn resolved(t: &Type) -> (r: &Type)
    ensures
        *r == strip_aliases(*t),
{
    let mut current = t;
    loop
        invariant
            strip_aliases(*current) == strip_aliases(*t),
        ensures
            *current == strip_aliases(*t),
        decreases *current,
    {
        match current {
            Type::Alias { typ, .. } => {
                current = typ;
            },
            _ => {
                break;
            },
        }
    }
    current
}

/// Position of the first field named `name`.
pub fn find_field(fields: &Vec<Field>, name: &str) -> (r: Option<usize>)
    ensures
        match r {
            Some(i) => i == field_position(fields@, name@),
            None => field_position(fields@, name@) < 0,
        },
{
    let owned = name.to_owned();
    let mut i: usize = 0;
    assert(fields@.skip(0) == fields@);
    while i < fields.len()
        invariant
            i <= fields.len(),
            owned@ == name@,
            field_position(fields@, name@) == (if field_position(fields@.skip(i as int), name@) < 0 {
                -1
            } else {
                i + field_position(fields@.skip(i as int), name@)
            }),
        decreases fields.len() - i,
    {
        proof {
            assert(fields@.skip(i as int).drop_first() == fields@.skip(i as int + 1));
        }
        if fields[i].name == owned {
            return Some(i);
        }
        i += 1;
    }
    None
}

/// Position of the first part named `name`.
pub fn find_metadata(parts: &Vec<MetadataField>, name: &str) -> (r: Option<usize>)
    ensures
        match r {
            Some(i) => i == metadata_position(parts@, name@) && i < parts.len(),
            None => metadata_position(parts@, name@) < 0,
        },
{
    let owned = name.to_owned();
    let mut i: usize = 0;
    assert(parts@.skip(0) == parts@);
    while i < parts.len()
        invariant
            i <= parts.len(),
            owned@ == name@,
            metadata_position(parts@, name@) == (if metadata_position(
                parts@.skip(i as int),
                name@,
            ) < 0 {
                -1
            } else {
                i + metadata_position(parts@.skip(i as int), name@)
            }),
        decreases parts.len() - i,
    {
        proof {
            assert(parts@.skip(i as int).drop_first() == parts@.skip(i as int + 1));
        }
        if parts[i].name == owned {
            return Some(i);
        }
        i += 1;
    }
    None
}

} // verus!
