//! Resolution of dotted names against the globals.
//!
//! A name is resolved in two steps. First the longest prefix of the name that
//! is the name of a global is looked for, by leaving out one component after
//! the other from the end. Then what is left of the name is taken as a path of
//! fields, which is walked through the type and the value of that global.
use crate::error::{Error, ErrorKind, MetadataMissing, UndefinedBinding, UndefinedField};
use crate::names::{
    chars_of, components, contains_operator_char, has_operator_char, is_parenthesized,
    last_component, leading_at, lemma_module_of_shorter, module_len, module_name, module_of,
    name_of, split_components, string_of, strings_view, trim_at,
};
use crate::table::Table;
use crate::types::{
    field_position, find_field, find_metadata, lemma_field_position, metadata_position, resolved,
    strip_aliases, Field, Global, Metadata, MetadataField, Type, Value,
};
use vstd::prelude::*;

verus! {

/// Where a walk through the fields of a global ends.
pub enum Walk {
    /// Every field of the path exists: the value and the type of the last one.
    Found(Value, Type),
    /// A component of the path is an operator that is not in parentheses.
    Operator,
    /// The named field is the first of the path that does not exist.
    Missing(Seq<char>),
    /// The value has not the shape of its type.
    Mismatch,
}

/// Length of the longest prefix of `name`, among `name` itself, its module, the
/// module of its module and so on, that is the name of a global; `-1` if there
/// is none.
pub open spec fn resolve_prefix(globals: Table<Global>, name: Seq<char>) -> int
    decreases name.len(),
{
    if name.len() == 0 {
        -1
    } else if globals.contains(name) {
        name.len() as int
    } else {
        proof {
            lemma_module_of_shorter(name);
        }
        resolve_prefix(globals, module_of(name))
    }
}

/// Whether `prefix` is `name`, its module, the module of its module, and so on.
pub open spec fn is_module_prefix(name: Seq<char>, prefix: Seq<char>) -> bool
    decreases name.len(),
{
    if prefix == name {
        true
    } else if name.len() == 0 {
        false
    } else {
        proof {
            lemma_module_of_shorter(name);
        }
        is_module_prefix(module_of(name), prefix)
    }
}

/// Prefix resolution: the prefix that is found is one of the prefixes that
/// leaving out components from the end gives, it names a global, and no longer
/// one of these prefixes names a global.
pub proof fn lemma_resolve_prefix_is_longest(globals: Table<Global>, name: Seq<char>)
    ensures
        resolve_prefix(globals, name) <= name.len(),
        resolve_prefix(globals, name) >= 0 ==> {
            &&& resolve_prefix(globals, name) > 0
            &&& is_module_prefix(name, name.take(resolve_prefix(globals, name)))
            &&& globals.contains(name.take(resolve_prefix(globals, name)))
        },
        forall|prefix: Seq<char>|
            {
                &&& prefix.len() > 0
                &&& is_module_prefix(name, prefix)
                &&& #[trigger] globals.contains(prefix)
            } ==> resolve_prefix(globals, name) >= prefix.len(),
    decreases name.len(),
{
    if name.len() > 0 {
        lemma_module_of_shorter(name);
        let module = module_of(name);
        if globals.contains(name) {
            assert(name.take(name.len() as int) == name);
            assert forall|prefix: Seq<char>|
                prefix.len() > 0 && is_module_prefix(name, prefix) && #[trigger] globals.contains(
                    prefix,
                ) implies resolve_prefix(globals, name) >= prefix.len() by {
                lemma_module_prefix_len(name, prefix);
            }
        } else {
            lemma_resolve_prefix_is_longest(globals, module);
            let n = resolve_prefix(globals, module);
            if n >= 0 {
                assert(module.take(n) == name.take(n));
            }
        }
    }
}

/// A prefix that leaving out components gives is not longer than the name.
pub proof fn lemma_module_prefix_len(name: Seq<char>, prefix: Seq<char>)
    requires
        is_module_prefix(name, prefix),
    ensures
        prefix.len() <= name.len(),
    decreases name.len(),
{
    if prefix != name {
        lemma_module_of_shorter(name);
        lemma_module_prefix_len(module_of(name), prefix);
    }
}

/// What is left of `name` behind a prefix of length `n` and the dot after it.
pub open spec fn remainder(name: Seq<char>, n: int) -> Seq<char> {
    if n + 1 <= name.len() {
        name.skip(n + 1)
    } else {
        Seq::empty()
    }
}

/// The field that a component of a path names: an operator must stand in
/// parentheses, which are left out.
pub open spec fn field_key(component: Seq<char>) -> Option<Seq<char>> {
    if is_parenthesized(component) {
        Some(component.subrange(1, component.len() - 1))
    } else if has_operator_char(component) {
        None
    } else {
        Some(component)
    }
}

/// Walks `path` field by field through `typ` and `value`. At each step the
/// aliases around the type are left out.
pub open spec fn walk(value: Value, typ: Type, path: Seq<Seq<char>>) -> Walk
    decreases path.len(),
{
    if path.len() == 0 {
        Walk::Found(value, typ)
    } else {
        match field_key(path[0]) {
            None => Walk::Operator,
            Some(key) => match strip_aliases(typ) {
                Type::Record { fields, .. } => {
                    let i = field_position(fields@, key);
                    if i < 0 {
                        Walk::Missing(key)
                    } else {
                        match value {
                            Value::Data(vs) => if i < vs.len() {
                                walk(vs[i], fields[i].typ, path.drop_first())
                            } else {
                                Walk::Mismatch
                            },
                            _ => Walk::Mismatch,
                        }
                    }
                },
                _ => Walk::Missing(key),
            },
        }
    }
}

/// Number of leading components of `path` that name fields which exist.
pub open spec fn present(typ: Type, path: Seq<Seq<char>>) -> nat
    decreases path.len(),
{
    if path.len() == 0 {
        0
    } else {
        match field_key(path[0]) {
            None => 0,
            Some(key) => match strip_aliases(typ) {
                Type::Record { fields, .. } => {
                    let i = field_position(fields@, key);
                    if i < 0 {
                        0
                    } else {
                        1 + present(fields[i].typ, path.drop_first())
                    }
                },
                _ => 0,
            },
        }
    }
}

/// Field-path resolution: along a path without bare operators, through a value
/// that has the shape of its type, the walk succeeds exactly when every
/// component names a field that exists, and otherwise it names the first
/// component that does not.
pub proof fn lemma_walk_names_first_missing(value: Value, typ: Type, path: Seq<Seq<char>>)
    requires
        forall|k: int| 0 <= k < path.len() ==> field_key(#[trigger] path[k]) is Some,
        !(walk(value, typ, path) is Mismatch),
    ensures
        present(typ, path) <= path.len(),
        walk(value, typ, path) is Found <==> present(typ, path) == path.len(),
        !(walk(value, typ, path) is Found) ==> walk(value, typ, path) == Walk::Missing(
            field_key(path[present(typ, path) as int])->Some_0,
        ),
    decreases path.len(),
{
    if path.len() > 0 {
        let key = field_key(path[0])->Some_0;
        match strip_aliases(typ) {
            Type::Record { fields, .. } => {
                let i = field_position(fields@, key);
                if i >= 0 {
                    lemma_field_position(fields@, key);
                    match value {
                        Value::Data(vs) => {
                            if i < vs.len() {
                                let rest = path.drop_first();
                                assert forall|k: int| 0 <= k < rest.len() implies field_key(
                                    #[trigger] rest[k],
                                ) is Some by {
                                    assert(rest[k] == path[k + 1]);
                                }
                                lemma_walk_names_first_missing(vs[i], fields[i].typ, rest);
                                let p = present(fields[i].typ, rest);
                                if p < rest.len() {
                                    assert(rest[p as int] == path[p as int + 1]);
                                }
                            }
                        },
                        _ => {},
                    }
                }
            },
            _ => {},
        }
    }
}

/// The metadata of the part that `path` leads to, if every component names a part.
pub open spec fn metadata_at(metadata: Metadata, path: Seq<Seq<char>>) -> Option<Metadata>
    decreases path.len(),
{
    if path.len() == 0 {
        Some(metadata)
    } else {
        let i = metadata_position(metadata.module@, path[0]);
        if 0 <= i < metadata.module.len() {
            metadata_at(metadata.module[i].metadata, path.drop_first())
        } else {
            None
        }
    }
}

/// The text of the error for an operator that is not in parentheses.
pub const OPERATOR_MESSAGE: &'static str =
    "Operators cannot be used as fields directly. To access an operator field, enclose the \
     operator with parentheses before passing it in. (test.(+) instead of test.+)";

/// The text of the error for an operator that is not in parentheses.
pub open spec fn operator_text() -> Seq<char> {
    OPERATOR_MESSAGE@
}

/// The text of the error for a value that has not the shape of its type.
pub open spec fn mismatch_text() -> Seq<char> {
    "Unexpected value"@
}

/// Whether `r` is what the walk `w` is reported as.
pub open spec fn reports(r: Result<(&Value, &Type), Error>, w: Walk) -> bool {
    match w {
        Walk::Found(v, t) => r is Ok && *r->Ok_0.0 == v && *r->Ok_0.1 == t,
        Walk::Operator => r is Err && r->Err_0.kind == ErrorKind::Message && r->Err_0.text@
            == operator_text(),
        Walk::Missing(field) => r is Err && r->Err_0.kind == ErrorKind::UndefinedField
            && r->Err_0.text@ == field,
        Walk::Mismatch => r is Err && r->Err_0.kind == ErrorKind::Message && r->Err_0.text@
            == mismatch_text(),
    }
}

/// Walks `path` through `typ` and `value`.
#[verifier::spinoff_prover]
pub fn walk_fields<'a>(value: &'a Value, typ: &'a Type, path: &Vec<String>) -> (r: Result<
    (&'a Value, &'a Type),
    Error,
>)
    ensures
        reports(r, walk(*value, *typ, strings_view(path@))),
{
    let ghost whole = strings_view(path@);
    let ghost goal = walk(*value, *typ, whole);
    let mut at_value = value;
    let mut at_typ = typ;
    let mut i: usize = 0;
    proof {
        assert(whole.skip(0) == whole);
    }
    while i < path.len()
        invariant
            i <= path.len(),
            whole == strings_view(path@),
            goal == walk(*value, *typ, whole),
            goal == walk(*at_value, *at_typ, whole.skip(i as int)),
        decreases path.len() - i,
    {
        let ghost rest = whole.skip(i as int);
        proof {
            assert(rest[0] == path@[i as int]@);
            assert(rest.drop_first() == whole.skip(i as int + 1));
        }
        let component = chars_of(path[i].as_str());
        let n = component.len();
        let key = if n >= 2 && component[0] == '(' && component[n - 1] == ')' {
            string_of(&component, 1, n - 1)
        } else if contains_operator_char(&component) {
            proof {
                assert(field_key(rest[0]) is None);
                assert(goal == Walk::Operator);
            }
            return Err(Error::message(OPERATOR_MESSAGE));
        } else {
            path[i].clone()
        };
        assert(field_key(rest[0]) == Some(key@));
        match resolved(at_typ) {
            Type::Record { fields, .. } => {
                match find_field(fields, key.as_str()) {
                    Some(index) => {
                        proof {
                            lemma_field_position(fields@, key@);
                        }
                        match at_value {
                            Value::Data(vs) => {
                                if index < vs.len() {
                                    at_value = &vs[index];
                                    at_typ = &fields[index].typ;
                                } else {
                                    proof {
                                        assert(goal == Walk::Mismatch);
                                    }
                                    return Err(Error::message("Unexpected value"));
                                }
                            },
                            _ => {
                                proof {
                                    assert(goal == Walk::Mismatch);
                                }
                                return Err(Error::message("Unexpected value"));
                            },
                        }
                    },
                    None => {
                        proof {
                            assert(goal == Walk::Missing(key@));
                        }
                        return Err(Error::new(UndefinedField(key)));
                    },
                }
            },
            _ => {
                proof {
                    assert(goal == Walk::Missing(key@));
                }
                return Err(Error::new(UndefinedField(key)));
            },
        }
        i += 1;
    }
    proof {
        assert(whole.skip(path.len() as int).len() == 0);
    }
    Ok((at_value, at_typ))
}

/// The global whose name is the longest prefix of `name`, with what is left of
/// the name behind it. Leading `@` characters do not count.
#[verifier::spinoff_prover]
pub fn get_global<'a>(globals: &'a Table<Global>, name: &str) -> (r: Option<(String, &'a Global)>)
    requires
        globals.wf(),
    ensures
        ({
            let trimmed = trim_at(name@);
            let n = resolve_prefix(*globals, trimmed);
            match r {
                None => n < 0,
                Some((rest, global)) => {
                    &&& 0 < n <= trimmed.len()
                    &&& globals.contains(trimmed.take(n))
                    &&& *global == globals.value_of(trimmed.take(n))
                    &&& rest@ == remainder(trimmed, n)
                },
            }
        }),
{
    let all = chars_of(name);
    let start = leading_at(&all);
    let mut trimmed: Vec<char> = Vec::new();
    let mut j: usize = start;
    while j < all.len()
        invariant
            start <= j <= all.len(),
            trimmed@ == all@.subrange(start as int, j as int),
        decreases all.len() - j,
    {
        trimmed.push(all[j]);
        j += 1;
    }
    assert(trimmed@ == trim_at(name@)) by {
        assert(all@.subrange(start as int, all.len() as int) == all@.skip(start as int));
    }
    let mut len: usize = trimmed.len();
    proof {
        assert(trimmed@.take(len as int) == trimmed@);
    }
    while len > 0
        invariant
            len <= trimmed.len(),
            globals.wf(),
            trimmed@ == trim_at(name@),
            resolve_prefix(*globals, trimmed@) == resolve_prefix(
                *globals,
                trimmed@.take(len as int),
            ),
        decreases len,
    {
        let candidate = string_of(&trimmed, 0, len);
        proof {
            assert(trimmed@.subrange(0, len as int) == trimmed@.take(len as int));
        }
        match globals.get(candidate.as_str()) {
            Some(global) => {
                let from = if len < trimmed.len() {
                    len + 1
                } else {
                    trimmed.len()
                };
                let rest = string_of(&trimmed, from, trimmed.len());
                proof {
                    assert(trimmed@.subrange(from as int, trimmed.len() as int) =~= remainder(
                        trimmed@,
                        len as int,
                    ));
                    assert(resolve_prefix(*globals, trimmed@.take(len as int)) == len);
                }
                return Some((rest, global));
            },
            None => {
                let shorter = module_len(&trimmed, len);
                proof {
                    assert(resolve_prefix(*globals, trimmed@.take(len as int)) == resolve_prefix(
                        *globals,
                        module_of(trimmed@.take(len as int)),
                    ));
                }
                len = shorter;
            },
        }
    }
    proof {
        assert(trimmed@.take(0).len() == 0);
    }
    None
}

/// What `name` resolves to: `None` when no prefix of it names a global, else
/// where the walk through the rest of the name ends.
pub open spec fn resolution(globals: Table<Global>, name: Seq<char>) -> Option<Walk> {
    let trimmed = trim_at(name);
    let n = resolve_prefix(globals, trimmed);
    if n < 0 {
        None
    } else {
        let global = globals.value_of(trimmed.take(n));
        Some(walk(global.value, global.typ, components(remainder(trimmed, n))))
    }
}

/// The components of `name` behind the longest prefix that names a global.
pub open spec fn field_path(globals: Table<Global>, name: Seq<char>) -> Seq<Seq<char>> {
    let trimmed = trim_at(name);
    components(remainder(trimmed, resolve_prefix(globals, trimmed)))
}

/// The global that the longest prefix of `name` that names one is the name of.
pub open spec fn found_global(globals: Table<Global>, name: Seq<char>) -> Global {
    let trimmed = trim_at(name);
    globals.value_of(trimmed.take(resolve_prefix(globals, trimmed)))
}

/// Field-path resolution of a name: where a prefix of the name names a global,
/// no component behind it is a bare operator, and the value of the global has
/// the shape of its type, the name resolves exactly when every component
/// behind the prefix names a field that exists; otherwise the resolution
/// names the first component that does not, and no later one.
pub proof fn lemma_resolution_names_first_missing(globals: Table<Global>, name: Seq<char>)
    requires
        resolve_prefix(globals, trim_at(name)) >= 0,
        forall|k: int|
            0 <= k < field_path(globals, name).len() ==> field_key(
                #[trigger] field_path(globals, name)[k],
            ) is Some,
        resolution(globals, name) != Some(Walk::Mismatch),
    ensures
        resolution(globals, name) is Some,
        present(found_global(globals, name).typ, field_path(globals, name)) <= field_path(
            globals,
            name,
        ).len(),
        resolution(globals, name)->Some_0 is Found <==> present(
            found_global(globals, name).typ,
            field_path(globals, name),
        ) == field_path(globals, name).len(),
        !(resolution(globals, name)->Some_0 is Found) ==> resolution(globals, name) == Some(
            Walk::Missing(
                field_key(
                    field_path(globals, name)[present(
                        found_global(globals, name).typ,
                        field_path(globals, name),
                    ) as int],
                )->Some_0,
            ),
        ),
{
    let global = found_global(globals, name);
    lemma_walk_names_first_missing(global.value, global.typ, field_path(globals, name));
}

/// Field-path resolution succeeds exactly when a prefix of the name names a
/// global and every component behind the longest such prefix names a field
/// that exists, for a name without bare operators behind that prefix and a
/// global whose value has the shape of its type.
pub proof fn lemma_resolves_exactly_when(globals: Table<Global>, name: Seq<char>)
    requires
        forall|k: int|
            0 <= k < field_path(globals, name).len() ==> field_key(
                #[trigger] field_path(globals, name)[k],
            ) is Some,
        resolution(globals, name) != Some(Walk::Mismatch),
    ensures
        (resolution(globals, name) matches Some(w) && w is Found) <==> {
            &&& resolve_prefix(globals, trim_at(name)) >= 0
            &&& present(found_global(globals, name).typ, field_path(globals, name)) == field_path(
                globals,
                name,
            ).len()
        },
{
    if resolve_prefix(globals, trim_at(name)) >= 0 {
        lemma_resolution_names_first_missing(globals, name);
    }
}

/// The value and the type that `name` is bound to.
pub fn get_binding<'a>(globals: &'a Table<Global>, name: &str) -> (r: Result<
    (&'a Value, &'a Type),
    Error,
>)
    requires
        globals.wf(),
    ensures
        match resolution(*globals, name@) {
            None => r is Err && r->Err_0.kind == ErrorKind::UndefinedBinding && r->Err_0.text@
                == name@,
            Some(w) => reports(r, w),
        },
{
    match get_global(globals, name) {
        None => Err(Error::new(UndefinedBinding(name.to_owned()))),
        Some((rest, global)) => {
            let chars = chars_of(rest.as_str());
            proof {
                assert(chars@.skip(0) == chars@);
            }
            let path = split_components(&chars, 0);
            walk_fields(&global.value, &global.typ, &path)
        },
    }
}

/// The metadata that `name` leads to: `None` when no prefix of the name names
/// a global, or when a component of the rest names no part of the metadata.
pub open spec fn metadata_of(globals: Table<Global>, name: Seq<char>) -> Option<Metadata> {
    let trimmed = trim_at(name);
    let n = resolve_prefix(globals, trimmed);
    if n < 0 {
        None
    } else {
        metadata_at(globals.value_of(trimmed.take(n)).metadata, components(remainder(trimmed, n)))
    }
}

/// The metadata that `name` leads to, if there is any.
pub fn find_metadata_of<'a>(globals: &'a Table<Global>, name: &str) -> (r: Option<&'a Metadata>)
    requires
        globals.wf(),
    ensures
        match metadata_of(*globals, name@) {
            Some(m) => r is Some && *r->Some_0 == m,
            None => r is None,
        },
{
    match get_global(globals, name) {
        None => None,
        Some((rest, global)) => {
            let chars = chars_of(rest.as_str());
            proof {
                assert(chars@.skip(0) == chars@);
            }
            let path = split_components(&chars, 0);
            let ghost whole = strings_view(path@);
            let ghost goal = metadata_of(*globals, name@);
            let mut metadata = &global.metadata;
            let mut i: usize = 0;
            proof {
                assert(whole.skip(0) == whole);
                assert(goal == metadata_at(global.metadata, whole));
            }
            while i < path.len()
                invariant
                    i <= path.len(),
                    whole == strings_view(path@),
                    goal == metadata_of(*globals, name@),
                    goal == metadata_at(*metadata, whole.skip(i as int)),
                decreases path.len() - i,
            {
                proof {
                    assert(whole.skip(i as int)[0] == path@[i as int]@);
                    assert(whole.skip(i as int).drop_first() == whole.skip(i as int + 1));
                }
                match find_metadata(&metadata.module, path[i].as_str()) {
                    Some(index) => {
                        metadata = &metadata.module[index].metadata;
                    },
                    None => {
                        proof {
                            assert(metadata_at(*metadata, whole.skip(i as int)) is None);
                        }
                        return None;
                    },
                }
                i += 1;
            }
            proof {
                assert(whole.skip(path.len() as int).len() == 0);
            }
            Some(metadata)
        },
    }
}

/// The metadata that `name` leads to; its absence is an error that names `name`.
pub fn get_metadata<'a>(globals: &'a Table<Global>, name: &str) -> (r: Result<&'a Metadata, Error>)
    requires
        globals.wf(),
    ensures
        match metadata_of(*globals, name@) {
            Some(m) => r is Ok && *r->Ok_0 == m,
            None => r is Err && r->Err_0.kind == ErrorKind::MetadataMissing && r->Err_0.text@
                == name@,
        },
{
    match find_metadata_of(globals, name) {
        Some(metadata) => Ok(metadata),
        None => Err(Error::new(MetadataMissing(name.to_owned()))),
    }
}

/// What the type named `name` is looked up to. A name without a module is
/// looked up among `type_infos`. Any other name is the name of a type that a
/// binding exports: the module part is resolved as a binding, and the last
/// component is looked for among the types of its record.
pub open spec fn type_info_of(
    globals: Table<Global>,
    type_infos: Table<Type>,
    name: Seq<char>,
) -> Result<Type, (ErrorKind, Seq<char>)> {
    if module_of(name).len() == 0 {
        if type_infos.contains(name) {
            Ok(type_infos.value_of(name))
        } else {
            Err((ErrorKind::UndefinedBinding, name))
        }
    } else {
        match resolution(globals, module_of(name)) {
            None => Err((ErrorKind::UndefinedBinding, module_of(name))),
            Some(Walk::Found(_, typ)) => match typ {
                Type::Record { types, .. } => {
                    let i = field_position(types@, name_of(name));
                    if i < 0 {
                        Err((ErrorKind::UndefinedField, name_of(name)))
                    } else {
                        Ok(types[i].typ)
                    }
                },
                _ => Err((ErrorKind::UndefinedField, name_of(name))),
            },
            Some(Walk::Operator) => Err((ErrorKind::Message, operator_text())),
            Some(Walk::Missing(field)) => Err((ErrorKind::UndefinedField, field)),
            Some(Walk::Mismatch) => Err((ErrorKind::Message, mismatch_text())),
        }
    }
}

/// The type that the type name `name` stands for.
pub fn find_type_info<'a>(
    globals: &'a Table<Global>,
    type_infos: &'a Table<Type>,
    name: &str,
) -> (r: Result<&'a Type, Error>)
    requires
        globals.wf(),
        type_infos.wf(),
    ensures
        match type_info_of(*globals, *type_infos, name@) {
            Ok(typ) => r is Ok && *r->Ok_0 == typ,
            Err((kind, text)) => r is Err && r->Err_0.kind == kind && r->Err_0.text@ == text,
        },
{
    let module = module_name(name);
    if module.as_str().unicode_len() == 0 {
        return match type_infos.get(name) {
            Some(typ) => Ok(typ),
            None => Err(Error::new(UndefinedBinding(name.to_owned()))),
        };
    }
    match get_binding(globals, module.as_str()) {
        Ok((_, typ)) => {
            let field = last_component(name);
            match typ {
                Type::Record { types, .. } => match find_field(types, field.as_str()) {
                    Some(index) => {
                        proof {
                            lemma_field_position(types@, field@);
                        }
                        Ok(&types[index].typ)
                    },
                    None => Err(Error::new(UndefinedField(field))),
                },
                _ => Err(Error::new(UndefinedField(field))),
            }
        },
        Err(e) => Err(e),
    }
}

} // verus!
