//! Dotted module names and the character-level string helpers they are built from.
//!
//! A name such as `std.types.Bool` is a sequence of components separated by `.`.
//! Every function here is specified over the `Seq<char>` view of its arguments.
use vstd::prelude::*;
use vstd::std_specs::iter::IteratorSpec;

verus! {

/// `String::push` of the standard library: appends exactly one character.
pub assume_specification[ std::string::String::push ](s: &mut std::string::String, c: char)
    ensures
        final(s)@ == old(s)@.push(c),
;

/// The views of the strings of `v`, in order.
pub open spec fn strings_view(v: Seq<String>) -> Seq<Seq<char>> {
    Seq::new(v.len(), |i: int| v[i]@)
}

/// Position of the first `.` in `s`, or `s.len()` when there is none.
pub open spec fn first_dot(s: Seq<char>) -> int
    decreases s.len(),
{
    if s.len() == 0 || s[0] == '.' {
        0
    } else {
        1 + first_dot(s.drop_first())
    }
}

/// Position of the last `.` in `s`, or `-1` when there is none.
pub open spec fn last_dot(s: Seq<char>) -> int
    decreases s.len(),
{
    if s.len() == 0 {
        -1
    } else if s.last() == '.' {
        s.len() - 1
    } else {
        last_dot(s.drop_last())
    }
}

/// `s` without its trailing dots.
pub open spec fn trim_dots(s: Seq<char>) -> Seq<char>
    decreases s.len(),
{
    if s.len() > 0 && s.last() == '.' {
        trim_dots(s.drop_last())
    } else {
        s
    }
}

/// `s` without its leading `@` characters.
pub open spec fn trim_at(s: Seq<char>) -> Seq<char>
    decreases s.len(),
{
    if s.len() > 0 && s[0] == '@' {
        trim_at(s.drop_first())
    } else {
        s
    }
}

/// The module part of a name: everything before the last component, without the
/// dots that separated them. A name with a single component has the empty module.
pub open spec fn module_of(s: Seq<char>) -> Seq<char> {
    let d = last_dot(s);
    if d < 0 {
        Seq::empty()
    } else {
        trim_dots(s.take(d))
    }
}

/// The last component of a name.
pub open spec fn name_of(s: Seq<char>) -> Seq<char> {
    s.skip(last_dot(s) + 1)
}

/// The components of a name, in order. The empty name has none, and a trailing dot
/// adds no empty component.
pub open spec fn components(s: Seq<char>) -> Seq<Seq<char>>
    decreases s.len(),
{
    if s.len() == 0 {
        Seq::empty()
    } else {
        let d = first_dot(s);
        if d < 0 || d >= s.len() {
            seq![s]
        } else {
            seq![s.take(d)] + components(s.skip(d + 1))
        }
    }
}

/// The source file that holds a module: dots become path separators and the
/// source extension is appended.
pub open spec fn file_name_of(module: Seq<char>) -> Seq<char> {
    module.map_values(|c: char| if c == '.' { '/' } else { c }) + seq!['.', 'g', 'l', 'u']
}

/// The loadable form of a module reference: it always starts with `@`.
pub open spec fn import_name_of(module: Seq<char>) -> Seq<char> {
    if module.len() > 0 && module[0] == '@' {
        module
    } else {
        seq!['@'] + module
    }
}

/// Whether `c` may occur in an operator token.
pub open spec fn is_operator_char(c: char) -> bool {
    c == '!' || c == '#' || c == '$' || c == '%' || c == '&' || c == '*' || c == '+' || c == '-'
        || c == '.' || c == '/' || c == '<' || c == '=' || c == '>' || c == '?' || c == '@' || c
        == '\\' || c == '^' || c == '|' || c == '~' || c == ':'
}

/// Whether some character of `s` is an operator character.
pub open spec fn has_operator_char(s: Seq<char>) -> bool {
    exists|i: int| 0 <= i < s.len() && is_operator_char(#[trigger] s[i])
}

/// Whether `s` is an operator enclosed in parentheses, as in `(+)`.
pub open spec fn is_parenthesized(s: Seq<char>) -> bool {
    s.len() >= 2 && s[0] == '(' && s.last() == ')'
}

/// Where the last dot of `s` is: at a dot, with no dot behind it.
pub proof fn lemma_last_dot_bounds(s: Seq<char>)
    ensures
        -1 <= last_dot(s) < s.len(),
        last_dot(s) >= 0 ==> s[last_dot(s)] == '.',
        forall|i: int| last_dot(s) < i < s.len() ==> s[i] != '.',
    decreases s.len(),
{
    if s.len() == 0 || s.last() == '.' {
    } else {
        lemma_last_dot_bounds(s.drop_last());
        assert forall|i: int| last_dot(s) < i < s.len() implies s[i] != '.' by {
            if i < s.len() - 1 {
                assert(s[i] == s.drop_last()[i]);
            }
        }
    }
}

/// `trim_dots` keeps a prefix of its argument.
pub proof fn lemma_trim_dots_prefix(s: Seq<char>)
    ensures
        trim_dots(s).len() <= s.len(),
        trim_dots(s) == s.take(trim_dots(s).len() as int),
        trim_dots(s).len() > 0 ==> trim_dots(s).last() != '.',
        forall|i: int| trim_dots(s).len() <= i < s.len() ==> s[i] == '.',
    decreases s.len(),
{
    if s.len() > 0 && s.last() == '.' {
        lemma_trim_dots_prefix(s.drop_last());
        let t = trim_dots(s.drop_last());
        assert(s.drop_last().take(t.len() as int) == s.take(t.len() as int));
        assert forall|i: int| t.len() <= i < s.len() implies s[i] == '.' by {
            if i < s.len() - 1 {
                assert(s[i] == s.drop_last()[i]);
            }
        }
    } else {
        assert(s.take(s.len() as int) == s);
    }
}

/// The module part of a non-empty name is a strictly shorter prefix of it.
pub proof fn lemma_module_of_shorter(s: Seq<char>)
    ensures
        module_of(s).len() <= s.len(),
        s.len() > 0 ==> module_of(s).len() < s.len(),
        module_of(s) == s.take(module_of(s).len() as int),
{
    lemma_last_dot_bounds(s);
    let d = last_dot(s);
    if d < 0 {
        assert(s.take(0) == Seq::<char>::empty());
    } else {
        lemma_trim_dots_prefix(s.take(d));
        let t = trim_dots(s.take(d));
        assert(s.take(d).take(t.len() as int) == s.take(t.len() as int));
    }
}

/// The characters of `s`, one element for each of them.
pub fn chars_of(s: &str) -> (v: Vec<char>)
    ensures
        v@ == s@,
{
    let mut v: Vec<char> = Vec::new();
    let chars = s.chars();
    for c in it: chars
        invariant
            it.seq() == s@,
            v@ == it.seq().take(it.index() as int),
    {
        v.push(c);
    }
    v
}

/// The string made of the characters `v[from..to]`.
pub fn string_of(v: &Vec<char>, from: usize, to: usize) -> (s: String)
    requires
        from <= to <= v.len(),
    ensures
        s@ == v@.subrange(from as int, to as int),
{
    let mut s = String::new();
    let mut i: usize = from;
    while i < to
        invariant
            from <= i <= to <= v.len(),
            s@ == v@.subrange(from as int, i as int),
        decreases to - i,
    {
        s.push(v[i]);
        i += 1;
    }
    s
}

/// Whether two string slices hold the same characters.
pub fn str_eq(a: &str, b: &str) -> (r: bool)
    ensures
        r == (a@ == b@),
{
    let x = chars_of(a);
    let y = chars_of(b);
    if x.len() != y.len() {
        return false;
    }
    let mut i: usize = 0;
    while i < x.len()
        invariant
            i <= x.len(),
            x.len() == y.len(),
            x@ == a@,
            y@ == b@,
            forall|j: int| 0 <= j < i ==> x@[j] == y@[j],
        decreases x.len() - i,
    {
        if x[i] != y[i] {
            assert(a@[i as int] != b@[i as int]);
            return false;
        }
        i += 1;
    }
    assert(x@ =~= y@);
    true
}

/// Whether `name` ends with the character `c`.
pub fn ends_with_char(name: &str, c: char) -> (r: bool)
    ensures
        r == (name@.len() > 0 && name@.last() == c),
{
    let v = chars_of(name);
    v.len() > 0 && v[v.len() - 1] == c
}

/// `name` without its last character.
pub fn without_last_char(name: &str) -> (s: String)
    requires
        name@.len() > 0,
    ensures
        s@ == name@.drop_last(),
{
    let v = chars_of(name);
    string_of(&v, 0, v.len() - 1)
}

/// Length of the module part of the name `v[..len]`.
pub fn module_len(v: &Vec<char>, len: usize) -> (m: usize)
    requires
        len <= v.len(),
    ensures
        m <= len,
        len > 0 ==> m < len,
        v@.take(m as int) == module_of(v@.take(len as int)),
{
    let ghost s = v@.take(len as int);
    let mut i: usize = len;
    assert(s.take(len as int) == s);
    while i > 0 && v[i - 1] != '.'
        invariant
            i <= len <= v.len(),
            s == v@.take(len as int),
            last_dot(s) == last_dot(s.take(i as int)),
        decreases i,
    {
        proof {
            assert(s.take(i as int).drop_last() == s.take(i as int - 1));
        }
        i -= 1;
    }
    proof {
        lemma_last_dot_bounds(s);
        if i > 0 {
            assert(s.take(i as int).last() == '.');
        } else {
            assert(s.take(0).len() == 0);
        }
    }
    if i == 0 {
        proof {
            assert(v@.take(0) == Seq::<char>::empty());
        }
        return 0;
    }
    // `i - 1` is the position of the last dot
    let ghost d = (i - 1) as int;
    let mut m: usize = i - 1;
    while m > 0 && v[m - 1] == '.'
        invariant
            m <= i - 1,
            i <= len <= v.len(),
            d == i - 1,
            s == v@.take(len as int),
            trim_dots(s.take(d)) == trim_dots(s.take(m as int)),
        decreases m,
    {
        proof {
            assert(s.take(m as int).drop_last() == s.take(m as int - 1));
        }
        m -= 1;
    }
    proof {
        if m > 0 {
            assert(s.take(m as int).last() != '.');
        }
        assert(trim_dots(s.take(m as int)) == s.take(m as int));
        assert(s.take(m as int) == v@.take(m as int));
    }
    m
}

/// The module part of `name`.
pub fn module_name(name: &str) -> (s: String)
    ensures
        s@ == module_of(name@),
{
    let v = chars_of(name);
    let m = module_len(&v, v.len());
    proof {
        assert(v@.take(v.len() as int) == v@);
        assert(v@.subrange(0, m as int) == v@.take(m as int));
    }
    string_of(&v, 0, m)
}

/// The last component of `name`.
pub fn last_component(name: &str) -> (s: String)
    ensures
        s@ == name_of(name@),
{
    let v = chars_of(name);
    let mut i: usize = v.len();
    assert(v@.take(v.len() as int) == v@);
    while i > 0 && v[i - 1] != '.'
        invariant
            i <= v.len(),
            last_dot(v@) == last_dot(v@.take(i as int)),
        decreases i,
    {
        proof {
            assert(v@.take(i as int).drop_last() == v@.take(i as int - 1));
        }
        i -= 1;
    }
    proof {
        assert(v@.take(v.len() as int) == v@);
        if i > 0 {
            assert(v@.take(i as int).last() == '.');
        } else {
            assert(v@.take(0).len() == 0);
        }
        assert(last_dot(v@) == i - 1);
        assert(v@.subrange(i as int, v.len() as int) == v@.skip(i as int));
    }
    string_of(&v, i, v.len())
}

/// Number of leading `@` characters of `v`.
pub fn leading_at(v: &Vec<char>) -> (n: usize)
    ensures
        n <= v.len(),
        v@.skip(n as int) == trim_at(v@),
{
    let mut n: usize = 0;
    assert(v@.skip(0) == v@);
    while n < v.len() && v[n] == '@'
        invariant
            n <= v.len(),
            trim_at(v@) == trim_at(v@.skip(n as int)),
        decreases v.len() - n,
    {
        proof {
            assert(v@.skip(n as int).drop_first() == v@.skip(n as int + 1));
        }
        n += 1;
    }
    proof {
        assert(v@.skip(0) == v@);
    }
    n
}

/// The components of the name `v[from..]`.
pub fn split_components(v: &Vec<char>, from: usize) -> (out: Vec<String>)
    requires
        from <= v.len(),
    ensures
        strings_view(out@) == components(v@.skip(from as int)),
{
    let mut out: Vec<String> = Vec::new();
    let mut pos: usize = from;
    let ghost whole = components(v@.skip(from as int));
    let ghost mut done: Seq<Seq<char>> = Seq::empty();
    while pos < v.len()
        invariant
            from <= pos <= v.len(),
            whole == components(v@.skip(from as int)),
            whole == done + components(v@.skip(pos as int)),
            out.len() == done.len(),
            forall|i: int| 0 <= i < out.len() ==> (#[trigger] out@[i])@ == done[i],
        decreases v.len() - pos,
    {
        let ghost rest = v@.skip(pos as int);
        let mut end: usize = pos;
        assert(rest.skip(0) == rest);
        while end < v.len() && v[end] != '.'
            invariant
                pos <= end <= v.len(),
                rest == v@.skip(pos as int),
                first_dot(rest) == (end - pos) + first_dot(rest.skip(end - pos)),
            decreases v.len() - end,
        {
            proof {
                assert(rest.skip(end - pos).drop_first() == rest.skip(end - pos + 1));
            }
            end += 1;
        }
        proof {
            assert(rest.skip(0) == rest);
            if end < v.len() {
                assert(rest.skip(end - pos)[0] == '.');
            } else {
                assert(rest.skip(end - pos).len() == 0);
            }
            assert(first_dot(rest) == end - pos);
            assert(v@.subrange(pos as int, end as int) == rest.take(end - pos));
        }
        let part = string_of(v, pos, end);
        out.push(part);
        proof {
            if end < v.len() {
                assert(rest.skip(end - pos + 1) == v@.skip(end as int + 1));
                done = done.push(rest.take(end - pos));
                assert(whole == done + components(v@.skip(end as int + 1)));
            } else {
                assert(rest.take(end - pos) == rest);
                done = done.push(rest);
                assert(components(v@.skip(v.len() as int)) == Seq::<Seq<char>>::empty());
                assert(whole == done + components(v@.skip(v.len() as int)));
            }
        }
        if end < v.len() {
            pos = end + 1;
        } else {
            pos = end;
        }
    }
    proof {
        assert(components(v@.skip(pos as int)) == Seq::<Seq<char>>::empty());
        assert(whole == done);
        assert(strings_view(out@) =~= whole);
    }
    out
}

/// The file that holds the source of `module`.
pub fn file_name(module: &str) -> (s: String)
    ensures
        s@ == file_name_of(module@),
{
    let v = chars_of(module);
    let mut s = String::new();
    let mut i: usize = 0;
    let ghost mapped = module@.map_values(|c: char| if c == '.' { '/' } else { c });
    while i < v.len()
        invariant
            i <= v.len(),
            v@ == module@,
            mapped == module@.map_values(|c: char| if c == '.' { '/' } else { c }),
            s@ == mapped.take(i as int),
        decreases v.len() - i,
    {
        let c = v[i];
        if c == '.' {
            s.push('/');
        } else {
            s.push(c);
        }
        proof {
            assert(mapped.take(i as int + 1) == mapped.take(i as int).push(mapped[i as int]));
        }
        i += 1;
    }
    proof {
        assert(mapped.take(v.len() as int) == mapped);
    }
    s.push('.');
    s.push('g');
    s.push('l');
    s.push('u');
    assert(s@ == mapped + seq!['.', 'g', 'l', 'u']);
    s
}

/// The loadable form of the module reference `module`.
pub fn import_name(module: &str) -> (s: String)
    ensures
        s@ == import_name_of(module@),
{
    let v = chars_of(module);
    if v.len() > 0 && v[0] == '@' {
        proof {
            assert(v@.subrange(0, v.len() as int) == v@);
        }
        string_of(&v, 0, v.len())
    } else {
        let mut s = String::new();
        s.push('@');
        let mut i: usize = 0;
        while i < v.len()
            invariant
                i <= v.len(),
                s@ == seq!['@'] + v@.take(i as int),
            decreases v.len() - i,
        {
            s.push(v[i]);
            proof {
                assert(v@.take(i as int + 1) == v@.take(i as int).push(v@[i as int]));
            }
            i += 1;
        }
        proof {
            assert(v@.take(v.len() as int) == v@);
        }
        s
    }
}

/// Whether `c` may occur in an operator token.
pub fn operator_char(c: char) -> (r: bool)
    ensures
        r == is_operator_char(c),
{
    c == '!' || c == '#' || c == '$' || c == '%' || c == '&' || c == '*' || c == '+' || c == '-'
        || c == '.' || c == '/' || c == '<' || c == '=' || c == '>' || c == '?' || c == '@' || c
        == '\\' || c == '^' || c == '|' || c == '~' || c == ':'
}

/// Whether `v` holds an operator character.
pub fn contains_operator_char(v: &Vec<char>) -> (r: bool)
    ensures
        r == has_operator_char(v@),
{
    let mut i: usize = 0;
    while i < v.len()
        invariant
            i <= v.len(),
            forall|j: int| 0 <= j < i ==> !is_operator_char(#[trigger] v@[j]),
        decreases v.len() - i,
    {
        if operator_char(v[i]) {
            return true;
        }
        i += 1;
    }
    false
}

} // verus!
