//! The compilation database: the inputs, the memoized queries over them, and
//! the environment of globals that the queries build.
//!
//! The database decides, the caller works. A query either answers at once, from
//! its cache or because what it depends on has failed, or it says what has to
//! be done outside: load a text, typecheck, compile, load a module, execute.
//! The caller does that and reports the result with the matching function. A
//! query that is being computed has a frame on the stack of the database; what
//! is read while the frame is on top is what the result depends on.
use crate::ast::{Expr, SpannedExpr};
use crate::cache::{
    clone_result, current, lemma_reads_module_both, lemma_reads_module_same, reads_both,
    reads_module, revision as revision_now, revision_of, same_reads, Cache, Memo, Reads, Stamp,
};
use crate::error::{CyclicImportError, Error, ErrorKind, LoadError};
use crate::macros::{Errors, SpannedError};
use crate::names::{
    chars_of, file_name, file_name_of, import_name, import_name_of, leading_at, str_eq, string_of,
    strings_view, trim_at,
};
use crate::resolve;
use crate::resolve::{metadata_of, reports, resolution, type_info_of};
use crate::state::{
    code_map_files, covered, covered_at, covers, file_replaced, holds_text, record_of, spaced,
    SourceFile, State,
};
use codespan::CodeMap;
use crate::table::{last_first, Table};
use crate::types::{clone_type, same_type, type_eq, Global, Metadata, Type, Value};
use std::sync::Arc;
use vstd::prelude::*;

verus! {

/// The queries that have a frame while they are computed.
#[derive(Clone, Copy, Debug, PartialEq, Eq, Structural, Hash)]
pub enum QueryKind {
    ModuleText,
    TypecheckedModule,
    CompiledModule,
    Import,
    Globals,
}

/// A query that is being computed, with what has been read for it so far.
pub struct Frame {
    pub kind: QueryKind,
    pub module: String,
    pub reads: Reads,
}

/// A module that has been typechecked: its expression, with the macros
/// expanded, and its type.
#[derive(Debug, PartialEq, Eq, Hash)]
pub struct TypecheckValue {
    pub expr: SpannedExpr,
    pub typ: Type,
}

/// A module that has been compiled.
#[derive(Debug, PartialEq, Eq, Hash)]
pub struct CompileValue {
    pub expr: SpannedExpr,
    pub typ: Type,
    pub code: Vec<u8>,
}

/// Whether `f` is the frame of the query `kind` of `module`.
pub open spec fn frame_of(f: Frame, kind: QueryKind, module: Seq<char>) -> bool {
    f.kind == kind && f.module@ == module
}

/// Whether the query `kind` of `module` is being computed.
pub open spec fn in_progress(frames: Seq<Frame>, kind: QueryKind, module: Seq<char>) -> bool {
    exists|i: int| 0 <= i < frames.len() && frame_of(#[trigger] frames[i], kind, module)
}

/// Whether `after` is `before` with `reads` added to what the top frame has
/// read. Without a frame nothing is noted.
pub open spec fn noted(before: Seq<Frame>, after: Seq<Frame>, reads: Reads) -> bool {
    &&& after.len() == before.len()
    &&& before.len() > 0 ==> {
        &&& after.drop_last() == before.drop_last()
        &&& after.last().kind == before.last().kind
        &&& after.last().module == before.last().module
        &&& reads_both(after.last().reads, before.last().reads, reads)
    }
}

/// Whether `after` is `before` with a frame for the query `kind` of `module` on
/// top, which has read `reads`.
pub open spec fn entered(
    before: Seq<Frame>,
    after: Seq<Frame>,
    kind: QueryKind,
    module: Seq<char>,
    reads: Reads,
) -> bool {
    &&& after.len() == before.len() + 1
    &&& after.drop_last() == before
    &&& frame_of(after.last(), kind, module)
    &&& same_reads(after.last().reads, reads)
}

/// Whether the top frame of `frames` is the frame of the query `kind` of `module`.
pub open spec fn on_top(frames: Seq<Frame>, kind: QueryKind, module: Seq<char>) -> bool {
    frames.len() > 0 && frame_of(frames.last(), kind, module)
}

/// Whether `kind` is a query about one module, whose result depends on the
/// text of that module.
pub open spec fn of_module(kind: QueryKind) -> bool {
    kind == QueryKind::ModuleText || kind == QueryKind::TypecheckedModule || kind
        == QueryKind::CompiledModule
}

/// Whether every query about one module that is being computed has read that
/// module.
pub open spec fn read_own(frames: Seq<Frame>) -> bool {
    forall|i: int|
        0 <= i < frames.len() && of_module((#[trigger] frames[i]).kind) ==> reads_module(
            frames[i].reads,
            frames[i].module@,
        )
}

/// What is noted in the top frame is added to what it has read: every query
/// that had read its module still has.
pub proof fn lemma_noted_read_own(before: Seq<Frame>, after: Seq<Frame>, reads: Reads)
    requires
        noted(before, after, reads),
        read_own(before),
    ensures
        read_own(after),
{
    assert forall|i: int| 0 <= i < after.len() && of_module((#[trigger] after[i]).kind) implies
        reads_module(after[i].reads, after[i].module@) by {
        if i < after.len() - 1 {
            assert(after[i] == after.drop_last()[i]);
            assert(before[i] == before.drop_last()[i]);
        } else {
            assert(of_module(before[i].kind));
            lemma_reads_module_both(after[i].reads, before[i].reads, reads, before[i].module@);
        }
    }
}

/// A frame that is entered with its own module read leaves every query with
/// its module read.
pub proof fn lemma_entered_read_own(
    before: Seq<Frame>,
    after: Seq<Frame>,
    kind: QueryKind,
    module: Seq<char>,
    reads: Reads,
)
    requires
        entered(before, after, kind, module, reads),
        read_own(before),
        of_module(kind) ==> reads_module(reads, module),
    ensures
        read_own(after),
{
    assert forall|i: int| 0 <= i < after.len() && of_module((#[trigger] after[i]).kind) implies
        reads_module(after[i].reads, after[i].module@) by {
        if i < after.len() - 1 {
            assert(after[i] == after.drop_last()[i]);
        } else {
            lemma_reads_module_same(after[i].reads, reads, module);
        }
    }
}

/// The modules whose import is in progress, from the outermost to the
/// innermost.
pub open spec fn importing(frames: Seq<Frame>) -> Seq<Seq<char>>
    decreases frames.len(),
{
    if frames.len() == 0 {
        Seq::empty()
    } else if frames.last().kind == QueryKind::Import {
        importing(frames.drop_last()).push(frames.last().module@)
    } else {
        importing(frames.drop_last())
    }
}

/// Whether the imports that are in progress are imports of different modules.
pub open spec fn imports_differ(frames: Seq<Frame>) -> bool {
    importing(frames).no_duplicates()
}

/// The modules of `importing` are those whose import is in progress.
pub proof fn lemma_importing_contains(frames: Seq<Frame>, module: Seq<char>)
    ensures
        importing(frames).contains(module) <==> in_progress(frames, QueryKind::Import, module),
    decreases frames.len(),
{
    if frames.len() > 0 {
        let rest = frames.drop_last();
        lemma_importing_contains(rest, module);
        let top = frames.last();
        if in_progress(frames, QueryKind::Import, module) {
            let i = choose|i: int|
                0 <= i < frames.len() && frame_of(#[trigger] frames[i], QueryKind::Import, module);
            if i < frames.len() - 1 {
                assert(frame_of(rest[i], QueryKind::Import, module));
                let s = importing(rest);
                let j = choose|j: int| 0 <= j < s.len() && s[j] == module;
                assert(importing(frames)[j] == module);
            } else {
                let s = importing(frames);
                assert(s[s.len() - 1] == module);
            }
        }
        if importing(frames).contains(module) {
            let s = importing(frames);
            let j = choose|j: int| 0 <= j < s.len() && s[j] == module;
            if top.kind == QueryKind::Import && j == s.len() - 1 {
                assert(frame_of(frames[frames.len() - 1], QueryKind::Import, module));
            } else {
                assert(importing(rest)[j] == module);
                let i = choose|i: int|
                    0 <= i < rest.len() && frame_of(#[trigger] rest[i], QueryKind::Import, module);
                assert(frame_of(frames[i], QueryKind::Import, module));
            }
        }
    }
}

/// What is noted in the top frame changes no import that is in progress.
pub proof fn lemma_noted_importing(before: Seq<Frame>, after: Seq<Frame>, reads: Reads)
    requires
        noted(before, after, reads),
    ensures
        importing(after) == importing(before),
{
}

/// An import that is entered while no import of its module is in progress
/// leaves the imports in progress different from each other; so does every
/// other query that is entered.
pub proof fn lemma_entered_imports_differ(
    before: Seq<Frame>,
    after: Seq<Frame>,
    kind: QueryKind,
    module: Seq<char>,
    reads: Reads,
)
    requires
        entered(before, after, kind, module, reads),
        imports_differ(before),
        kind == QueryKind::Import ==> !in_progress(before, QueryKind::Import, module),
    ensures
        imports_differ(after),
{
    if kind == QueryKind::Import {
        lemma_importing_contains(before, module);
        let s = importing(before);
        assert(importing(after) == s.push(module));
        assert forall|i: int, j: int| 0 <= i < s.len() + 1 && 0 <= j < s.len() + 1 && i != j implies
            s.push(module)[i] != s.push(module)[j] by {
            if i < s.len() && j < s.len() {
            } else if i < s.len() {
                assert(s.contains(s[i]));
            } else {
                assert(s.contains(s[j]));
            }
        }
    }
}

/// Without the top frame the imports in progress still differ.
pub proof fn lemma_left_imports_differ(frames: Seq<Frame>)
    requires
        frames.len() > 0,
        imports_differ(frames),
    ensures
        imports_differ(frames.drop_last()),
{
    let s = importing(frames.drop_last());
    assert forall|i: int, j: int| 0 <= i < s.len() && 0 <= j < s.len() && i != j implies s[i]
        != s[j] by {
        assert(importing(frames)[i] == s[i]);
        assert(importing(frames)[j] == s[j]);
    }
}

/// Adds `reads` to what the top frame has read.
pub fn note(frames: &mut Vec<Frame>, reads: &Reads)
    ensures
        noted(old(frames)@, final(frames)@, *reads),
        read_own(old(frames)@) ==> read_own(final(frames)@),
        importing(final(frames)@) == importing(old(frames)@),
{
    let n = frames.len();
    if n > 0 {
        let top = &mut frames[n - 1];
        top.reads.merge(reads);
        proof {
            assert(frames@.drop_last() =~= old(frames)@.drop_last());
        }
    }
    proof {
        if read_own(old(frames)@) {
            lemma_noted_read_own(old(frames)@, frames@, *reads);
        }
        lemma_noted_importing(old(frames)@, frames@, *reads);
    }
}

/// Puts a frame for the query `kind` of `module` on top.
pub fn enter(frames: &mut Vec<Frame>, kind: QueryKind, module: &str, reads: Reads)
    ensures
        entered(old(frames)@, final(frames)@, kind, module@, reads),
        read_own(old(frames)@) && (of_module(kind) ==> reads_module(reads, module@)) ==> read_own(
            final(frames)@,
        ),
        imports_differ(old(frames)@) && (kind == QueryKind::Import ==> !in_progress(
            old(frames)@,
            QueryKind::Import,
            module@,
        )) ==> imports_differ(final(frames)@),
{
    frames.push(Frame { kind, module: module.to_owned(), reads });
    proof {
        assert(frames@.drop_last() =~= old(frames)@);
        if imports_differ(old(frames)@) && (kind == QueryKind::Import ==> !in_progress(
            old(frames)@,
            QueryKind::Import,
            module@,
        )) {
            lemma_entered_imports_differ(old(frames)@, frames@, kind, module@, reads);
        }
        if read_own(old(frames)@) && (of_module(kind) ==> reads_module(reads, module@)) {
            lemma_entered_read_own(old(frames)@, frames@, kind, module@, reads);
        }
    }
}

/// Takes the top frame off if it is the frame of the query `kind` of `module`,
/// and returns what has been read for it.
pub fn leave(frames: &mut Vec<Frame>, kind: QueryKind, module: &str) -> (r: Option<Reads>)
    ensures
        match r {
            Some(reads) => {
                &&& on_top(old(frames)@, kind, module@)
                &&& final(frames)@ == old(frames)@.drop_last()
                &&& reads == old(frames)@.last().reads
            },
            None => !on_top(old(frames)@, kind, module@) && final(frames)@ == old(frames)@,
        },
        read_own(old(frames)@) ==> read_own(final(frames)@),
        imports_differ(old(frames)@) ==> imports_differ(final(frames)@),
{
    let n = frames.len();
    if n == 0 {
        return None;
    }
    proof {
        if imports_differ(frames@) {
            lemma_left_imports_differ(frames@);
        }
    }
    let matches = frames[n - 1].kind == kind && str_eq(frames[n - 1].module.as_str(), module);
    if !matches {
        return None;
    }
    match frames.pop() {
        Some(frame) => Some(frame.reads),
        None => None,
    }
}

/// Whether the query `kind` of `module` is being computed.
pub fn is_in_progress(frames: &Vec<Frame>, kind: QueryKind, module: &str) -> (r: bool)
    ensures
        r == in_progress(frames@, kind, module@),
{
    let mut i: usize = 0;
    while i < frames.len()
        invariant
            i <= frames.len(),
            forall|j: int| 0 <= j < i ==> !frame_of(#[trigger] frames@[j], kind, module@),
        decreases frames.len() - i,
    {
        if frames[i].kind == kind && str_eq(frames[i].module.as_str(), module) {
            return true;
        }
        i += 1;
    }
    false
}

/// The valid result of `module` in `cache`, noted in the top frame as read.
pub fn hit<V>(cache: &Cache<V>, frames: &mut Vec<Frame>, states: &Table<usize>, module: &str) -> (r:
    Option<Result<Arc<V>, Error>>)
    requires
        cache.wf(),
        states.wf(),
    ensures
        r == cache.valid(module@, *states),
        match r {
            Some(_) => noted(old(frames)@, final(frames)@, cache.memo(module@).reads),
            None => final(frames)@ == old(frames)@,
        },
        read_own(old(frames)@) ==> read_own(final(frames)@),
        importing(final(frames)@) == importing(old(frames)@),
{
    match cache.lookup(module, states) {
        Some((value, reads)) => {
            note(frames, &reads);
            Some(value)
        },
        None => None,
    }
}

/// Ends the computation of the query `kind` of `module` with `value`. If the
/// frame of the query is on top, it is taken off, the value is stored with
/// what the frame has read, and the frame below is noted to have read the
/// same. Otherwise nothing is stored.
pub fn finish<V>(
    cache: &mut Cache<V>,
    frames: &mut Vec<Frame>,
    kind: QueryKind,
    module: &str,
    value: Result<Arc<V>, Error>,
) -> (r: Result<Arc<V>, Error>)
    requires
        old(cache).wf(),
    ensures
        r == value,
        final(cache).wf(),
        stored(*old(cache), *final(cache), old(frames)@, final(frames)@, kind, module@, value),
        read_own(old(frames)@) ==> read_own(final(frames)@),
        read_own(old(frames)@) && of_module(kind) && old(cache).reads_own()
            ==> final(cache).reads_own(),
        imports_differ(old(frames)@) ==> imports_differ(final(frames)@),
{
    match leave(frames, kind, module) {
        Some(reads) => {
            proof {
                if read_own(old(frames)@) && of_module(kind) {
                    assert(of_module(old(frames)@[old(frames)@.len() - 1].kind));
                    assert(reads_module(reads, module@));
                }
            }
            note(frames, &reads);
            let copy = clone_result(&value);
            cache.store(module.to_owned(), copy, reads);
            value
        },
        None => value,
    }
}

/// What `finish` does to a cache and to the frames.
pub open spec fn stored<V>(
    before: Cache<V>,
    after: Cache<V>,
    frames_before: Seq<Frame>,
    frames_after: Seq<Frame>,
    kind: QueryKind,
    module: Seq<char>,
    value: Result<Arc<V>, Error>,
) -> bool {
    if on_top(frames_before, kind, module) {
        &&& after.has(module)
        &&& after.memo(module) == (Memo { value: Some(value), reads: frames_before.last().reads })
        &&& forall|m: Seq<char>| m != module ==> after.has(m) == before.has(m)
        &&& forall|m: Seq<char>| m != module && before.has(m) ==> after.memo(m) == before.memo(m)
        &&& noted(frames_before.drop_last(), frames_after, frames_before.last().reads)
    } else {
        after == before && frames_after == frames_before
    }
}

/// The answer of the query for the text of a module.
pub enum TextStep {
    /// The text, or why it cannot be had.
    Ready(Result<Arc<String>, Error>),
    /// The text has to be loaded from `file`.
    Load { file: String },
}

/// The answer of the query for a typechecked module.
pub enum TypecheckStep {
    Ready(Result<Arc<TypecheckValue>, Error>),
    /// The text of the module has to be asked for first.
    NeedText,
    /// `text` has to be parsed, expanded and typechecked.
    Typecheck { text: Arc<String> },
}

/// The answer of the query for a compiled module.
pub enum CompileStep {
    Ready(Result<Arc<CompileValue>, Error>),
    /// The text of the module has to be asked for first.
    NeedText,
    /// The typechecked module has to be asked for first.
    NeedTypecheck,
    /// `value` has to be compiled.
    Compile { text: Arc<String>, value: Arc<TypecheckValue> },
}

/// The answer of the query for an import.
pub enum ImportStep {
    Ready(Result<Expr, Error>),
    /// The module `name` has to be loaded.
    Load { name: String },
}

/// The answer of the query for the globals.
pub enum GlobalsStep {
    /// The globals of the database are those of the modules as they are.
    Ready,
    /// Each of `modules` has to be compiled and executed.
    Execute { modules: Vec<String> },
}

/// The inputs, the caches of the queries, the queries in progress and the
/// globals.
pub struct CompilerDatabase {
    state: State,
    texts: Cache<String>,
    typechecked: Cache<TypecheckValue>,
    expected: Cache<TypecheckValue>,
    expected_types: Table<Type>,
    compiled: Cache<CompileValue>,
    imports: Cache<String>,
    inputs: Table<usize>,
    frames: Vec<Frame>,
    globals: Table<Global>,
    globals_reads: Option<Reads>,
    type_infos: Table<Type>,
}

/// Whether `after` is `before` with one more text registered for `module`: a
/// module that was known has its revision raised by one, a new one starts at
/// revision `0`, and every other module is as it was.
pub open spec fn registered(before: Table<usize>, after: Table<usize>, module: Seq<char>) -> bool {
    &&& after.contains(module)
    &&& revision_of(after, module) == if before.contains(module) {
        revision_of(before, module) + 1
    } else {
        0
    }
    &&& forall|m: Seq<char>| m != module ==> revision_of(after, m) == revision_of(before, m)
    &&& forall|m: Seq<char>| m != module ==> after.contains(m) == before.contains(m)
    &&& after.spec_len() == if before.contains(module) {
        before.spec_len()
    } else {
        before.spec_len() + 1
    }
}

/// Whether no module of `before` is missing in `after` and no revision has gone
/// back.
pub open spec fn grown(before: Table<usize>, after: Table<usize>) -> bool {
    &&& forall|m: Seq<char>| before.contains(m) ==> after.contains(m)
    &&& forall|m: Seq<char>| revision_of(after, m) >= revision_of(before, m)
}

/// The type behind the reference, if there is one.
pub open spec fn given_type(expected: Option<&Type>) -> Option<Type> {
    match expected {
        Some(t) => Some(*t),
        None => None,
    }
}

/// Whether `after` holds the expected types of `before`, and for `module` a
/// type that is the same as `expected` if one is given.
pub open spec fn kept_for(
    before: Table<Type>,
    after: Table<Type>,
    module: Seq<char>,
    expected: Option<Type>,
) -> bool {
    match expected {
        None => after == before,
        Some(t) => {
            &&& after.contains(module)
            &&& type_eq(t, after.value_of(module))
            &&& forall|m: Seq<char>| m != module ==> after.contains(m) == before.contains(m)
            &&& forall|m: Seq<char>|
                m != module && before.contains(m) ==> after.value_of(m) == before.value_of(m)
        },
    }
}

/// Whether `after` is `before`, or `before` with a file behind it that holds
/// `text`.
pub open spec fn entered_text(
    before: Seq<(int, int, Seq<char>)>,
    after: Seq<(int, int, Seq<char>)>,
    text: Seq<char>,
) -> bool {
    ||| after == before
    ||| {
        &&& after.len() == before.len() + 1
        &&& after.drop_last() == before
        &&& after.last().2 == text
    }
}

/// The result of an import whose stored result is `value`: the identifier of
/// the module, or the error.
pub open spec fn import_result(value: Result<Arc<String>, Error>) -> Result<Expr, Error> {
    match value {
        Ok(name) => Ok(Expr::Ident(*name)),
        Err(e) => Err(e),
    }
}

/// Whether `e` is the error of a cyclic import of the module `name`.
pub open spec fn is_cyclic_import(e: Error, name: Seq<char>) -> bool {
    e.kind == ErrorKind::CyclicImport && e.text@ == name
}

/// Whether the frame on top of `frames` has read exactly the revision
/// `revision` of `module`.
pub open spec fn top_has_read_module(
    frames: Seq<Frame>,
    module: Seq<char>,
    revision: usize,
) -> bool {
    &&& frames.len() > 0
    &&& frames.last().reads.names@.len() == 0
    &&& frames.last().reads.stamps@.len() == 1
    &&& frames.last().reads.stamps@[0].module@ == module
    &&& frames.last().reads.stamps@[0].revision == revision
}

impl CompilerDatabase {
    /// The revisions of the modules that the queries read: the input of the
    /// database, which only `set_module_state` changes.
    pub closed spec fn states(&self) -> Table<usize> {
        self.inputs
    }

    /// The revision of each module whose text was registered: it starts at `0`
    /// and is raised by one each time a text is registered for the module.
    pub closed spec fn state_revisions(&self) -> Table<usize> {
        self.state.module_states
    }

    /// The diagnostics that have been reported.
    pub closed spec fn errors(&self) -> Seq<Error> {
        self.state.errors@
    }

    /// The files of the code map.
    pub closed spec fn files(&self) -> Seq<(int, int, Seq<char>)> {
        self.state.files()
    }

    /// Where the text of each file starts in the code map.
    pub closed spec fn index_map(&self) -> Table<u32> {
        self.state.index_map
    }

    /// The cache of the texts.
    pub closed spec fn texts(&self) -> Cache<String> {
        self.texts
    }

    /// The cache of the typechecked modules.
    pub closed spec fn typechecked(&self) -> Cache<TypecheckValue> {
        self.typechecked
    }

    /// The cache of the modules that were typechecked against an expected
    /// type: one result for each module.
    pub closed spec fn expected_checked(&self) -> Cache<TypecheckValue> {
        self.expected
    }

    /// The expected type of each result of `expected_checked`.
    pub closed spec fn expected_types(&self) -> Table<Type> {
        self.expected_types
    }

    /// The cache that holds the results of typechecking against `expected`.
    pub open spec fn checked(&self, expected: Option<Type>) -> Cache<TypecheckValue> {
        if expected is None {
            self.typechecked()
        } else {
            self.expected_checked()
        }
    }

    /// The valid result of typechecking `module` against `expected`, if there is
    /// one. A result for an expected type is a result for every type that is
    /// the same.
    pub open spec fn valid_checked(&self, module: Seq<char>, expected: Option<Type>) -> Option<
        Result<Arc<TypecheckValue>, Error>,
    > {
        match expected {
            None => self.typechecked().valid(module, self.states()),
            Some(t) => if self.expected_types().contains(module) && type_eq(
                self.expected_types().value_of(module),
                t,
            ) {
                self.expected_checked().valid(module, self.states())
            } else {
                None
            },
        }
    }

    /// The cache of the compiled modules.
    pub closed spec fn compiled(&self) -> Cache<CompileValue> {
        self.compiled
    }

    /// The cache of the imports, by the loadable form of the name.
    pub closed spec fn imports(&self) -> Cache<String> {
        self.imports
    }

    /// The queries in progress, the innermost last.
    pub closed spec fn frames(&self) -> Seq<Frame> {
        self.frames@
    }

    /// The globals, by module.
    pub closed spec fn globals_table(&self) -> Table<Global> {
        self.globals
    }

    /// What the computation of the globals has read, if they have been computed.
    pub closed spec fn globals_reads(&self) -> Option<Reads> {
        self.globals_reads
    }

    /// The types that are known by a name without a module.
    pub closed spec fn type_infos(&self) -> Table<Type> {
        self.type_infos
    }

    /// Every table of the database has each key once. Every result about one
    /// module has read that module, and so has every query about one module
    /// that is being computed. The imports that are in progress are imports of
    /// different modules.
    pub closed spec fn wf(&self) -> bool {
        &&& imports_differ(self.frames@)
        &&& self.texts.reads_own()
        &&& self.typechecked.reads_own()
        &&& self.expected.reads_own()
        &&& self.compiled.reads_own()
        &&& read_own(self.frames@)
        &&& self.state.wf()
        &&& self.inputs.wf()
        &&& self.texts.wf()
        &&& self.typechecked.wf()
        &&& self.expected.wf()
        &&& self.expected_types.wf()
        &&& self.compiled.wf()
        &&& self.imports.wf()
        &&& self.globals.wf()
        &&& self.type_infos.wf()
    }

    /// Whether no result about `module` that is valid under the revisions of
    /// `self` is valid under `states`: not the text of the module, nor the
    /// module typechecked, with or without an expected type, nor the module
    /// compiled. The queries for them then compute their results anew.
    pub open spec fn outdated(&self, module: Seq<char>, states: Table<usize>) -> bool {
        &&& self.texts().valid(module, self.states()) is Some ==> self.texts().valid(module, states)
            is None
        &&& self.typechecked().valid(module, self.states()) is Some ==> self.typechecked().valid(
            module,
            states,
        ) is None
        &&& self.expected_checked().valid(module, self.states()) is Some
            ==> self.expected_checked().valid(module, states) is None
        &&& self.compiled().valid(module, self.states()) is Some ==> self.compiled().valid(
            module,
            states,
        ) is None
    }

    /// Invalidation: every result about a module has read that module, so that
    /// none of them is valid any more once the module has another revision.
    pub proof fn lemma_change_outdates(&self, module: Seq<char>, states: Table<usize>)
        requires
            self.wf(),
            revision_of(states, module) != revision_of(self.states(), module),
        ensures
            self.outdated(module, states),
    {
        if self.texts().valid(module, self.states()) is Some {
            lemma_invalid_after_change(self.texts(), module, module, self.states(), states);
        }
        if self.typechecked().valid(module, self.states()) is Some {
            lemma_invalid_after_change(self.typechecked(), module, module, self.states(), states);
        }
        if self.expected_checked().valid(module, self.states()) is Some {
            lemma_invalid_after_change(
                self.expected_checked(),
                module,
                module,
                self.states(),
                states,
            );
        }
        if self.compiled().valid(module, self.states()) is Some {
            lemma_invalid_after_change(self.compiled(), module, module, self.states(), states);
        }
    }

    /// Cycle detection bounds the nesting of imports: the imports that are in
    /// progress are imports of different modules, so that there are never more
    /// of them than there are modules to import. An import below them either
    /// is of another module or fails as cyclic.
    pub proof fn lemma_import_depth(&self, modules: Set<Seq<char>>)
        requires
            self.wf(),
            modules.finite(),
            forall|m: Seq<char>|
                in_progress(self.frames(), QueryKind::Import, m) ==> modules.contains(m),
        ensures
            importing(self.frames()).no_duplicates(),
            importing(self.frames()).len() <= modules.len(),
    {
        let s = importing(self.frames());
        s.unique_seq_to_set();
        assert forall|m: Seq<char>| s.to_set().contains(m) implies modules.contains(m) by {
            lemma_importing_contains(self.frames(), m);
        }
        vstd::set_lib::lemma_len_subset(s.to_set(), modules);
    }

    /// Whether the globals are those of the modules as they are now.
    pub open spec fn globals_valid(&self) -> bool {
        self.globals_reads() matches Some(reads) && current(reads, self.states())
    }

    /// Whether the inputs, the caches and the globals of `self` and `other` are
    /// the same.
    pub open spec fn same_but_frames(&self, other: &Self) -> bool {
        &&& self.states() == other.states()
        &&& self.state_revisions() == other.state_revisions()
        &&& self.errors() == other.errors()
        &&& self.files() == other.files()
        &&& self.index_map() == other.index_map()
        &&& self.texts() == other.texts()
        &&& self.typechecked() == other.typechecked()
        &&& self.expected_checked() == other.expected_checked()
        &&& self.expected_types() == other.expected_types()
        &&& self.compiled() == other.compiled()
        &&& self.imports() == other.imports()
        &&& self.globals_table() == other.globals_table()
        &&& self.globals_reads() == other.globals_reads()
        &&& self.type_infos() == other.type_infos()
    }

    /// A database without modules, results or globals.
    pub fn new_base() -> (db: CompilerDatabase)
        ensures
            db.wf(),
            db.states().spec_len() == 0,
            db.state_revisions().spec_len() == 0,
            db.frames().len() == 0,
            db.errors().len() == 0,
            db.files().len() == 0,
            db.index_map().spec_len() == 0,
            db.globals_reads() is None,
            db.globals_table().spec_len() == 0,
            forall|m: Seq<char>|
                !db.texts().has(m) && !db.typechecked().has(m) && !db.compiled().has(m)
                    && !db.expected_checked().has(m) && !db.imports().has(m),
            db.expected_types().spec_len() == 0,
            db.type_infos().spec_len() == 0,
    {
        CompilerDatabase {
            state: State::new(),
            texts: Cache::new(),
            typechecked: Cache::new(),
            expected: Cache::new(),
            expected_types: Table::new(),
            compiled: Cache::new(),
            imports: Cache::new(),
            inputs: Table::new(),
            frames: Vec::new(),
            globals: Table::new(),
            globals_reads: None,
            type_infos: Table::new(),
        }
    }

    /// Registers the text `contents` of `module`: the text is entered in the
    /// code map under the name of the module, and the revision that the state
    /// keeps for the module is raised by one, or starts at `0` for a module
    /// without a text so far. The revisions that the queries read stay as they
    /// are.
    pub fn new_module(&mut self, module: String, contents: &str)
        requires
            old(self).wf(),
            revision_of(old(self).state_revisions(), module@) < usize::MAX,
        ensures
            final(self).wf(),
            registered(old(self).state_revisions(), final(self).state_revisions(), module@),
            final(self).states() == old(self).states(),
            final(self).index_map().contains(module@),
            holds_text(
                final(self).files(),
                final(self).index_map().value_of(module@) as int,
                contents@,
            ),
            entered_text(old(self).files(), final(self).files(), contents@),
            final(self).files() == old(self).files()
                ==> final(self).index_map() == old(self).index_map(),
            final(self).frames() == old(self).frames(),
            final(self).errors() == old(self).errors(),
            final(self).texts() == old(self).texts(),
            final(self).typechecked() == old(self).typechecked(),
            final(self).expected_checked() == old(self).expected_checked(),
            final(self).expected_types() == old(self).expected_types(),
            final(self).compiled() == old(self).compiled(),
            final(self).imports() == old(self).imports(),
            final(self).globals_table() == old(self).globals_table(),
            final(self).globals_reads() == old(self).globals_reads(),
            final(self).type_infos() == old(self).type_infos(),
    {
        let entered = self.state.add_filemap(module.as_str(), contents.to_owned());
        proof {
            let files = old(self).files();
            if self.files() != files {
                assert(files.push(record_of(entered)).drop_last() =~= files);
            }
        }
        let known = match self.state.module_states.get(module.as_str()) {
            Some(revision) => Some(*revision),
            None => None,
        };
        match known {
            Some(revision) => {
                self.state.module_states.insert(module, revision + 1);
            },
            None => {
                self.state.module_states.insert(module, 0);
            },
        }
    }

    /// Gives `module` the revision `revision`, unless the module has a higher
    /// one: revisions do not go back, and in that case `false` is returned and
    /// nothing changes. Otherwise the module is known with this revision from
    /// now on. Every other module keeps its revision, and no result is
    /// touched: a result that has read `module` at another revision is no
    /// longer valid, and every result that has not read `module` is as valid
    /// as it was if the module was known.
    pub fn set_module_state(&mut self, module: String, revision: usize) -> (applied: bool)
        requires
            old(self).wf(),
        ensures
            final(self).wf(),
            applied == (revision >= revision_of(old(self).states(), module@)),
            grown(old(self).states(), final(self).states()),
            final(self).state_revisions() == old(self).state_revisions(),
            if applied {
                &&& final(self).states().contains(module@)
                &&& revision_of(final(self).states(), module@) == revision
                &&& forall|m: Seq<char>|
                    m != module@ ==> revision_of(final(self).states(), m) == revision_of(
                        old(self).states(),
                        m,
                    )
                &&& forall|m: Seq<char>|
                    m != module@ ==> final(self).states().contains(m) == old(
                        self).states().contains(m)
                &&& final(self).states().spec_len() == if old(self).states().contains(module@) {
                    old(self).states().spec_len()
                } else {
                    old(self).states().spec_len() + 1
                }
            } else {
                final(self).states() == old(self).states()
            },
            revision > revision_of(old(self).states(), module@) ==> old(self).outdated(
                module@,
                final(self).states(),
            ),
            final(self).frames() == old(self).frames(),
            final(self).errors() == old(self).errors(),
            final(self).files() == old(self).files(),
            final(self).index_map() == old(self).index_map(),
            final(self).texts() == old(self).texts(),
            final(self).typechecked() == old(self).typechecked(),
            final(self).expected_checked() == old(self).expected_checked(),
            final(self).expected_types() == old(self).expected_types(),
            final(self).compiled() == old(self).compiled(),
            final(self).imports() == old(self).imports(),
            final(self).globals_table() == old(self).globals_table(),
            final(self).globals_reads() == old(self).globals_reads(),
            final(self).type_infos() == old(self).type_infos(),
    {
        if revision < revision_now(&self.inputs, module.as_str()) {
            return false;
        }
        self.inputs.insert(module, revision);
        proof {
            if revision > revision_of(old(self).states(), module@) {
                old(self).lemma_change_outdates(module@, self.states());
            }
        }
        true
    }

    /// Adds `errors` to the diagnostics of the database.
    pub fn report_errors(&mut self, errors: Vec<Error>)
        requires
            old(self).wf(),
        ensures
            final(self).wf(),
            final(self).errors() == old(self).errors() + errors@,
            final(self).files() == old(self).files(),
            final(self).index_map() == old(self).index_map(),
            final(self).states() == old(self).states(),
            final(self).state_revisions() == old(self).state_revisions(),
            final(self).frames() == old(self).frames(),
            final(self).texts() == old(self).texts(),
            final(self).typechecked() == old(self).typechecked(),
            final(self).expected_checked() == old(self).expected_checked(),
            final(self).expected_types() == old(self).expected_types(),
            final(self).compiled() == old(self).compiled(),
            final(self).imports() == old(self).imports(),
            final(self).globals_table() == old(self).globals_table(),
            final(self).globals_reads() == old(self).globals_reads(),
            final(self).type_infos() == old(self).type_infos(),
    {
        let mut errors = errors;
        self.state.errors.append(&mut errors);
    }

    /// Takes note of what the expansion of the macros of a module has come to,
    /// before the module is typechecked. Errors of the expansion fail the
    /// typecheck of the module: all of them are added to the diagnostics of the
    /// database, in order, and the first of them is returned. Without errors
    /// nothing changes.
    #[verifier::spinoff_prover]
    pub fn report_expansion(&mut self, expansion: Result<(), Errors>) -> (r: Result<(), Error>)
        requires
            old(self).wf(),
        ensures
            final(self).wf(),
            match expansion {
                Err(errors) if errors@.len() > 0 => {
                    &&& r == Err::<(), Error>(errors@[0].value)
                    &&& final(self).errors() == old(self).errors() + errors@.map_values(
                        |e: SpannedError| e.value,
                    )
                },
                _ => r is Ok && final(self).errors() == old(self).errors(),
            },
            final(self).files() == old(self).files(),
            final(self).index_map() == old(self).index_map(),
            final(self).states() == old(self).states(),
            final(self).state_revisions() == old(self).state_revisions(),
            final(self).frames() == old(self).frames(),
            final(self).texts() == old(self).texts(),
            final(self).typechecked() == old(self).typechecked(),
            final(self).expected_checked() == old(self).expected_checked(),
            final(self).expected_types() == old(self).expected_types(),
            final(self).compiled() == old(self).compiled(),
            final(self).imports() == old(self).imports(),
            final(self).globals_table() == old(self).globals_table(),
            final(self).globals_reads() == old(self).globals_reads(),
            final(self).type_infos() == old(self).type_infos(),
    {
        match expansion {
            Ok(_) => Ok(()),
            Err(errors) => {
                if errors.len() == 0 {
                    return Ok(());
                }
                let first = errors[0].value.clone();
                let ghost all = errors@;
                let ghost before = self.state.errors@;
                let mut rest = last_first(errors);
                let n = rest.len();
                let mut i: usize = 0;
                proof {
                    assert(before + all.take(0).map_values(|e: SpannedError| e.value) =~= before);
                }
                while i < n
                    invariant
                        n == all.len(),
                        i <= n,
                        rest.len() == n - i,
                        forall|j: int| 0 <= j < rest.len() ==> rest@[j] == all[all.len() - 1 - j],
                        self.state.errors@ == before + all.take(i as int).map_values(
                            |e: SpannedError| e.value,
                        ),
                        self.wf(),
                        self.state.code_map == old(self).state.code_map,
                        self.state.index_map == old(self).state.index_map,
                        self.inputs == old(self).inputs,
                        self.state.module_states == old(self).state.module_states,
                        self.frames == old(self).frames,
                        self.texts == old(self).texts,
                        self.typechecked == old(self).typechecked,
                        self.expected == old(self).expected,
                        self.expected_types == old(self).expected_types,
                        self.compiled == old(self).compiled,
                        self.imports == old(self).imports,
                        self.globals == old(self).globals,
                        self.globals_reads == old(self).globals_reads,
                        self.type_infos == old(self).type_infos,
                    decreases n - i,
                {
                    match rest.pop() {
                        Some(error) => {
                            self.state.errors.push(error.value);
                        },
                        None => {},
                    }
                    proof {
                        assert(before + all.take(i as int + 1).map_values(
                            |e: SpannedError| e.value,
                        ) =~= (before + all.take(i as int).map_values(
                            |e: SpannedError| e.value,
                        )).push(all[i as int].value));
                    }
                    i += 1;
                }
                proof {
                    assert(all.take(n as int) =~= all);
                }
                Err(first)
            },
        }
    }

    /// The revision that the state keeps for `module`: how often a text has been
    /// registered for it after the first, and `0` for a module without a text.
    pub fn state_revision(&self, module: &str) -> (r: usize)
        requires
            self.wf(),
        ensures
            r == revision_of(self.state_revisions(), module@),
    {
        revision_now(&self.state.module_states, module)
    }

    /// The revision of `module`: `0` for a module that is not known. The query
    /// in progress, if there is one, is noted to have read it.
    pub fn module_state(&mut self, module: &str) -> (r: usize)
        requires
            old(self).wf(),
        ensures
            final(self).wf(),
            r == revision_of(old(self).states(), module@),
            final(self).same_but_frames(old(self)),
            final(self).frames().len() == old(self).frames().len(),
            old(self).frames().len() > 0 ==> {
                &&& final(self).frames().drop_last() == old(self).frames().drop_last()
                &&& final(self).frames().last().reads.stamps@.drop_last() == old(
                    self).frames().last().reads.stamps@
                &&& final(self).frames().last().reads.stamps@.last().module@ == module@
                &&& final(self).frames().last().reads.stamps@.last().revision == r
            },
    {
        let r = revision_now(&self.inputs, module);
        let n = self.frames.len();
        if n > 0 {
            let top = &mut self.frames[n - 1];
            top.reads.read_module(&self.inputs, module);
            proof {
                assert(self.frames@.drop_last() =~= old(self).frames@.drop_last());
            }
        }
        r
    }

    /// The text of `module`. A valid result answers at once, and the caller is
    /// asked for nothing; otherwise the text has to be loaded from the file of
    /// the module, and the query is in progress until `module_text_loaded`.
    pub fn module_text(&mut self, module: &str) -> (r: TextStep)
        requires
            old(self).wf(),
        ensures
            final(self).wf(),
            final(self).same_but_frames(old(self)),
            match old(self).texts().valid(module@, old(self).states()) {
                Some(value) => {
                    &&& r == TextStep::Ready(value)
                    &&& noted(
                        old(self).frames(),
                        final(self).frames(),
                        old(self).texts().memo(module@).reads,
                    )
                },
                None => {
                    &&& r matches TextStep::Load { file }
                    &&& file@ == file_name_of(module@)
                    &&& final(self).frames().drop_last() == old(self).frames()
                    &&& on_top(final(self).frames(), QueryKind::ModuleText, module@)
                    &&& top_has_read_module(
                        final(self).frames(),
                        module@,
                        revision_of(old(self).states(), module@),
                    )
                },
            },
    {
        match hit(&self.texts, &mut self.frames, &self.inputs, module) {
            Some(value) => TextStep::Ready(value),
            None => {
                let mut reads = Reads::new();
                reads.read_module(&self.inputs, module);
                enter(&mut self.frames, QueryKind::ModuleText, module, reads);
                TextStep::Load { file: file_name(module) }
            },
        }
    }

    /// Ends the computation of the text of `module` with what the loader has
    /// returned. A text is registered for the module, which raises the revision
    /// that the state keeps for it. A failure of the loader becomes a load error
    /// with its message.
    pub fn module_text_loaded(&mut self, module: &str, source: Result<String, String>) -> (r:
        Result<Arc<String>, Error>)
        requires
            old(self).wf(),
            source is Ok ==> revision_of(old(self).state_revisions(), module@) < usize::MAX,
        ensures
            final(self).wf(),
            final(self).states() == old(self).states(),
            match source {
                Ok(text) => r matches Ok(t) && *t == text && registered(
                    old(self).state_revisions(),
                    final(self).state_revisions(),
                    module@,
                ),
                Err(message) => r matches Err(e) && e.kind == ErrorKind::Load && e.text@
                    == message@ && final(self).state_revisions() == old(self).state_revisions(),
            },
            stored(
                old(self).texts(),
                final(self).texts(),
                old(self).frames(),
                final(self).frames(),
                QueryKind::ModuleText,
                module@,
                r,
            ),
            final(self).errors() == old(self).errors(),
            match source {
                Ok(text) => {
                    &&& final(self).index_map().contains(module@)
                    &&& holds_text(
                        final(self).files(),
                        final(self).index_map().value_of(module@) as int,
                        text@,
                    )
                    &&& entered_text(old(self).files(), final(self).files(), text@)
                },
                Err(_) => final(self).files() == old(self).files() && final(self).index_map()
                    == old(self).index_map(),
            },
            final(self).typechecked() == old(self).typechecked(),
            final(self).expected_checked() == old(self).expected_checked(),
            final(self).expected_types() == old(self).expected_types(),
            final(self).compiled() == old(self).compiled(),
            final(self).imports() == old(self).imports(),
            final(self).globals_table() == old(self).globals_table(),
            final(self).globals_reads() == old(self).globals_reads(),
            final(self).type_infos() == old(self).type_infos(),
    {
        let value = match source {
            Ok(text) => {
                self.new_module(module.to_owned(), text.as_str());
                Ok(Arc::new(text))
            },
            Err(message) => Err(Error::new(LoadError(message))),
        };
        finish(&mut self.texts, &mut self.frames, QueryKind::ModuleText, module, value)
    }

    /// The module `module`, typechecked against `expected_type` if one is given.
    /// A valid result answers at once; for an expected type, the database keeps
    /// the result for the type that was asked for last. Else the text of the
    /// module decides: without a valid text the caller has to ask for the text
    /// first; a text that could not be had is the result, and is stored as
    /// such; a text has to be typechecked, and the query is in progress until
    /// `typechecked_module_done`.
    #[verifier::spinoff_prover]
    pub fn typechecked_module(&mut self, module: &str, expected_type: Option<&Type>) -> (r:
        TypecheckStep)
        requires
            old(self).wf(),
        ensures
            final(self).wf(),
            final(self).states() == old(self).states(),
            final(self).state_revisions() == old(self).state_revisions(),
            final(self).errors() == old(self).errors(),
            final(self).files() == old(self).files(),
            final(self).index_map() == old(self).index_map(),
            final(self).texts() == old(self).texts(),
            final(self).compiled() == old(self).compiled(),
            final(self).imports() == old(self).imports(),
            final(self).globals_table() == old(self).globals_table(),
            final(self).globals_reads() == old(self).globals_reads(),
            final(self).type_infos() == old(self).type_infos(),
            expected_type is None ==> final(self).expected_checked() == old(self).expected_checked(),
            expected_type is Some ==> final(self).typechecked() == old(self).typechecked(),
            ({
                let expected = given_type(expected_type);
                let cache = old(self).checked(expected);
                let text = old(self).texts();
                match old(self).valid_checked(module@, expected) {
                    Some(value) => {
                        &&& r == TypecheckStep::Ready(value)
                        &&& final(self).checked(expected) == cache
                        &&& final(self).expected_types() == old(self).expected_types()
                        &&& noted(old(self).frames(), final(self).frames(), cache.memo(module@).reads)
                    },
                    None => match text.valid(module@, old(self).states()) {
                        None => {
                            &&& r == TypecheckStep::NeedText
                            &&& final(self).checked(expected) == cache
                            &&& final(self).expected_types() == old(self).expected_types()
                            &&& final(self).frames() == old(self).frames()
                        },
                        Some(Err(e)) => {
                            &&& r == TypecheckStep::Ready(Err(e))
                            &&& final(self).checked(expected).has(module@)
                            &&& final(self).checked(expected).memo(module@).value == Some(
                                Err::<Arc<TypecheckValue>, Error>(e),
                            )
                            &&& same_reads(
                                final(self).checked(expected).memo(module@).reads,
                                text.memo(module@).reads,
                            )
                            &&& kept_for(
                                old(self).expected_types(),
                                final(self).expected_types(),
                                module@,
                                expected,
                            )
                            &&& noted(
                                old(self).frames(),
                                final(self).frames(),
                                text.memo(module@).reads,
                            )
                        },
                        Some(Ok(source)) => {
                            &&& r == (TypecheckStep::Typecheck { text: source })
                            &&& final(self).checked(expected) == cache
                            &&& final(self).expected_types() == old(self).expected_types()
                            &&& entered(
                                old(self).frames(),
                                final(self).frames(),
                                QueryKind::TypecheckedModule,
                                module@,
                                text.memo(module@).reads,
                            )
                        },
                    },
                }
            }),
    {
        match expected_type {
            None => {
                match hit(&self.typechecked, &mut self.frames, &self.inputs, module) {
                    Some(value) => {
                        return TypecheckStep::Ready(value);
                    },
                    None => {},
                }
            },
            Some(expected) => {
                let kept = match self.expected_types.get(module) {
                    Some(stored) => same_type(stored, expected),
                    None => false,
                };
                if kept {
                    match hit(&self.expected, &mut self.frames, &self.inputs, module) {
                        Some(value) => {
                            return TypecheckStep::Ready(value);
                        },
                        None => {},
                    }
                }
            },
        }
        match self.texts.lookup(module, &self.inputs) {
            None => TypecheckStep::NeedText,
            Some((Err(e), reads)) => {
                note(&mut self.frames, &reads);
                match expected_type {
                    None => {
                        self.typechecked.store(module.to_owned(), Err(e.clone()), reads);
                    },
                    Some(expected) => {
                        self.expected.store(module.to_owned(), Err(e.clone()), reads);
                        self.expected_types.insert(module.to_owned(), clone_type(expected));
                    },
                }
                TypecheckStep::Ready(Err(e))
            },
            Some((Ok(text), reads)) => {
                enter(&mut self.frames, QueryKind::TypecheckedModule, module, reads);
                TypecheckStep::Typecheck { text }
            },
        }
    }

    /// Ends the computation of the typechecked module `module` with what the
    /// typechecker has returned for the expected type, if one was given.
    pub fn typechecked_module_done(
        &mut self,
        module: &str,
        expected_type: Option<&Type>,
        checked: Result<TypecheckValue, Error>,
    ) -> (r: Result<Arc<TypecheckValue>, Error>)
        requires
            old(self).wf(),
        ensures
            final(self).wf(),
            match checked {
                Ok(value) => r matches Ok(v) && *v == value,
                Err(error) => r == Err::<Arc<TypecheckValue>, Error>(error),
            },
            stored(
                old(self).checked(given_type(expected_type)),
                final(self).checked(given_type(expected_type)),
                old(self).frames(),
                final(self).frames(),
                QueryKind::TypecheckedModule,
                module@,
                r,
            ),
            if on_top(old(self).frames(), QueryKind::TypecheckedModule, module@) {
                kept_for(
                    old(self).expected_types(),
                    final(self).expected_types(),
                    module@,
                    given_type(expected_type),
                )
            } else {
                final(self).expected_types() == old(self).expected_types()
            },
            expected_type is None ==> final(self).expected_checked() == old(self).expected_checked(),
            expected_type is Some ==> final(self).typechecked() == old(self).typechecked(),
            final(self).states() == old(self).states(),
            final(self).state_revisions() == old(self).state_revisions(),
            final(self).errors() == old(self).errors(),
            final(self).files() == old(self).files(),
            final(self).index_map() == old(self).index_map(),
            final(self).texts() == old(self).texts(),
            final(self).compiled() == old(self).compiled(),
            final(self).imports() == old(self).imports(),
            final(self).globals_table() == old(self).globals_table(),
            final(self).globals_reads() == old(self).globals_reads(),
            final(self).type_infos() == old(self).type_infos(),
    {
        let value = match checked {
            Ok(value) => Ok(Arc::new(value)),
            Err(error) => Err(error),
        };
        match expected_type {
            None => finish(
                &mut self.typechecked,
                &mut self.frames,
                QueryKind::TypecheckedModule,
                module,
                value,
            ),
            Some(expected) => {
                let frames = &self.frames;
                let n = frames.len();
                let top = n > 0 && frames[n - 1].kind == QueryKind::TypecheckedModule && str_eq(
                    frames[n - 1].module.as_str(),
                    module,
                );
                if top {
                    self.expected_types.insert(module.to_owned(), clone_type(expected));
                }
                finish(
                    &mut self.expected,
                    &mut self.frames,
                    QueryKind::TypecheckedModule,
                    module,
                    value,
                )
            },
        }
    }

    /// The compiled module `module`. A valid result answers at once. Else the
    /// text and the typechecked module decide, in this order: what is not valid
    /// has to be asked for first; what has failed is the result, and is stored
    /// as such; with both at hand the module has to be compiled, and the query
    /// is in progress until `compiled_module_done`.
    #[verifier::spinoff_prover]
    pub fn compiled_module(&mut self, module: &str) -> (r: CompileStep)
        requires
            old(self).wf(),
        ensures
            final(self).wf(),
            final(self).states() == old(self).states(),
            final(self).state_revisions() == old(self).state_revisions(),
            final(self).errors() == old(self).errors(),
            final(self).files() == old(self).files(),
            final(self).index_map() == old(self).index_map(),
            final(self).texts() == old(self).texts(),
            final(self).typechecked() == old(self).typechecked(),
            final(self).expected_checked() == old(self).expected_checked(),
            final(self).expected_types() == old(self).expected_types(),
            final(self).imports() == old(self).imports(),
            final(self).globals_table() == old(self).globals_table(),
            final(self).globals_reads() == old(self).globals_reads(),
            final(self).type_infos() == old(self).type_infos(),
            match old(self).compiled().valid(module@, old(self).states()) {
                Some(value) => {
                    &&& r == CompileStep::Ready(value)
                    &&& final(self).compiled() == old(self).compiled()
                    &&& noted(
                        old(self).frames(),
                        final(self).frames(),
                        old(self).compiled().memo(module@).reads,
                    )
                },
                None => match old(self).texts().valid(module@, old(self).states()) {
                    None => {
                        &&& r == CompileStep::NeedText
                        &&& final(self).compiled() == old(self).compiled()
                        &&& final(self).frames() == old(self).frames()
                    },
                    Some(Err(e)) => {
                        &&& r == CompileStep::Ready(Err(e))
                        &&& final(self).compiled().has(module@)
                        &&& final(self).compiled().memo(module@).value == Some(
                            Err::<Arc<CompileValue>, Error>(e),
                        )
                        &&& same_reads(
                            final(self).compiled().memo(module@).reads,
                            old(self).texts().memo(module@).reads,
                        )
                        &&& noted(
                            old(self).frames(),
                            final(self).frames(),
                            old(self).texts().memo(module@).reads,
                        )
                    },
                    Some(Ok(text)) => match old(self).typechecked().valid(
                        module@,
                        old(self).states(),
                    ) {
                        None => {
                            &&& r == CompileStep::NeedTypecheck
                            &&& final(self).compiled() == old(self).compiled()
                            &&& final(self).frames() == old(self).frames()
                        },
                        Some(Err(e)) => {
                            &&& r == CompileStep::Ready(Err(e))
                            &&& final(self).compiled().has(module@)
                            &&& final(self).compiled().memo(module@).value == Some(
                                Err::<Arc<CompileValue>, Error>(e),
                            )
                            &&& same_reads(
                                final(self).compiled().memo(module@).reads,
                                old(self).typechecked().memo(module@).reads,
                            )
                            &&& noted(
                                old(self).frames(),
                                final(self).frames(),
                                old(self).typechecked().memo(module@).reads,
                            )
                        },
                        Some(Ok(value)) => {
                            &&& r == (CompileStep::Compile { text, value })
                            &&& final(self).compiled() == old(self).compiled()
                            &&& final(self).frames().drop_last() == old(self).frames()
                            &&& on_top(final(self).frames(), QueryKind::CompiledModule, module@)
                            &&& reads_both(
                                final(self).frames().last().reads,
                                old(self).texts().memo(module@).reads,
                                old(self).typechecked().memo(module@).reads,
                            )
                        },
                    },
                },
            },
    {
        match hit(&self.compiled, &mut self.frames, &self.inputs, module) {
            Some(value) => {
                return CompileStep::Ready(value);
            },
            None => {},
        }
        match self.texts.lookup(module, &self.inputs) {
            None => CompileStep::NeedText,
            Some((Err(e), reads)) => {
                proof {
                    assert(self.texts.has(module@));
                    lemma_reads_module_same(reads, self.texts.memo(module@).reads, module@);
                }
                note(&mut self.frames, &reads);
                self.compiled.store(module.to_owned(), Err(e.clone()), reads);
                CompileStep::Ready(Err(e))
            },
            Some((Ok(text), text_reads)) => {
                proof {
                    assert(self.texts.has(module@));
                    lemma_reads_module_same(text_reads, self.texts.memo(module@).reads, module@);
                }
                match self.typechecked.lookup(module, &self.inputs) {
                    None => CompileStep::NeedTypecheck,
                    Some((Err(e), reads)) => {
                        proof {
                            assert(self.typechecked.has(module@));
                            lemma_reads_module_same(
                                reads,
                                self.typechecked.memo(module@).reads,
                                module@,
                            );
                        }
                        note(&mut self.frames, &reads);
                        self.compiled.store(module.to_owned(), Err(e.clone()), reads);
                        CompileStep::Ready(Err(e))
                    },
                    Some((Ok(value), reads)) => {
                        let mut all = text_reads;
                        all.merge(&reads);
                        proof {
                            lemma_reads_module_both(all, text_reads, reads, module@);
                        }
                        enter(&mut self.frames, QueryKind::CompiledModule, module, all);
                        CompileStep::Compile { text, value }
                    },
                }
            },
        }
    }

    /// Ends the computation of the compiled module `module` with what the
    /// compiler has returned.
    pub fn compiled_module_done(
        &mut self,
        module: &str,
        compiled: Result<CompileValue, Error>,
    ) -> (r: Result<Arc<CompileValue>, Error>)
        requires
            old(self).wf(),
        ensures
            final(self).wf(),
            match compiled {
                Ok(value) => r matches Ok(v) && *v == value,
                Err(error) => r == Err::<Arc<CompileValue>, Error>(error),
            },
            stored(
                old(self).compiled(),
                final(self).compiled(),
                old(self).frames(),
                final(self).frames(),
                QueryKind::CompiledModule,
                module@,
                r,
            ),
            final(self).states() == old(self).states(),
            final(self).state_revisions() == old(self).state_revisions(),
            final(self).errors() == old(self).errors(),
            final(self).files() == old(self).files(),
            final(self).index_map() == old(self).index_map(),
            final(self).texts() == old(self).texts(),
            final(self).typechecked() == old(self).typechecked(),
            final(self).expected_checked() == old(self).expected_checked(),
            final(self).expected_types() == old(self).expected_types(),
            final(self).imports() == old(self).imports(),
            final(self).globals_table() == old(self).globals_table(),
            final(self).globals_reads() == old(self).globals_reads(),
            final(self).type_infos() == old(self).type_infos(),
    {
        let value = match compiled {
            Ok(value) => Ok(Arc::new(value)),
            Err(error) => Err(error),
        };
        finish(&mut self.compiled, &mut self.frames, QueryKind::CompiledModule, module, value)
    }

    /// Discards the results of the text, typecheck and compile queries of every
    /// module, with or without an expected type. What they had read is kept, and
    /// so are the results of the imports and the globals. Afterwards none of
    /// these queries has a valid result, whatever the revisions are.
    pub fn collect_garbage(&mut self)
        requires
            old(self).wf(),
        ensures
            final(self).wf(),
            final(self).states() == old(self).states(),
            final(self).state_revisions() == old(self).state_revisions(),
            final(self).errors() == old(self).errors(),
            final(self).files() == old(self).files(),
            final(self).index_map() == old(self).index_map(),
            final(self).frames() == old(self).frames(),
            final(self).globals_table() == old(self).globals_table(),
            final(self).globals_reads() == old(self).globals_reads(),
            final(self).type_infos() == old(self).type_infos(),
            forall|m: Seq<char>, states: Table<usize>|
                {
                    &&& (#[trigger] final(self).texts().valid(m, states)) is None
                    &&& final(self).texts().has(m) == old(self).texts().has(m)
                },
            forall|m: Seq<char>, states: Table<usize>|
                {
                    &&& (#[trigger] final(self).typechecked().valid(m, states)) is None
                    &&& final(self).typechecked().has(m) == old(self).typechecked().has(m)
                },
            forall|m: Seq<char>, states: Table<usize>|
                {
                    &&& (#[trigger] final(self).compiled().valid(m, states)) is None
                    &&& final(self).compiled().has(m) == old(self).compiled().has(m)
                },
            forall|m: Seq<char>, states: Table<usize>|
                {
                    &&& (#[trigger] final(self).expected_checked().valid(m, states)) is None
                    &&& final(self).expected_checked().has(m) == old(self).expected_checked().has(m)
                },
            final(self).expected_types() == old(self).expected_types(),
            final(self).imports() == old(self).imports(),
    {
        self.texts.sweep();
        self.typechecked.sweep();
        self.expected.sweep();
        self.compiled.sweep();
    }

    /// The import of `module`. The name is taken in its loadable form. A valid
    /// result answers at once. Else an import of a module whose import is in
    /// progress is a cyclic import: it fails at once with the name of the
    /// module, and nothing changes. Otherwise the module has to be loaded, and
    /// the import is in progress until `import_loaded`.
    pub fn import(&mut self, module: &str) -> (r: ImportStep)
        requires
            old(self).wf(),
        ensures
            final(self).wf(),
            final(self).same_but_frames(old(self)),
            ({
                let name = import_name_of(module@);
                match old(self).imports().valid(name, old(self).states()) {
                    Some(value) => {
                        &&& r == ImportStep::Ready(import_result(value))
                        &&& noted(
                            old(self).frames(),
                            final(self).frames(),
                            old(self).imports().memo(name).reads,
                        )
                    },
                    None => if in_progress(old(self).frames(), QueryKind::Import, name) {
                        &&& r matches ImportStep::Ready(Err(e))
                        &&& is_cyclic_import(e, name)
                        &&& final(self).frames() == old(self).frames()
                    } else {
                        &&& r matches ImportStep::Load { name: load }
                        &&& load@ == name
                        &&& final(self).frames().drop_last() == old(self).frames()
                        &&& on_top(final(self).frames(), QueryKind::Import, name)
                        &&& importing(final(self).frames()) == importing(old(self).frames()).push(
                            name,
                        )
                        &&& final(self).frames().last().reads.stamps@.len() == 0
                        &&& final(self).frames().last().reads.names@.len() == 0
                    },
                }
            }),
    {
        let name = import_name(module);
        match hit(&self.imports, &mut self.frames, &self.inputs, name.as_str()) {
            Some(Ok(imported)) => {
                return ImportStep::Ready(Ok(Expr::Ident((*imported).clone())));
            },
            Some(Err(e)) => {
                return ImportStep::Ready(Err(e));
            },
            None => {},
        }
        if is_in_progress(&self.frames, QueryKind::Import, name.as_str()) {
            ImportStep::Ready(Err(Error::new(CyclicImportError(name))))
        } else {
            enter(&mut self.frames, QueryKind::Import, name.as_str(), Reads::new());
            ImportStep::Load { name }
        }
    }

    /// Ends the import of `module` with what loading the module has come to.
    /// A successful import is the identifier of the module in its loadable
    /// form; a failed one fails with the error of the load. Either is stored as
    /// the result of the import. Then the garbage is collected, whether the
    /// import succeeded or not; the results of the imports are not garbage.
    #[verifier::spinoff_prover]
    pub fn import_loaded(&mut self, module: &str, loaded: Result<(), Error>) -> (r: Result<
        Expr,
        Error,
    >)
        requires
            old(self).wf(),
        ensures
            final(self).wf(),
            match loaded {
                Ok(_) => r matches Ok(Expr::Ident(name)) && name@ == import_name_of(module@),
                Err(error) => r == Err::<Expr, Error>(error),
            },
            exists|value: Result<Arc<String>, Error>|
                {
                    &&& import_result(value) == r
                    &&& #[trigger] stored(
                        old(self).imports(),
                        final(self).imports(),
                        old(self).frames(),
                        final(self).frames(),
                        QueryKind::Import,
                        import_name_of(module@),
                        value,
                    )
                },
            final(self).states() == old(self).states(),
            final(self).state_revisions() == old(self).state_revisions(),
            final(self).errors() == old(self).errors(),
            final(self).files() == old(self).files(),
            final(self).index_map() == old(self).index_map(),
            final(self).globals_table() == old(self).globals_table(),
            final(self).globals_reads() == old(self).globals_reads(),
            final(self).type_infos() == old(self).type_infos(),
            final(self).expected_types() == old(self).expected_types(),
            forall|m: Seq<char>, states: Table<usize>|
                (#[trigger] final(self).texts().valid(m, states)) is None,
            forall|m: Seq<char>, states: Table<usize>|
                (#[trigger] final(self).typechecked().valid(m, states)) is None,
            forall|m: Seq<char>, states: Table<usize>|
                (#[trigger] final(self).compiled().valid(m, states)) is None,
            forall|m: Seq<char>, states: Table<usize>|
                (#[trigger] final(self).expected_checked().valid(m, states)) is None,
    {
        let name = import_name(module);
        let value = match &loaded {
            Ok(_) => Ok(Arc::new(name.clone())),
            Err(error) => Err(error.clone()),
        };
        let ghost kept = value;
        let stored_value = finish(
            &mut self.imports,
            &mut self.frames,
            QueryKind::Import,
            name.as_str(),
            value,
        );
        self.collect_garbage();
        let r = match loaded {
            Ok(_) => Ok(Expr::Ident(name)),
            Err(error) => Err(error),
        };
        proof {
            assert(import_result(kept) == r);
            assert(stored(
                old(self).imports(),
                self.imports(),
                old(self).frames(),
                self.frames(),
                QueryKind::Import,
                import_name_of(module@),
                kept,
            ));
        }
        r
    }

    /// The globals of all modules. If they were computed from the modules as
    /// they are, nothing has to be done. Otherwise every module has to be
    /// compiled and executed, and the query is in progress until
    /// `globals_executed`; it has read the number of modules.
    pub fn globals(&mut self) -> (r: GlobalsStep)
        requires
            old(self).wf(),
        ensures
            final(self).wf(),
            final(self).same_but_frames(old(self)),
            if old(self).globals_valid() {
                &&& r == GlobalsStep::Ready
                &&& noted(
                    old(self).frames(),
                    final(self).frames(),
                    old(self).globals_reads()->Some_0,
                )
            } else {
                &&& r matches GlobalsStep::Execute { modules }
                &&& strings_view(modules@) == old(self).states().keys()
                &&& final(self).frames().drop_last() == old(self).frames()
                &&& on_top(final(self).frames(), QueryKind::Globals, Seq::<char>::empty())
                &&& final(self).frames().last().reads.stamps@.len() == 0
                &&& final(self).frames().last().reads.names@ == seq![
                    old(self).states().spec_len() as usize,
                ]
            },
    {
        let valid = match &self.globals_reads {
            Some(reads) => reads.is_current(&self.inputs),
            None => false,
        };
        if valid {
            match &self.globals_reads {
                Some(reads) => {
                    note(&mut self.frames, reads);
                },
                None => {},
            }
            GlobalsStep::Ready
        } else {
            let mut reads = Reads::new();
            reads.read_names(&self.inputs);
            proof {
                reveal_strlit("");
                assert(""@ =~= Seq::<char>::empty());
                assert(reads.names@ =~= seq![old(self).states().spec_len() as usize]);
            }
            enter(&mut self.frames, QueryKind::Globals, "", reads);
            let modules = self.inputs.key_list();
            proof {
                assert(strings_view(modules@) =~= old(self).states().keys());
            }
            GlobalsStep::Execute { modules }
        }
    }

    /// Ends the computation of the globals with the globals of the modules, in
    /// the order of the modules. They become the globals of the database if the
    /// query is on top and there is one global for each module; `false` is
    /// returned otherwise, and the globals stay as they were.
    #[verifier::spinoff_prover]
    pub fn globals_executed(&mut self, values: Vec<Global>) -> (r: bool)
        requires
            old(self).wf(),
        ensures
            final(self).wf(),
            final(self).states() == old(self).states(),
            final(self).state_revisions() == old(self).state_revisions(),
            final(self).errors() == old(self).errors(),
            final(self).files() == old(self).files(),
            final(self).index_map() == old(self).index_map(),
            final(self).texts() == old(self).texts(),
            final(self).typechecked() == old(self).typechecked(),
            final(self).expected_checked() == old(self).expected_checked(),
            final(self).expected_types() == old(self).expected_types(),
            final(self).compiled() == old(self).compiled(),
            final(self).imports() == old(self).imports(),
            final(self).type_infos() == old(self).type_infos(),
            r == (on_top(old(self).frames(), QueryKind::Globals, Seq::<char>::empty())
                && values@.len() == old(self).states().spec_len()),
            if on_top(old(self).frames(), QueryKind::Globals, Seq::<char>::empty()) {
                noted(
                    old(self).frames().drop_last(),
                    final(self).frames(),
                    old(self).frames().last().reads,
                )
            } else {
                final(self).frames() == old(self).frames()
            },
            if r {
                &&& final(self).globals_table().keys() == old(self).states().keys()
                &&& final(self).globals_table().values() == values@
                &&& final(self).globals_reads() matches Some(reads)
                &&& same_reads(reads, old(self).frames().last().reads)
            } else {
                &&& final(self).globals_table() == old(self).globals_table()
                &&& final(self).globals_reads() == old(self).globals_reads()
            },
    {
        proof {
            reveal_strlit("");
            assert(""@ =~= Seq::<char>::empty());
        }
        match leave(&mut self.frames, QueryKind::Globals, "") {
            Some(reads) => {
                note(&mut self.frames, &reads);
                if values.len() == self.inputs.len() {
                    self.globals = Table::with_keys_of(&self.inputs, values);
                    self.globals_reads = Some(reads);
                    true
                } else {
                    false
                }
            },
            None => false,
        }
    }

    /// The global of the module `name`, among the globals of the database.
    pub fn global(&self, name: &str) -> (r: Option<&Global>)
        requires
            self.wf(),
        ensures
            match r {
                Some(global) => self.globals_table().contains(name@) && *global
                    == self.globals_table().value_of(name@),
                None => !self.globals_table().contains(name@),
            },
    {
        self.globals.get(name)
    }

    /// Makes `typ` known under the name `name`, which has no module.
    pub fn add_type_info(&mut self, name: String, typ: Type)
        requires
            old(self).wf(),
        ensures
            final(self).wf(),
            final(self).type_infos().contains(name@),
            final(self).type_infos().value_of(name@) == typ,
            final(self).states() == old(self).states(),
            final(self).state_revisions() == old(self).state_revisions(),
            final(self).errors() == old(self).errors(),
            final(self).files() == old(self).files(),
            final(self).index_map() == old(self).index_map(),
            final(self).frames() == old(self).frames(),
            final(self).texts() == old(self).texts(),
            final(self).typechecked() == old(self).typechecked(),
            final(self).expected_checked() == old(self).expected_checked(),
            final(self).expected_types() == old(self).expected_types(),
            final(self).compiled() == old(self).compiled(),
            final(self).imports() == old(self).imports(),
            final(self).globals_table() == old(self).globals_table(),
            final(self).globals_reads() == old(self).globals_reads(),
    {
        self.type_infos.insert(name, typ);
    }

    /// The diagnostics that have been reported, in order.
    pub fn diagnostics(&self) -> (errors: &Vec<Error>)
        ensures
            errors@ == self.errors(),
    {
        &self.state.errors
    }

    /// The code map with the texts of the modules.
    pub fn code_map(&self) -> (map: &CodeMap<String>)
        ensures
            code_map_files(*map) == self.files(),
    {
        &self.state.code_map
    }

    /// The file that was entered under the name `file`.
    pub fn get_filemap(&self, file: &str) -> (r: Option<SourceFile>)
        requires
            self.wf(),
        ensures
            !self.index_map().contains(file@) ==> r is None,
            r matches Some(found) ==> {
                &&& self.index_map().contains(file@)
                &&& self.files().contains(record_of(found))
                &&& covers(record_of(found), self.index_map().value_of(file@) as int)
            },
            spaced(self.files()) ==> (r is Some <==> self.index_map().contains(file@) && covered(
                self.files(),
                self.index_map().value_of(file@) as int,
            )),
    {
        self.state.get_filemap(file)
    }

    /// Enters the text `source` under the name `file`, unless the file that is
    /// entered under the name holds this very text.
    pub fn add_filemap(&mut self, file: &str, source: String) -> (r: SourceFile)
        requires
            old(self).wf(),
        ensures
            final(self).wf(),
            r.src@ == source@,
            final(self).index_map().contains(file@),
            final(self).files().contains(record_of(r)),
            covers(record_of(r), final(self).index_map().value_of(file@) as int),
            holds_text(
                final(self).files(),
                final(self).index_map().value_of(file@) as int,
                source@,
            ),
            final(self).files() == old(self).files()
                ==> final(self).index_map() == old(self).index_map(),
            final(self).files() == old(self).files() || {
                &&& final(self).files() == old(self).files().push(record_of(r))
                &&& final(self).index_map().value_of(file@) == r.start
            },
            final(self).states() == old(self).states(),
            final(self).state_revisions() == old(self).state_revisions(),
            final(self).errors() == old(self).errors(),
            final(self).frames() == old(self).frames(),
            final(self).texts() == old(self).texts(),
            final(self).typechecked() == old(self).typechecked(),
            final(self).expected_checked() == old(self).expected_checked(),
            final(self).expected_types() == old(self).expected_types(),
            final(self).compiled() == old(self).compiled(),
            final(self).imports() == old(self).imports(),
            final(self).globals_table() == old(self).globals_table(),
            final(self).globals_reads() == old(self).globals_reads(),
            final(self).type_infos() == old(self).type_infos(),
    {
        self.state.add_filemap(file, source)
    }

    /// Gives the file that is entered under the name `file` the text `source`.
    /// The file is updated exactly when a file is entered under the name, the
    /// files of the code map are spaced, and one of them covers the position
    /// that is kept for the name; otherwise `None` is returned and nothing
    /// changes.
    pub fn update_filemap(&mut self, file: &str, source: String) -> (r: Option<SourceFile>)
        requires
            old(self).wf(),
        ensures
            final(self).wf(),
            r is Some <==> {
                &&& old(self).index_map().contains(file@)
                &&& spaced(old(self).files())
                &&& covered(old(self).files(), old(self).index_map().value_of(file@) as int)
            },
            match r {
                Some(updated) => {
                    &&& updated.src@ == source@
                    &&& old(self).index_map().contains(file@)
                    &&& spaced(old(self).files())
                    &&& final(self).index_map().contains(file@)
                    &&& final(self).index_map().value_of(file@) == updated.start
                    &&& exists|i: int|
                        {
                            &&& covered_at(
                                old(self).files(),
                                i,
                                old(self).index_map().value_of(file@) as int,
                            )
                            &&& #[trigger] file_replaced(
                                old(self).files(),
                                final(self).files(),
                                i,
                                record_of(updated),
                            )
                        }
                },
                None => final(self).files() == old(self).files() && final(self).index_map()
                    == old(self).index_map(),
            },
            final(self).states() == old(self).states(),
            final(self).state_revisions() == old(self).state_revisions(),
            final(self).errors() == old(self).errors(),
            final(self).frames() == old(self).frames(),
            final(self).texts() == old(self).texts(),
            final(self).typechecked() == old(self).typechecked(),
            final(self).expected_checked() == old(self).expected_checked(),
            final(self).expected_types() == old(self).expected_types(),
            final(self).compiled() == old(self).compiled(),
            final(self).imports() == old(self).imports(),
            final(self).globals_table() == old(self).globals_table(),
            final(self).globals_reads() == old(self).globals_reads(),
            final(self).type_infos() == old(self).type_infos(),
    {
        let ghost files = self.files();
        let ghost index = self.index_map().value_of(file@) as int;
        let r = self.state.update_filemap(file, source);
        proof {
            if r is Some {
                let updated = r->Some_0;
                let i = choose|i: int|
                    covered_at(files, i, index) && #[trigger] file_replaced(
                        files,
                        self.files(),
                        i,
                        record_of(updated),
                    );
                assert(file_replaced(files, self.files(), i, record_of(updated)));
            }
        }
        r
    }

    /// The variable that the symbol `id` stands for: the identifier and the
    /// type of the global that is named like the symbol without its leading `@`.
    pub fn find_var(&self, id: &str) -> (r: Option<(&String, &Type)>)
        requires
            self.wf(),
        ensures
            match r {
                Some((name, typ)) => {
                    &&& self.globals_table().contains(trim_at(id@))
                    &&& *name == self.globals_table().value_of(trim_at(id@)).id
                    &&& *typ == self.globals_table().value_of(trim_at(id@)).typ
                },
                None => !self.globals_table().contains(trim_at(id@)),
            },
    {
        let name = definition_name(id);
        match self.globals.get(name.as_str()) {
            Some(global) => Some((&global.id, &global.typ)),
            None => None,
        }
    }

    /// The kind of the type `name`: this environment knows none.
    pub fn find_kind(&self, name: &str) -> (r: Option<Kind>)
        ensures
            r is None,
    {
        None
    }

    /// The type of the global that is named like the symbol `id` without its
    /// leading `@`.
    pub fn find_type(&self, id: &str) -> (r: Option<&Type>)
        requires
            self.wf(),
        ensures
            match r {
                Some(typ) => self.globals_table().contains(trim_at(id@)) && *typ
                    == self.globals_table().value_of(trim_at(id@)).typ,
                None => !self.globals_table().contains(trim_at(id@)),
            },
    {
        let name = definition_name(id);
        match self.globals.get(name.as_str()) {
            Some(global) => Some(&global.typ),
            None => None,
        }
    }

    /// The metadata of the global that is named like the symbol `id` without
    /// its leading `@`.
    pub fn find_metadata(&self, id: &str) -> (r: Option<&Metadata>)
        requires
            self.wf(),
        ensures
            match r {
                Some(metadata) => self.globals_table().contains(trim_at(id@)) && *metadata
                    == self.globals_table().value_of(trim_at(id@)).metadata,
                None => !self.globals_table().contains(trim_at(id@)),
            },
    {
        let name = definition_name(id);
        match self.globals.get(name.as_str()) {
            Some(global) => Some(&global.metadata),
            None => None,
        }
    }

    /// The type that the type name `name` stands for.
    pub fn find_type_info(&self, name: &str) -> (r: Result<&Type, Error>)
        requires
            self.wf(),
        ensures
            match type_info_of(self.globals_table(), self.type_infos(), name@) {
                Ok(typ) => r is Ok && *r->Ok_0 == typ,
                Err((kind, text)) => r is Err && r->Err_0.kind == kind && r->Err_0.text@ == text,
            },
    {
        resolve::find_type_info(&self.globals, &self.type_infos, name)
    }

    /// The type of the booleans: what `std.types.Bool` stands for.
    pub fn get_bool(&self) -> (r: Result<&Type, Error>)
        requires
            self.wf(),
        ensures
            match type_info_of(self.globals_table(), self.type_infos(), "std.types.Bool"@) {
                Ok(typ) => r is Ok && *r->Ok_0 == typ,
                Err((kind, text)) => r is Err && r->Err_0.kind == kind && r->Err_0.text@ == text,
            },
    {
        self.find_type_info("std.types.Bool")
    }

    /// The value and the type that `name` is bound to: the longest prefix of
    /// the name that names a global is looked for, and the rest of the name is
    /// walked field by field through that global.
    pub fn get_binding(&self, name: &str) -> (r: Result<(&Value, &Type), Error>)
        requires
            self.wf(),
        ensures
            match resolution(self.globals_table(), name@) {
                None => r is Err && r->Err_0.kind == ErrorKind::UndefinedBinding && r->Err_0.text@
                    == name@,
                Some(w) => reports(r, w),
            },
    {
        resolve::get_binding(&self.globals, name)
    }

    /// The metadata that `name` leads to; its absence is an error that names
    /// `name`.
    pub fn get_metadata(&self, name: &str) -> (r: Result<&Metadata, Error>)
        requires
            self.wf(),
        ensures
            match metadata_of(self.globals_table(), name@) {
                Some(m) => r is Ok && *r->Ok_0 == m,
                None => r is Err && r->Err_0.kind == ErrorKind::MetadataMissing && r->Err_0.text@
                    == name@,
            },
    {
        resolve::get_metadata(&self.globals, name)
    }
}

/// The kind of a type.
#[derive(Clone, Copy, Debug, PartialEq, Eq, Structural, Hash)]
pub enum Kind {
    Type,
    Row,
}

/// The name under which the symbol `id` is defined: the symbol without its
/// leading `@` characters.
pub fn definition_name(id: &str) -> (name: String)
    ensures
        name@ == trim_at(id@),
{
    let chars = chars_of(id);
    let start = leading_at(&chars);
    proof {
        assert(chars@.subrange(start as int, chars.len() as int) == chars@.skip(start as int));
    }
    string_of(&chars, start, chars.len())
}

/// Idempotence: a result that was stored when its query ended is what the
/// query answers with, at once, for as long as what was read for it is current.
pub proof fn lemma_stored_result_is_valid<V>(
    before: Cache<V>,
    after: Cache<V>,
    frames_before: Seq<Frame>,
    frames_after: Seq<Frame>,
    kind: QueryKind,
    module: Seq<char>,
    value: Result<Arc<V>, Error>,
    states: Table<usize>,
)
    requires
        stored(before, after, frames_before, frames_after, kind, module, value),
        on_top(frames_before, kind, module),
        current(frames_before.last().reads, states),
    ensures
        after.valid(module, states) == Some(value),
{
}

/// Invalidation: a result that has read a module is not valid any more once
/// that module has another revision, so that its query computes it anew.
pub proof fn lemma_invalid_after_change<V>(
    cache: Cache<V>,
    module: Seq<char>,
    changed: Seq<char>,
    before: Table<usize>,
    after: Table<usize>,
)
    requires
        cache.valid(module, before) is Some,
        reads_module(cache.memo(module).reads, changed),
        revision_of(after, changed) != revision_of(before, changed),
    ensures
        cache.valid(module, after) is None,
{
    crate::cache::lemma_stale_after_change(cache.memo(module).reads, before, after, changed);
}

/// Invalidation leaves the rest alone: a result that has not read the module
/// that changed is as valid as it was.
pub proof fn lemma_valid_when_unrelated<V>(
    cache: Cache<V>,
    module: Seq<char>,
    changed: Seq<char>,
    before: Table<usize>,
    after: Table<usize>,
)
    requires
        !reads_module(cache.memo(module).reads, changed),
        forall|m: Seq<char>| m != changed ==> revision_of(after, m) == revision_of(before, m),
        after.spec_len() == before.spec_len(),
    ensures
        cache.valid(module, after) == cache.valid(module, before),
{
    let reads = cache.memo(module).reads;
    assert forall|i: int| 0 <= i < reads.stamps.len() implies (#[trigger] reads.stamps[i]).module@
        != changed by {
    }
}

/// Cycle detection: an import that is in progress stays in progress while
/// other queries are entered above it, so that importing it again, at any
/// depth, is found to be cyclic.
pub proof fn lemma_in_progress_below(frames: Seq<Frame>, above: Seq<Frame>, module: Seq<char>)
    requires
        in_progress(frames, QueryKind::Import, module),
    ensures
        in_progress(frames + above, QueryKind::Import, module),
{
    let i = choose|i: int|
        0 <= i < frames.len() && frame_of(#[trigger] frames[i], QueryKind::Import, module);
    assert((frames + above)[i] == frames[i]);
}

} // verus!
