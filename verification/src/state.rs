//! The texts of the modules, placed one after the other in one space of byte
//! positions, so that a position of a diagnostic leads back to its file.
use crate::error::Error;
use crate::table::Table;
use codespan::{ByteIndex, CodeMap, FileName};
use vstd::prelude::*;

verus! {

/// `CodeMap` of codespan: files placed in one space of byte positions. What it
/// holds is named by `code_map_files`.
#[verifier::external_type_specification]
#[verifier::external_body]
#[verifier::reject_recursive_types(S)]
pub struct ExCodeMap<S>(CodeMap<S>);

/// One file of a code map: the positions of its first byte and of the byte
/// behind its last, and its text.
#[derive(Debug, PartialEq, Eq, Hash)]
pub struct SourceFile {
    pub start: u32,
    pub end: u32,
    pub src: String,
}

/// The files that a code map holds, in its own order, each as the position of
/// its start, the position of its end and its text.
pub uninterp spec fn code_map_files(map: CodeMap<String>) -> Seq<(int, int, Seq<char>)>;

/// What a code map holds of `file`.
pub open spec fn record_of(file: SourceFile) -> (int, int, Seq<char>) {
    (file.start as int, file.end as int, file.src@)
}

/// Number of bytes that `text` takes.
pub open spec fn byte_len(text: Seq<char>) -> nat {
    vstd::utf8::encode_utf8(text).len()
}

/// Whether `index` lies in the file `file`.
pub open spec fn covers(file: (int, int, Seq<char>), index: int) -> bool {
    file.0 <= index <= file.1
}

/// Whether the files stand one behind the other, from position `1` on, with
/// at least one position between two of them.
pub open spec fn spaced(files: Seq<(int, int, Seq<char>)>) -> bool {
    &&& forall|i: int| 0 <= i < files.len() ==> 1 <= (#[trigger] files[i]).0 <= files[i].1
    &&& forall|i: int, j: int|
        0 <= i < j < files.len() ==> (#[trigger] files[i]).1 < (#[trigger] files[j]).0
}

/// The position at which the next file starts: behind the last file, with one
/// position between them.
pub open spec fn next_start(files: Seq<(int, int, Seq<char>)>) -> int {
    if files.len() == 0 {
        1
    } else {
        files.last().1 + 1
    }
}

/// Whether the file at position `i` of `files` covers `index`.
pub open spec fn covered_at(files: Seq<(int, int, Seq<char>)>, i: int, index: int) -> bool {
    0 <= i < files.len() && covers(files[i], index)
}

/// Whether `after` holds the files of `before`, with `file` in the place of the
/// file at position `i`, in whatever order.
pub open spec fn file_replaced(
    before: Seq<(int, int, Seq<char>)>,
    after: Seq<(int, int, Seq<char>)>,
    i: int,
    file: (int, int, Seq<char>),
) -> bool {
    &&& 0 <= i < before.len()
    &&& after.to_multiset() == before.to_multiset().remove(before[i]).insert(file)
}

/// Whether some file of `files` covers `index`.
pub open spec fn covered(files: Seq<(int, int, Seq<char>)>, index: int) -> bool {
    exists|i: int| covered_at(files, i, index)
}

/// Whether a file of `files` covers `index` and holds `text`.
pub open spec fn holds_text(
    files: Seq<(int, int, Seq<char>)>,
    index: int,
    text: Seq<char>,
) -> bool {
    exists|i: int| covered_at(files, i, index) && (#[trigger] files[i]).2 == text
}

/// Among spaced files a position is covered by one file at most.
pub proof fn lemma_one_file_covers(files: Seq<(int, int, Seq<char>)>, i: int, j: int, index: int)
    requires
        spaced(files),
        covered_at(files, i, index),
        covered_at(files, j, index),
    ensures
        i == j,
{
    if i < j {
        assert(files[i].1 < files[j].0);
    } else if j < i {
        assert(files[j].1 < files[i].0);
    }
}

/// Spaced files stay spaced when a file is added behind them that starts at
/// `next_start`.
pub proof fn lemma_spaced_push(files: Seq<(int, int, Seq<char>)>, file: (int, int, Seq<char>))
    requires
        spaced(files),
        file.0 == next_start(files),
        file.0 <= file.1,
    ensures
        spaced(files.push(file)),
{
    let all = files.push(file);
    assert forall|i: int| 0 <= i < all.len() implies 1 <= (#[trigger] all[i]).0 <= all[i].1 by {
        if i < files.len() {
            assert(all[i] == files[i]);
        } else if files.len() > 0 {
            assert(1 <= files[files.len() - 1].0 <= files[files.len() - 1].1);
        }
    }
    assert forall|i: int, j: int| 0 <= i < j < all.len() implies (#[trigger] all[i]).1 < (
    #[trigger] all[j]).0 by {
        assert(all[i] == files[i]);
        if j < files.len() {
            assert(all[j] == files[j]);
        } else if i < files.len() - 1 {
            assert(files[i].1 < files[files.len() - 1].0);
            assert(files[files.len() - 1].0 <= files[files.len() - 1].1);
        }
    }
}

/// `CodeMap::new` of codespan: a code map without files.
#[verifier::external_body]
fn empty_code_map() -> (map: CodeMap<String>)
    ensures
        code_map_files(map).len() == 0,
{
    CodeMap::new()
}

/// `CodeMap::iter` of codespan, with `FileMap::span` of each file: the start
/// and the end of every file, in the order of the code map.
#[verifier::external_body]
fn file_spans(map: &CodeMap<String>) -> (spans: Vec<(u32, u32)>)
    ensures
        spans@.len() == code_map_files(*map).len(),
        forall|i: int|
            0 <= i < spans@.len() ==> (#[trigger] spans@[i]).0 == code_map_files(*map)[i].0
                && spans@[i].1 == code_map_files(*map)[i].1,
{
    map.iter().map(|file| (file.span().start().0, file.span().end().0)).collect()
}

/// `CodeMap::find_file` of codespan: a file that is found is a file of the
/// code map and covers `index`. Where the files are spaced, no file is found
/// only if no file covers `index`.
#[verifier::external_body]
fn find_file(map: &CodeMap<String>, index: u32) -> (r: Option<SourceFile>)
    ensures
        r matches Some(file) ==> code_map_files(*map).contains(record_of(file)) && covers(
            record_of(file),
            index as int,
        ),
        r is None && spaced(code_map_files(*map)) ==> forall|i: int|
            0 <= i < code_map_files(*map).len() ==> !covers(
                #[trigger] code_map_files(*map)[i],
                index as int,
            ),
{
    map.find_file(ByteIndex(index)).map(
        |file|
            SourceFile {
                start: file.span().start().0,
                end: file.span().end().0,
                src: file.src().to_string(),
            },
    )
}

/// `CodeMap::add_filemap` of codespan, for a file with a virtual name: the new
/// file holds `src` and is the last of the code map, behind the files that
/// were there. Its end is not before its start. If its text ends before the
/// positions run out, it starts at `next_start` and takes as many positions as
/// its text has bytes.
#[verifier::external_body]
fn add_file(map: &mut CodeMap<String>, name: String, src: String) -> (file: SourceFile)
    ensures
        file.src@ == src@,
        file.start <= file.end,
        code_map_files(*final(map)) == code_map_files(*old(map)).push(record_of(file)),
        next_start(code_map_files(*old(map))) + byte_len(src@) <= u32::MAX ==> file.start
            == next_start(code_map_files(*old(map))) && file.end == file.start + byte_len(src@),
{
    let added = map.add_filemap(FileName::virtual_(name), src);
    SourceFile {
        start: added.span().start().0,
        end: added.span().end().0,
        src: added.src().to_string(),
    }
}

/// `CodeMap::update` of codespan, on spaced files: the file that covers
/// `index` gets the text `src`, in its place or at another; every other file
/// stays as it is. Without a file that covers `index` nothing changes.
#[verifier::external_body]
fn update_file(map: &mut CodeMap<String>, index: u32, src: String) -> (r: Option<SourceFile>)
    requires
        spaced(code_map_files(*old(map))),
    ensures
        match r {
            Some(file) => file.src@ == src@ && exists|i: int|
                {
                    &&& covered_at(code_map_files(*old(map)), i, index as int)
                    &&& #[trigger] file_replaced(
                        code_map_files(*old(map)),
                        code_map_files(*final(map)),
                        i,
                        record_of(file),
                    )
                },
            None => code_map_files(*final(map)) == code_map_files(*old(map)) && !covered(
                code_map_files(*old(map)),
                index as int,
            ),
        },
{
    map.update(ByteIndex(index), src).map(
        |file|
            SourceFile {
                start: file.span().start().0,
                end: file.span().end().0,
                src: file.src().to_string(),
            },
    )
}

/// Whether the spans stand one behind the other, from position `1` on, with at
/// least one position between two of them.
pub open spec fn spaced_spans(spans: Seq<(u32, u32)>) -> bool {
    &&& forall|i: int| 0 <= i < spans.len() ==> 1 <= (#[trigger] spans[i]).0 <= spans[i].1
    &&& forall|i: int| 0 <= i < spans.len() - 1 ==> (#[trigger] spans[i]).1 < spans[i + 1].0
}

/// Spans that follow each other with a gap are spaced as a whole.
pub proof fn lemma_spaced_spans(spans: Seq<(u32, u32)>, i: int, j: int)
    requires
        spaced_spans(spans),
        0 <= i < j < spans.len(),
    ensures
        spans[i].1 < spans[j].0,
    decreases j - i,
{
    if i + 1 < j {
        lemma_spaced_spans(spans, i, j - 1);
        assert(spans[j - 1].0 <= spans[j - 1].1);
    }
}

/// Whether `spans` are spaced.
pub fn are_spaced(spans: &Vec<(u32, u32)>) -> (r: bool)
    ensures
        r == spaced_spans(spans@),
{
    let mut i: usize = 0;
    while i < spans.len()
        invariant
            i <= spans.len(),
            forall|k: int| 0 <= k < i ==> 1 <= (#[trigger] spans@[k]).0 <= spans@[k].1,
            forall|k: int| 0 <= k < i - 1 ==> (#[trigger] spans@[k]).1 < spans@[k + 1].0,
        decreases spans.len() - i,
    {
        let (start, end) = spans[i];
        if start < 1 || start > end {
            return false;
        }
        if i > 0 {
            if spans[i - 1].1 >= start {
                assert(!(spans@[i - 1].1 < spans@[i - 1 + 1].0));
                return false;
            }
        }
        i += 1;
    }
    true
}

/// The inputs of the database, the texts that were loaded and the diagnostics
/// that have been reported.
pub struct State {
    pub code_map: CodeMap<String>,
    /// Where the text of each file starts in the code map.
    pub index_map: Table<u32>,
    pub errors: Vec<Error>,
    /// The revision of each module.
    pub module_states: Table<usize>,
}

impl State {
    /// The files of the code map.
    pub open spec fn files(&self) -> Seq<(int, int, Seq<char>)> {
        code_map_files(self.code_map)
    }

    /// No file and no module is entered twice.
    pub open spec fn wf(&self) -> bool {
        self.index_map.wf() && self.module_states.wf()
    }

    /// A state without files, modules and diagnostics.
    pub fn new() -> (state: State)
        ensures
            state.wf(),
            state.files().len() == 0,
            state.index_map.spec_len() == 0,
            state.module_states.spec_len() == 0,
            state.errors@.len() == 0,
    {
        State {
            code_map: empty_code_map(),
            index_map: Table::new(),
            errors: Vec::new(),
            module_states: Table::new(),
        }
    }

    /// Whether the files of the code map are spaced.
    pub fn is_spaced(&self) -> (r: bool)
        ensures
            r == spaced(self.files()),
    {
        let spans = file_spans(&self.code_map);
        let r = are_spaced(&spans);
        proof {
            let files = self.files();
            if r {
                assert forall|i: int, j: int| 0 <= i < j < files.len() implies (
                #[trigger] files[i]).1 < (#[trigger] files[j]).0 by {
                    lemma_spaced_spans(spans@, i, j);
                }
                assert forall|i: int| 0 <= i < files.len() implies 1 <= (#[trigger] files[i]).0
                    <= files[i].1 by {
                    assert(1 <= spans@[i].0 <= spans@[i].1);
                }
            } else {
                if spaced(files) {
                    assert forall|i: int| 0 <= i < spans@.len() implies 1 <= (
                    #[trigger] spans@[i]).0 <= spans@[i].1 by {
                        assert(1 <= files[i].0 <= files[i].1);
                    }
                    assert forall|i: int| 0 <= i < spans@.len() - 1 implies (#[trigger] spans@[i]).1
                        < spans@[i + 1].0 by {
                        assert(files[i].1 < files[i + 1].0);
                    }
                }
            }
        }
        r
    }

    /// The file that was entered under the name `file`: the file of the code
    /// map that covers the position that is kept for the name.
    pub fn get_filemap(&self, file: &str) -> (r: Option<SourceFile>)
        requires
            self.wf(),
        ensures
            !self.index_map.contains(file@) ==> r is None,
            r matches Some(found) ==> {
                &&& self.index_map.contains(file@)
                &&& self.files().contains(record_of(found))
                &&& covers(record_of(found), self.index_map.value_of(file@) as int)
            },
            spaced(self.files()) ==> (r is Some <==> self.index_map.contains(file@) && covered(
                self.files(),
                self.index_map.value_of(file@) as int,
            )),
    {
        match self.index_map.get(file) {
            Some(index) => {
                let r = find_file(&self.code_map, *index);
                proof {
                    let files = self.files();
                    if r is Some {
                        let i = files.index_of(record_of(r->Some_0));
                        assert(covered_at(files, i, *index as int));
                    } else if spaced(files) && covered(files, *index as int) {
                        let i = choose|i: int| covered_at(files, i, *index as int);
                        assert(!covers(files[i], *index as int));
                    }
                }
                r
            },
            None => None,
        }
    }

    /// Enters the text `source` under the name `file`. If the file that is
    /// entered under the name holds this very text, it is returned and nothing
    /// changes. Otherwise a new file with the text is added to the code map and
    /// the name leads to its start from now on.
    #[verifier::spinoff_prover]
    pub fn add_filemap(&mut self, file: &str, source: String) -> (r: SourceFile)
        requires
            old(self).wf(),
        ensures
            final(self).wf(),
            r.src@ == source@,
            final(self).errors == old(self).errors,
            final(self).module_states == old(self).module_states,
            final(self).index_map.contains(file@),
            final(self).files().contains(record_of(r)),
            covers(record_of(r), final(self).index_map.value_of(file@) as int),
            holds_text(
                final(self).files(),
                final(self).index_map.value_of(file@) as int,
                source@,
            ),
            final(self).files() == old(self).files() || {
                &&& final(self).files() == old(self).files().push(record_of(r))
                &&& final(self).index_map.value_of(file@) == r.start
            },
            final(self).files() == old(self).files() ==> final(self).index_map == old(
                self).index_map,
            spaced(old(self).files()) ==> (final(self).files() == old(self).files() <==> {
                &&& old(self).index_map.contains(file@)
                &&& holds_text(
                    old(self).files(),
                    old(self).index_map.value_of(file@) as int,
                    source@,
                )
            }),
            spaced(old(self).files()) && next_start(old(self).files()) + byte_len(source@)
                <= u32::MAX ==> spaced(final(self).files()),
            final(self).files() != old(self).files() && next_start(old(self).files()) + byte_len(
                source@,
            ) <= u32::MAX ==> r.start == next_start(old(self).files()) && r.end == r.start
                + byte_len(source@),
            forall|other: Seq<char>|
                other != file@ ==> final(self).index_map.contains(other) == old(
                    self).index_map.contains(other),
            forall|other: Seq<char>|
                other != file@ && old(self).index_map.contains(other) ==> final(
                    self).index_map.value_of(other) == old(self).index_map.value_of(other),
    {
        let ghost files = self.files();
        let ghost index = self.index_map.value_of(file@) as int;
        match self.get_filemap(file) {
            Some(found) => {
                if found.src == source {
                    proof {
                        let i = files.index_of(record_of(found));
                        assert(covered_at(files, i, index) && files[i].2 == source@);
                    }
                    return found;
                }
                proof {
                    if spaced(files) {
                        let at = files.index_of(record_of(found));
                        assert forall|i: int| covered_at(files, i, index) implies (
                        #[trigger] files[i]).2 != source@ by {
                            lemma_one_file_covers(files, i, at, index);
                        }
                    }
                }
            },
            None => {},
        }
        let added = add_file(&mut self.code_map, file.to_owned(), source);
        self.index_map.insert(file.to_owned(), added.start);
        proof {
            assert(files.push(record_of(added)).len() != files.len());
            assert(files.push(record_of(added))[files.len() as int] == record_of(added));
            assert(covered_at(self.files(), files.len() as int, added.start as int));
            if spaced(files) && next_start(files) + byte_len(source@) <= u32::MAX {
                lemma_spaced_push(files, record_of(added));
            }
        }
        added
    }

    /// Gives the file that is entered under the name `file` the text `source`.
    /// `None` is returned, and nothing changes, if no file is entered under the
    /// name, if the files of the code map are not spaced, or if no file covers
    /// the position that is kept for the name. Otherwise the file that covers
    /// that position holds `source` from now on, every other file is as it was,
    /// and the name leads to the start of the file.
    pub fn update_filemap(&mut self, file: &str, source: String) -> (r: Option<SourceFile>)
        requires
            old(self).wf(),
        ensures
            final(self).wf(),
            r is Some <==> {
                &&& old(self).index_map.contains(file@)
                &&& spaced(old(self).files())
                &&& covered(old(self).files(), old(self).index_map.value_of(file@) as int)
            },
            final(self).errors == old(self).errors,
            final(self).module_states == old(self).module_states,
            match r {
                Some(updated) => {
                    &&& updated.src@ == source@
                    &&& old(self).index_map.contains(file@)
                    &&& spaced(old(self).files())
                    &&& final(self).index_map.contains(file@)
                    &&& final(self).index_map.value_of(file@) == updated.start
                    &&& exists|i: int|
                        {
                            &&& covered_at(
                                old(self).files(),
                                i,
                                old(self).index_map.value_of(file@) as int,
                            )
                            &&& #[trigger] file_replaced(
                                old(self).files(),
                                final(self).files(),
                                i,
                                record_of(updated),
                            )
                        }
                },
                None => {
                    &&& final(self).files() == old(self).files()
                    &&& final(self).index_map == old(self).index_map
                    &&& old(self).index_map.contains(file@) && spaced(old(self).files())
                        ==> !covered(
                        old(self).files(),
                        old(self).index_map.value_of(file@) as int,
                    )
                },
            },
    {
        let index = match self.index_map.get(file) {
            Some(index) => *index,
            None => {
                return None;
            },
        };
        if !self.is_spaced() {
            return None;
        }
        let ghost files = self.files();
        match update_file(&mut self.code_map, index, source) {
            Some(updated) => {
                self.index_map.insert(file.to_owned(), updated.start);
                proof {
                    let i = choose|i: int|
                        covered_at(files, i, index as int) && #[trigger] file_replaced(
                            files,
                            self.files(),
                            i,
                            record_of(updated),
                        );
                    assert(file_replaced(files, self.files(), i, record_of(updated)));
                }
                Some(updated)
            },
            None => None,
        }
    }
}

} // verus!
