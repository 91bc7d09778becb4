//! Memoized results and the inputs they were computed from.
//!
//! The inputs of every query are the revisions of the modules and the number
//! of modules that are known. A result is stored with what its computation has
//! read of them, and it is valid for as long as all of that is unchanged.
use crate::error::Error;
use crate::table::Table;
use std::sync::Arc;
use vstd::prelude::*;

verus! {

/// The revision that a module had when it was read.
#[derive(Debug, PartialEq, Eq, Hash)]
pub struct Stamp {
    pub module: String,
    pub revision: usize,
}

/// What a computation has read of the inputs.
#[derive(Debug, PartialEq, Eq, Hash)]
pub struct Reads {
    /// The revisions of modules.
    pub stamps: Vec<Stamp>,
    /// The number of modules, each time it was read.
    pub names: Vec<usize>,
}

/// A result with what its computation has read. The result is absent once it
/// has been swept.
pub struct Memo<V> {
    pub value: Option<Result<Arc<V>, Error>>,
    pub reads: Reads,
}

/// The results of one query, by module.
pub struct Cache<V> {
    entries: Table<Memo<V>>,
}

/// The revision of `module`: `0` for a module that is not known.
pub open spec fn revision_of(states: Table<usize>, module: Seq<char>) -> usize {
    if states.contains(module) {
        states.value_of(module)
    } else {
        0
    }
}

/// Whether everything that was read is as it was when it was read.
pub open spec fn current(reads: Reads, states: Table<usize>) -> bool {
    &&& forall|i: int|
        0 <= i < reads.stamps.len() ==> revision_of(states, (#[trigger] reads.stamps[i]).module@)
            == reads.stamps[i].revision
    &&& forall|i: int| 0 <= i < reads.names.len() ==> #[trigger] reads.names[i] == states.spec_len()
}

/// Whether `a` and `b` hold the same, in the same order.
pub open spec fn same_reads(a: Reads, b: Reads) -> bool {
    a.stamps@ == b.stamps@ && a.names@ == b.names@
}

/// Whether `whole` holds what `a` holds, followed by what `b` holds.
pub open spec fn reads_both(whole: Reads, a: Reads, b: Reads) -> bool {
    whole.stamps@ == a.stamps@ + b.stamps@ && whole.names@ == a.names@ + b.names@
}

/// Whether `reads` holds a revision of `module`.
pub open spec fn reads_module(reads: Reads, module: Seq<char>) -> bool {
    exists|i: int| 0 <= i < reads.stamps.len() && (#[trigger] reads.stamps[i]).module@ == module
}

/// What holds the same has read the same modules.
pub proof fn lemma_reads_module_same(a: Reads, b: Reads, module: Seq<char>)
    requires
        same_reads(a, b),
        reads_module(b, module),
    ensures
        reads_module(a, module),
{
    let i = choose|i: int|
        0 <= i < b.stamps.len() && (#[trigger] b.stamps[i]).module@ == module;
    assert(a.stamps[i].module@ == module);
}

/// What holds two lists of reads has read every module that either has read.
pub proof fn lemma_reads_module_both(whole: Reads, a: Reads, b: Reads, module: Seq<char>)
    requires
        reads_both(whole, a, b),
        reads_module(a, module) || reads_module(b, module),
    ensures
        reads_module(whole, module),
{
    if reads_module(a, module) {
        let i = choose|i: int|
            0 <= i < a.stamps.len() && (#[trigger] a.stamps[i]).module@ == module;
        assert(whole.stamps[i] == a.stamps[i]);
    } else {
        let i = choose|i: int|
            0 <= i < b.stamps.len() && (#[trigger] b.stamps[i]).module@ == module;
        assert(whole.stamps[a.stamps.len() + i] == b.stamps[i]);
    }
}

/// `std::sync::Arc::clone`: another pointer to the same value.
#[verifier::external_body]
fn share<V>(value: &Arc<V>) -> (r: Arc<V>)
    ensures
        r == *value,
{
    value.clone()
}

/// A copy of a result that shares the value.
pub fn clone_result<V>(value: &Result<Arc<V>, Error>) -> (r: Result<Arc<V>, Error>)
    ensures
        r == *value,
{
    match value {
        Ok(v) => Ok(share(v)),
        Err(e) => Err(e.clone()),
    }
}

/// The revision of `module`.
pub fn revision(states: &Table<usize>, module: &str) -> (r: usize)
    requires
        states.wf(),
    ensures
        r == revision_of(*states, module@),
{
    match states.get(module) {
        Some(r) => *r,
        None => 0,
    }
}

impl Reads {
    /// Nothing read.
    pub fn new() -> (r: Reads)
        ensures
            r.stamps@.len() == 0,
            r.names@.len() == 0,
    {
        Reads { stamps: Vec::new(), names: Vec::new() }
    }

    /// Whether everything that was read is as it was.
    pub fn is_current(&self, states: &Table<usize>) -> (r: bool)
        requires
            states.wf(),
        ensures
            r == current(*self, *states),
    {
        let mut i: usize = 0;
        while i < self.stamps.len()
            invariant
                states.wf(),
                i <= self.stamps.len(),
                forall|j: int|
                    0 <= j < i ==> revision_of(*states, (#[trigger] self.stamps[j]).module@)
                        == self.stamps[j].revision,
            decreases self.stamps.len() - i,
        {
            if revision(states, self.stamps[i].module.as_str()) != self.stamps[i].revision {
                return false;
            }
            i += 1;
        }
        let n = states.len();
        let mut k: usize = 0;
        while k < self.names.len()
            invariant
                k <= self.names.len(),
                n == states.spec_len(),
                forall|j: int| 0 <= j < k ==> #[trigger] self.names[j] == n,
            decreases self.names.len() - k,
        {
            if self.names[k] != n {
                return false;
            }
            k += 1;
        }
        true
    }

    /// Adds the revision that `module` has now.
    pub fn read_module(&mut self, states: &Table<usize>, module: &str)
        requires
            states.wf(),
        ensures
            final(self).names == old(self).names,
            final(self).stamps@.len() == old(self).stamps@.len() + 1,
            final(self).stamps@.drop_last() == old(self).stamps@,
            final(self).stamps@.last().module@ == module@,
            final(self).stamps@.last().revision == revision_of(*states, module@),
    {
        let stamp = Stamp { module: module.to_owned(), revision: revision(states, module) };
        self.stamps.push(stamp);
        proof {
            assert(self.stamps@.drop_last() =~= old(self).stamps@);
        }
    }

    /// Adds the number of modules that are known now.
    pub fn read_names(&mut self, states: &Table<usize>)
        requires
            states.wf(),
        ensures
            final(self).stamps == old(self).stamps,
            final(self).names@ == old(self).names@.push(states.spec_len() as usize),
    {
        self.names.push(states.len());
    }

    /// Adds what `other` has read.
    pub fn merge(&mut self, other: &Reads)
        ensures
            reads_both(*final(self), *old(self), *other),
    {
        let mut i: usize = 0;
        while i < other.stamps.len()
            invariant
                i <= other.stamps.len(),
                self.names == old(self).names,
                self.stamps@ == old(self).stamps@ + other.stamps@.take(i as int),
            decreases other.stamps.len() - i,
        {
            let stamp = &other.stamps[i];
            self.stamps.push(Stamp { module: stamp.module.clone(), revision: stamp.revision });
            proof {
                assert(other.stamps@.take(i as int + 1) == other.stamps@.take(i as int).push(
                    other.stamps@[i as int],
                ));
            }
            i += 1;
        }
        proof {
            assert(other.stamps@.take(other.stamps.len() as int) == other.stamps@);
        }
        let mut k: usize = 0;
        while k < other.names.len()
            invariant
                k <= other.names.len(),
                self.stamps@ == old(self).stamps@ + other.stamps@,
                self.names@ == old(self).names@ + other.names@.take(k as int),
            decreases other.names.len() - k,
        {
            self.names.push(other.names[k]);
            proof {
                assert(other.names@.take(k as int + 1) == other.names@.take(k as int).push(
                    other.names@[k as int],
                ));
            }
            k += 1;
        }
        proof {
            assert(other.names@.take(other.names.len() as int) == other.names@);
        }
    }

    /// A copy of what was read.
    pub fn duplicate(&self) -> (r: Reads)
        ensures
            same_reads(r, *self),
    {
        let mut r = Reads::new();
        r.merge(self);
        proof {
            assert(r.stamps@ =~= self.stamps@);
            assert(r.names@ =~= self.names@);
        }
        r
    }
}

/// Dependencies: what a computation has read, together with what the results
/// it used had read, is current exactly when both are. A result is therefore
/// valid only as long as every result that it was computed from is.
pub proof fn lemma_current_merge(a: Reads, b: Reads, both: Reads, states: Table<usize>)
    requires
        reads_both(both, a, b),
    ensures
        current(both, states) <==> current(a, states) && current(b, states),
{
    if current(both, states) {
        assert forall|i: int| 0 <= i < a.stamps.len() implies revision_of(
            states,
            (#[trigger] a.stamps[i]).module@,
        ) == a.stamps[i].revision by {
            assert(both.stamps[i] == a.stamps[i]);
        }
        assert forall|i: int| 0 <= i < b.stamps.len() implies revision_of(
            states,
            (#[trigger] b.stamps[i]).module@,
        ) == b.stamps[i].revision by {
            assert(both.stamps[a.stamps.len() + i] == b.stamps[i]);
        }
        assert forall|i: int| 0 <= i < a.names.len() implies #[trigger] a.names[i]
            == states.spec_len() by {
            assert(both.names[i] == a.names[i]);
        }
        assert forall|i: int| 0 <= i < b.names.len() implies #[trigger] b.names[i]
            == states.spec_len() by {
            assert(both.names[a.names.len() + i] == b.names[i]);
        }
    }
    if current(a, states) && current(b, states) {
        assert forall|i: int| 0 <= i < both.stamps.len() implies revision_of(
            states,
            (#[trigger] both.stamps[i]).module@,
        ) == both.stamps[i].revision by {
            if i < a.stamps.len() {
                assert(both.stamps[i] == a.stamps[i]);
            } else {
                assert(both.stamps[i] == b.stamps[i - a.stamps.len()]);
            }
        }
        assert forall|i: int| 0 <= i < both.names.len() implies #[trigger] both.names[i]
            == states.spec_len() by {
            if i < a.names.len() {
                assert(both.names[i] == a.names[i]);
            } else {
                assert(both.names[i] == b.names[i - a.names.len()]);
            }
        }
    }
}

/// Idempotence: what was read stays current as long as every module that was
/// read keeps its revision and, where the number of modules was read, that
/// number stays the same.
pub proof fn lemma_current_while_unchanged(reads: Reads, before: Table<usize>, after: Table<usize>)
    requires
        current(reads, before),
        forall|i: int|
            0 <= i < reads.stamps.len() ==> revision_of(after, (#[trigger] reads.stamps[i]).module@)
                == revision_of(before, reads.stamps[i].module@),
        reads.names.len() > 0 ==> after.spec_len() == before.spec_len(),
    ensures
        current(reads, after),
{
}

/// Invalidation: what has read a module is no longer current once the module
/// has another revision.
pub proof fn lemma_stale_after_change(
    reads: Reads,
    before: Table<usize>,
    after: Table<usize>,
    module: Seq<char>,
)
    requires
        current(reads, before),
        reads_module(reads, module),
        revision_of(after, module) != revision_of(before, module),
    ensures
        !current(reads, after),
{
    let i = choose|i: int|
        0 <= i < reads.stamps.len() && (#[trigger] reads.stamps[i]).module@ == module;
    assert(revision_of(before, reads.stamps[i].module@) == reads.stamps[i].revision);
}

impl<V> Cache<V> {
    /// No module has two entries.
    pub closed spec fn wf(&self) -> bool {
        self.entries.wf()
    }

    /// Whether `module` has an entry.
    pub closed spec fn has(&self, module: Seq<char>) -> bool {
        self.entries.contains(module)
    }

    /// The entry of `module`; meaningful when it has one.
    pub closed spec fn memo(&self, module: Seq<char>) -> Memo<V> {
        self.entries.value_of(module)
    }

    /// The result of `module` that is valid under `states`, if there is one: the
    /// entry holds a result, and what it has read is current.
    pub open spec fn valid(&self, module: Seq<char>, states: Table<usize>) -> Option<
        Result<Arc<V>, Error>,
    > {
        if self.has(module) && self.memo(module).value is Some && current(
            self.memo(module).reads,
            states,
        ) {
            self.memo(module).value
        } else {
            None
        }
    }

    /// Whether every entry has read the module that it is the entry of. The
    /// result of such an entry is not valid any more once its module has
    /// another revision.
    pub open spec fn reads_own(&self) -> bool {
        forall|m: Seq<char>| #[trigger] self.has(m) ==> reads_module(self.memo(m).reads, m)
    }

    /// A cache without entries.
    pub fn new() -> (c: Self)
        ensures
            c.wf(),
            forall|m: Seq<char>| !c.has(m),
    {
        Cache { entries: Table::new() }
    }

    /// The valid result of `module` and what its computation has read.
    pub fn lookup(&self, module: &str, states: &Table<usize>) -> (r: Option<
        (Result<Arc<V>, Error>, Reads),
    >)
        requires
            self.wf(),
            states.wf(),
        ensures
            match r {
                Some((value, reads)) => self.valid(module@, *states) == Some(value) && same_reads(
                    reads,
                    self.memo(module@).reads,
                ),
                None => self.valid(module@, *states) is None,
            },
    {
        match self.entries.get(module) {
            Some(memo) => match &memo.value {
                Some(value) => {
                    if memo.reads.is_current(states) {
                        Some((clone_result(value), memo.reads.duplicate()))
                    } else {
                        None
                    }
                },
                None => None,
            },
            None => None,
        }
    }

    /// Stores `value` as the result of `module`, in place of the entry that
    /// `module` had. The other entries stay as they are.
    pub fn store(&mut self, module: String, value: Result<Arc<V>, Error>, reads: Reads)
        requires
            old(self).wf(),
        ensures
            final(self).wf(),
            final(self).has(module@),
            final(self).memo(module@) == (Memo { value: Some(value), reads }),
            forall|m: Seq<char>| m != module@ ==> final(self).has(m) == old(self).has(m),
            forall|m: Seq<char>|
                m != module@ && old(self).has(m) ==> final(self).memo(m) == old(self).memo(m),
            old(self).reads_own() && reads_module(reads, module@) ==> final(self).reads_own(),
    {
        self.entries.insert(module, Memo { value: Some(value), reads });
        proof {
            if old(self).reads_own() && reads_module(reads, module@) {
                assert forall|m: Seq<char>| #[trigger] self.has(m) implies reads_module(
                    self.memo(m).reads,
                    m,
                ) by {
                    if m != module@ {
                        assert(old(self).has(m));
                    }
                }
            }
        }
    }

    /// Discards every result and keeps what was read: afterwards no module has
    /// a valid result, and every module that had an entry still has one.
    pub fn sweep(&mut self)
        requires
            old(self).wf(),
        ensures
            final(self).wf(),
            forall|m: Seq<char>| final(self).has(m) == old(self).has(m),
            forall|m: Seq<char>| #[trigger]
                final(self).has(m) ==> final(self).memo(m).value is None && same_reads(
                    final(self).memo(m).reads,
                    old(self).memo(m).reads,
                ),
            old(self).reads_own() ==> final(self).reads_own(),
    {
        let ghost before = self.entries;
        let mut swept: Table<Memo<V>> = Table::new();
        let n = self.entries.len();
        let mut i: usize = 0;
        while i < n
            invariant
                self.entries == before,
                before.wf(),
                swept.wf(),
                n == before.spec_len(),
                i <= n,
                swept.keys() == before.keys().take(i as int),
                swept.values().len() == i,
                forall|j: int|
                    0 <= j < i ==> (#[trigger] swept.values()[j]).value is None && same_reads(
                        swept.values()[j].reads,
                        before.values()[j].reads,
                    ),
            decreases n - i,
        {
            let key = self.entries.key_at(i).clone();
            let reads = self.entries.value_at(i).reads.duplicate();
            proof {
                before.lemma_index_of(i as int);
                assert(!swept.contains(key@)) by {
                    if swept.keys().contains(key@) {
                        let j = swept.keys().index_of(key@);
                        assert(before.keys()[j] == before.keys()[i as int]);
                    }
                }
                assert(before.keys().take(i as int + 1) == before.keys().take(i as int).push(
                    before.keys()[i as int],
                ));
            }
            swept.insert(key, Memo { value: None, reads });
            i += 1;
        }
        proof {
            assert(before.keys().take(n as int) == before.keys());
        }
        self.entries = swept;
        proof {
            assert forall|m: Seq<char>| #[trigger]
                self.has(m) implies self.memo(m).value is None && same_reads(
                self.memo(m).reads,
                old(self).memo(m).reads,
            ) by {
                let j = before.keys().index_of(m);
                assert(swept.keys()[j] == m);
            }
            if old(self).reads_own() {
                assert forall|m: Seq<char>| #[trigger] self.has(m) implies reads_module(
                    self.memo(m).reads,
                    m,
                ) by {
                    assert(old(self).has(m));
                    lemma_reads_module_same(self.memo(m).reads, old(self).memo(m).reads, m);
                }
            }
        }
    }
}

} // verus!
