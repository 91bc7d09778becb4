//! Expansions that have been started and not yet joined.
//!
//! An expansion is either finished when its future is made, and then the
//! future holds the result, or it is running, and then the future is the
//! receiving half of a one-shot channel of the futures crate. Whoever computes
//! a running expansion keeps the sending half and sends the result when it is
//! there, from whatever thread and at whatever time; the expander waits for
//! all running expansions at once.
use crate::ast::SpannedExpr;
use crate::error::{Error, ErrorKind};
use crate::table::last_first;
use futures::sync::oneshot::{channel, Canceled, Receiver, Sender};
use futures::{stream, Future, Stream};
use vstd::prelude::*;

verus! {

/// `Canceled` of `futures::sync::oneshot`: the error of a receiver whose sender
/// is gone.
#[verifier::external_type_specification]
#[verifier::external_body]
pub struct ExCanceled(Canceled);

/// `Receiver` of `futures::sync::oneshot`: a future that resolves with what is
/// sent through its channel.
#[verifier::external_type_specification]
#[verifier::external_body]
#[verifier::reject_recursive_types(T)]
pub struct ExReceiver<T>(Receiver<T>);

/// `Sender` of `futures::sync::oneshot`: the half of a channel that a value is
/// sent through, once.
#[verifier::external_type_specification]
#[verifier::external_body]
#[verifier::reject_recursive_types(T)]
pub struct ExSender<T>(Sender<T>);

/// What an expansion comes to: the replacement, or why there is none.
pub type MacroResult = Result<SpannedExpr, Error>;

/// How far an expansion is: finished with its result when its future was made,
/// or running, with the receiving half of the channel that its result comes
/// through.
enum Progress {
    Finished(MacroResult),
    Running(Receiver<MacroResult>),
}

/// The expansion of one macro invocation, which may still be running.
pub struct MacroFuture {
    progress: Progress,
}

/// The sending half of [`MacroFuture::channel`].
pub struct MacroPromise {
    sender: Sender<MacroResult>,
}

/// Number of expansions of `futures` that were running when their futures were
/// made.
pub open spec fn running_in(futures: Seq<MacroFuture>) -> nat
    decreases futures.len(),
{
    if futures.len() == 0 {
        0
    } else if futures.last().finished() is None {
        running_in(futures.drop_last()) + 1
    } else {
        running_in(futures.drop_last())
    }
}

/// Among the first futures there are no more running expansions than among all.
pub proof fn lemma_running_in_prefix(futures: Seq<MacroFuture>, i: int)
    requires
        0 <= i <= futures.len(),
    ensures
        running_in(futures.take(i)) <= running_in(futures),
        i < futures.len() ==> running_in(futures.take(i + 1)) == running_in(futures.take(i)) + (
        if futures[i].finished() is None {
            1nat
        } else {
            0nat
        }),
    decreases futures.len() - i,
{
    if i < futures.len() {
        lemma_running_in_prefix(futures, i + 1);
        assert(futures.take(i + 1).drop_last() == futures.take(i));
        assert(futures.take(i + 1).last() == futures[i]);
    } else {
        assert(futures.take(i) == futures);
    }
}

/// The result of an expansion whose promise was dropped before it was kept.
pub fn abandoned() -> (e: Error)
    ensures
        e.kind == ErrorKind::MacroExpansion,
        e.text@ == "the expansion was abandoned"@,
{
    Error::of_kind(ErrorKind::MacroExpansion, "the expansion was abandoned".to_owned())
}

/// What the receiving future fails with when the sender is gone.
pub fn abandoned_for(cause: Canceled) -> (e: Error)
    ensures
        e.kind == ErrorKind::MacroExpansion,
        e.text@ == "the expansion was abandoned"@,
{
    abandoned()
}

/// The result that was sent is the result of the expansion.
pub fn given(r: MacroResult) -> (out: MacroResult)
    ensures
        out == r,
{
    r
}

/// A replacement, as the item of a stream that does not fail.
pub fn expanded(e: SpannedExpr) -> (out: MacroResult)
    ensures
        out == Ok::<SpannedExpr, Error>(e),
{
    Ok(e)
}

/// A failure, as the item of a stream that does not fail.
pub fn failed(e: Error) -> (out: Result<MacroResult, ()>)
    ensures
        out == Ok::<MacroResult, ()>(Err(e)),
{
    Ok(Err(e))
}

/// `futures::sync::oneshot::channel`: a sender and the future that resolves
/// with what is sent through it.
#[verifier::external_body]
fn oneshot_channel() -> (Sender<MacroResult>, Receiver<MacroResult>) {
    channel()
}

/// `Sender::send` of `futures::sync::oneshot`: hands `result` to the receiving
/// future; `false` when that future is gone.
#[verifier::external_body]
fn send_result(sender: Sender<MacroResult>, result: MacroResult) -> bool {
    sender.send(result).is_ok()
}

/// `futures::stream::futures_ordered`, collected and waited for: blocks until
/// every receiver has resolved and returns one result for each of them, at the
/// position at which the receiver was submitted, whichever resolved first. A
/// receiver whose sender is gone resolves to a failure.
#[verifier::external_body]
fn wait_ordered(receivers: Vec<Receiver<MacroResult>>) -> (results: Vec<MacroResult>)
    ensures
        results.len() == receivers.len(),
{
    let joined = stream::futures_ordered(
        receivers.into_iter().map(
            |r| r.map_err(abandoned_for).and_then(given).map(expanded).or_else(failed),
        ),
    ).collect().wait();
    match joined {
        Ok(results) => results,
        Err(()) => Vec::new(),
    }
}

/// Waits for all expansions at once and returns one result for each of them,
/// at the position of its future. An expansion that was finished when its
/// future was made has the result it was made with; the others are waited for
/// together, in the order of their futures.
pub(crate) fn join_ordered(futures: Vec<MacroFuture>) -> (results: Vec<MacroResult>)
    ensures
        results.len() == futures.len(),
        forall|i: int|
            0 <= i < futures.len() ==> ((#[trigger] futures[i]).finished() matches Some(result)
                ==> results[i] == result),
{
    let ghost all = futures@;
    let mut rest = last_first(futures);
    let n = rest.len();
    let mut finished: Vec<Option<MacroResult>> = Vec::new();
    let mut running: Vec<Receiver<MacroResult>> = Vec::new();
    let mut i: usize = 0;
    proof {
        assert(all.take(0).len() == 0);
    }
    while i < n
        invariant
            n == all.len(),
            i <= n,
            rest.len() == n - i,
            forall|j: int| 0 <= j < rest.len() ==> rest@[j] == all[all.len() - 1 - j],
            finished.len() == i,
            forall|j: int| 0 <= j < i ==> finished@[j] == all[j].finished(),
            running.len() == running_in(all.take(i as int)),
        decreases n - i,
    {
        proof {
            lemma_running_in_prefix(all, i as int);
        }
        match rest.pop() {
            Some(future) => {
                match future.progress {
                    Progress::Finished(result) => {
                        finished.push(Some(result));
                    },
                    Progress::Running(receiver) => {
                        finished.push(None);
                        running.push(receiver);
                    },
                }
            },
            None => {},
        }
        i += 1;
    }
    proof {
        assert(all.take(n as int) == all);
    }
    let mut waited = last_first(wait_ordered(running));
    let mut slots = last_first(finished);
    let mut results: Vec<MacroResult> = Vec::new();
    let mut k: usize = 0;
    while k < n
        invariant
            n == all.len(),
            k <= n,
            slots.len() == n - k,
            forall|j: int|
                0 <= j < slots.len() ==> slots@[j] == all[all.len() - 1 - j].finished(),
            results.len() == k,
            forall|j: int|
                0 <= j < k ==> ((#[trigger] all[j]).finished() matches Some(result)
                    ==> results@[j] == result),
            waited.len() + running_in(all.take(k as int)) == running_in(all),
        decreases n - k,
    {
        proof {
            lemma_running_in_prefix(all, k as int);
            lemma_running_in_prefix(all, k as int + 1);
        }
        match slots.pop() {
            Some(Some(result)) => {
                results.push(result);
            },
            Some(None) => {
                match waited.pop() {
                    Some(result) => {
                        results.push(result);
                    },
                    None => {},
                }
            },
            None => {},
        }
        k += 1;
    }
    results
}

impl MacroFuture {
    /// The result of the expansion, if it was finished when the future was made.
    pub closed spec fn finished(&self) -> Option<MacroResult> {
        match self.progress {
            Progress::Finished(result) => Some(result),
            Progress::Running(_) => None,
        }
    }

    /// An expansion that finishes when the promise is kept. If the promise is
    /// dropped instead, the expansion fails.
    pub fn channel() -> (pair: (MacroPromise, MacroFuture))
        ensures
            pair.1.finished() is None,
    {
        let (sender, receiver) = oneshot_channel();
        (MacroPromise { sender }, MacroFuture { progress: Progress::Running(receiver) })
    }

    /// An expansion that is finished already, with `result`.
    pub fn ready(result: MacroResult) -> (future: MacroFuture)
        ensures
            future.finished() == Some(result),
    {
        MacroFuture { progress: Progress::Finished(result) }
    }
}

impl MacroPromise {
    /// Finishes the expansion with `result`. Returns `false` when nobody waits
    /// for it any more.
    pub fn complete(self, result: MacroResult) -> bool {
        send_result(self.sender, result)
    }
}

} // verus!
