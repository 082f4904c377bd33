//! The sink that drains intents into the replicated log.

use vstd::prelude::*;

use crate::command::{item_views, ItemView};
use crate::command::IncorporateItem;
use crate::committer_pipeline::intent_items;
use crate::committer_pipeline::{intents_to_items, submit_failed};
use crate::error::log_error_text;
use crate::error::LogError;
use crate::intent::{intent_views, IntentView};
use crate::intent::{IntentError, WriteIntent};
use crate::intent_committer::IncorporationSink;

verus! {

/// Batches of items.
pub type ItemBatches = Seq<Seq<ItemView>>;

/// Errors of a log.
pub type LogErrors = Seq<LogError>;

/// What the sink needs of the log: to append a batch of items in one round.
pub trait IntentLogAppender {
    /// The batches appended so far, each of which was answered with success.
    spec fn appended(&self) -> ItemBatches;

    /// The errors that other appends failed with.
    spec fn refusals(&self) -> LogErrors;

    /// The log is in order.
    spec fn ready(&self) -> bool;

    /// No append fails.
    spec fn reliable(&self) -> bool;

    /// Appends a batch as one command.
    fn append_intents(&mut self, items: Vec<IncorporateItem>) -> (r: Result<(), LogError>)
        requires
            old(self).ready(),
        ensures
            final(self).ready(),
            final(self).reliable() == old(self).reliable(),
            old(self).reliable() ==> r is Ok,
            r is Ok ==> final(self).appended() == old(self).appended().push(item_views(items@))
                && final(self).refusals() == old(self).refusals(),
            r matches Err(e) ==> final(self).appended() == old(self).appended()
                && final(self).refusals() == old(self).refusals().push(e),
    ;
}

/// An appender that records the batches that it is handed, until it fails.
pub struct RecordingAppender {
    /// The batches, as they came.
    pub appends: Vec<Vec<IncorporateItem>>,
    /// Whether it fails now.
    pub failing: bool,
    /// The errors that it failed with.
    pub refused: Ghost<Seq<LogError>>,
}

/// The batches of a recording appender.
pub open spec fn recorded_batches(s: Seq<Vec<IncorporateItem>>) -> Seq<Seq<ItemView>> {
    Seq::new(s.len(), |i: int| item_views(s[i]@))
}

impl RecordingAppender {
    /// An appender that has recorded nothing.
    pub fn new() -> (r: Self)
        ensures
            r.ready(),
            r.reliable(),
            r.appended() == Seq::<Seq<ItemView>>::empty(),
            r.refusals() == Seq::<LogError>::empty(),
    {
        let r = RecordingAppender {
            appends: Vec::new(),
            failing: false,
            refused: Ghost(Seq::empty()),
        };
        assert(r.appended() =~= Seq::<Seq<ItemView>>::empty());
        r
    }
}

impl IntentLogAppender for RecordingAppender {
    open spec fn appended(&self) -> Seq<Seq<ItemView>> {
        recorded_batches(self.appends@)
    }

    open spec fn refusals(&self) -> Seq<LogError> {
        self.refused@
    }

    open spec fn ready(&self) -> bool {
        true
    }

    open spec fn reliable(&self) -> bool {
        !self.failing
    }

    fn append_intents(&mut self, items: Vec<IncorporateItem>) -> (r: Result<(), LogError>)
        ensures
            final(self).failing == old(self).failing,
            old(self).failing ==> r == Err::<(), LogError>(LogError::Unavailable)
                && final(self).appends == old(self).appends,
    {
        let ghost batch = items@;
        if self.failing {
            proof {
                self.refused@ = self.refused@.push(LogError::Unavailable);
            }
            return Err(LogError::Unavailable);
        }
        self.appends.push(items);
        assert(self.appended() =~= old(self).appended().push(item_views(batch)));
        Ok(())
    }
}

/// Drains intents into a log, one command for each batch.
pub struct RaftLogIncorporationSink<A: IntentLogAppender> {
    /// The log.
    pub appender: A,
    /// The batches taken so far.
    pub handed: Ghost<Seq<Seq<IntentView>>>,
    /// The errors that others were refused with.
    pub refused: Ghost<Seq<IntentError>>,
}

/// What batches of intents leave in the log: the items of each, and nothing of one
/// that is empty.
pub open spec fn logged(batches: Seq<Seq<IntentView>>) -> Seq<Seq<ItemView>>
    decreases batches.len(),
{
    if batches.len() == 0 {
        Seq::empty()
    } else if batches.last().len() == 0 {
        logged(batches.drop_last())
    } else {
        logged(batches.drop_last()).push(intent_items(batches.last()))
    }
}

/// Whether a log ends with these batches.
pub open spec fn ends_with(log: Seq<Seq<ItemView>>, tail: Seq<Seq<ItemView>>) -> bool {
    tail.len() <= log.len() && log.skip(log.len() - tail.len()) == tail
}

impl<A: IntentLogAppender> RaftLogIncorporationSink<A> {
    /// A sink over a log.
    pub fn new(appender: A) -> (r: Self)
        requires
            appender.ready(),
        ensures
            r.appender == appender,
            r.ready(),
            r.reliable() == appender.reliable(),
            r.batches() == Seq::<Seq<IntentView>>::empty(),
            r.refusals() == Seq::<IntentError>::empty(),
    {
        let r = RaftLogIncorporationSink {
            appender,
            handed: Ghost(Seq::empty()),
            refused: Ghost(Seq::empty()),
        };
        assert(appender.appended().skip(appender.appended().len() as int) =~= logged(r.handed@));
        r
    }
}

impl<A: IntentLogAppender> IncorporationSink for RaftLogIncorporationSink<A> {
    open spec fn batches(&self) -> Seq<Seq<IntentView>> {
        self.handed@
    }

    open spec fn refusals(&self) -> Seq<IntentError> {
        self.refused@
    }

    /// The log is in order, and ends with what the sink took.
    open spec fn ready(&self) -> bool {
        self.appender.ready() && ends_with(self.appender.appended(), logged(self.handed@))
    }

    open spec fn reliable(&self) -> bool {
        self.appender.reliable()
    }

    /// Appends a batch as one command. An empty batch appends nothing; a failed
    /// append is reported with the text of its cause.
    fn incorporate(&mut self, ordered: &[WriteIntent]) -> (r: Result<(), IntentError>)
        ensures
            ordered@.len() == 0 ==> r is Ok && final(self).appender == old(self).appender,
            r is Ok && ordered@.len() > 0 ==> final(self).appender.appended() == old(
                self,
            ).appender.appended().push(intent_items(intent_views(ordered@))),
            r is Ok ==> final(self).appender.refusals() == old(self).appender.refusals(),
            r is Err ==> final(self).appender.appended() == old(self).appender.appended(),
            r matches Err(e) ==> {
                let refusals = final(self).appender.refusals();
                &&& refusals.len() == old(self).appender.refusals().len() + 1
                &&& refusals.drop_last() == old(self).appender.refusals()
                &&& e is Incorporate
                &&& e->Incorporate_0@ == log_error_text(refusals.last())
            },
    {
        let ghost views = intent_views(ordered@);
        let ghost taken = self.handed@;
        let ghost log = self.appender.appended();
        assert(taken.push(views).drop_last() =~= taken);
        if ordered.len() == 0 {
            proof {
                self.handed@ = taken.push(views);
            }
            return Ok(());
        }
        let items = intents_to_items(ordered);
        match self.appender.append_intents(items) {
            Ok(_) => {
                proof {
                    self.handed@ = taken.push(views);
                    let n = log.len() - logged(taken).len();
                    assert(log.push(intent_items(views)).skip(n) =~= log.skip(n).push(
                        intent_items(views),
                    ));
                }
                Ok(())
            },
            Err(e) => {
                let refusal = submit_failed(&e);
                proof {
                    self.refused@ = self.refused@.push(refusal);
                    assert(self.appender.refusals().drop_last() =~= old(self).appender.refusals());
                }
                Err(refusal)
            },
        }
    }
}

} // verus!
