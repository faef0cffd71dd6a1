//! Progress of a long computation, as a line of text.

use vstd::prelude::*;

use crate::text::{concat, decimal, decimal_string};
use crate::trace;
use crate::trace::base::{error_label, info_label, labelled, ok_label};

verus! {

/// The message that announces `total` jobs.
pub open spec fn total_text(total: u128) -> Seq<char> {
    "Total job to process: "@ + decimal(total as nat)
}

/// The message that reports `done` of `total` jobs, with the percentage
/// already written out as `percent`.
pub open spec fn progress_text(done: u128, total: u128, percent: Seq<char>) -> Seq<char> {
    "In Progress ( "@ + decimal(done as nat) + " / "@ + decimal(total as nat) + " ) [ "@ + percent
        + " % ]"@
}

/// The calls that change a `ProgressHolder`.
pub enum ProgressCall {
    /// `ProgressHolder::set_total`.
    SetTotal,
    /// `ProgressHolder::feedback`.
    Feedback,
    /// `ProgressHolder::feedback_on_err`.
    FeedbackOnErr,
}

/// The error flag after `call`, from `flag` before it.
pub open spec fn flag_after_call(flag: bool, call: ProgressCall) -> bool {
    match call {
        ProgressCall::FeedbackOnErr => true,
        _ => flag,
    }
}

/// The error flag after `calls` in turn, from `flag` before them.
pub open spec fn flag_after_calls(flag: bool, calls: Seq<ProgressCall>) -> bool
    decreases calls.len(),
{
    if calls.len() == 0 {
        flag
    } else {
        flag_after_call(flag_after_calls(flag, calls.drop_last()), calls.last())
    }
}

/// The error flag is sticky: after any calls on a new holder it is set
/// exactly when one of them reported an error.
pub proof fn lemma_error_flag_sticky(calls: Seq<ProgressCall>)
    ensures
        flag_after_calls(false, calls) <==> exists|i: int|
            0 <= i < calls.len() && #[trigger] calls[i] == ProgressCall::FeedbackOnErr,
    decreases calls.len(),
{
    if calls.len() > 0 {
        let init = calls.drop_last();
        lemma_error_flag_sticky(init);
        if exists|i: int| 0 <= i < init.len() && #[trigger] init[i] == ProgressCall::FeedbackOnErr {
            let i = choose|i: int| 0 <= i < init.len() && #[trigger] init[i] == ProgressCall::FeedbackOnErr;
            assert(calls[i] == init[i]);
        }
        if exists|i: int| 0 <= i < calls.len() && #[trigger] calls[i] == ProgressCall::FeedbackOnErr {
            let i = choose|i: int| 0 <= i < calls.len() && #[trigger] calls[i] == ProgressCall::FeedbackOnErr;
            if i < init.len() {
                assert(init[i] == calls[i]);
            }
        }
    }
}

/// How far a long computation has come, as a line of text.
#[derive(Debug)]
pub struct ProgressHolder {
    total: u128,
    done: u128,
    /// The latest progress or error line.
    pub state: String,
    with_error: bool,
}

impl ProgressHolder {
    /// The number of jobs.
    pub closed spec fn total(&self) -> u128 {
        self.total
    }

    /// The number of jobs done.
    pub closed spec fn done(&self) -> u128 {
        self.done
    }

    /// The latest line.
    pub closed spec fn state_text(&self) -> Seq<char> {
        self.state@
    }

    /// Whether an error has been reported.
    pub closed spec fn has_error(&self) -> bool {
        self.with_error
    }

    /// No jobs, none done, no error and an empty line.
    pub fn new() -> (p: ProgressHolder)
        ensures
            p.total() == 0,
            p.done() == 0,
            !p.has_error(),
            p.has_error() == flag_after_calls(false, Seq::empty()),
            p.state_text() == Seq::<char>::empty(),
    {
        ProgressHolder { total: 0, done: 0, with_error: false, state: String::new() }
    }

    /// Sets the number of jobs and announces it on a success line.
    pub fn set_total(&mut self, total: u128)
        ensures
            final(self).total() == total,
            final(self).done() == old(self).done(),
            final(self).has_error() == old(self).has_error(),
            final(self).has_error() == flag_after_call(old(self).has_error(), ProgressCall::SetTotal),
            final(self).state_text() == labelled(ok_label(), 70, total_text(total)),
    {
        self.total = total;
        let count = decimal_string(total);
        let text = concat("Total job to process: ", count.as_str());
        self.state = trace::string::ok(text.as_str());
    }

    /// Records that `current_step` jobs are done and reports it on an
    /// information line, with the percentage written out as `percent`.
    pub fn feedback(&mut self, current_step: u128, percent: &str)
        ensures
            final(self).total() == old(self).total(),
            final(self).done() == current_step,
            final(self).has_error() == old(self).has_error(),
            final(self).has_error() == flag_after_call(old(self).has_error(), ProgressCall::Feedback),
            final(self).state_text() == labelled(
                info_label(),
                39,
                progress_text(current_step, old(self).total(), percent@),
            ),
    {
        self.done = current_step;
        let done = decimal_string(self.done);
        let total = decimal_string(self.total);
        let a = concat("In Progress ( ", done.as_str());
        let b = concat(a.as_str(), " / ");
        let c = concat(b.as_str(), total.as_str());
        let d = concat(c.as_str(), " ) [ ");
        let e = concat(d.as_str(), percent);
        let f = concat(e.as_str(), " % ]");
        self.state = trace::string::info(f.as_str());
    }

    /// Reports `msg` on an error line and records that an error happened.
    pub fn feedback_on_err(&mut self, msg: &str)
        ensures
            final(self).total() == old(self).total(),
            final(self).done() == old(self).done(),
            final(self).has_error(),
            final(self).has_error() == flag_after_call(
                old(self).has_error(),
                ProgressCall::FeedbackOnErr,
            ),
            final(self).state_text() == labelled(error_label(), 160, msg@),
    {
        self.state = trace::string::error(msg);
        self.with_error = true;
    }

    /// Whether an error has been reported.
    pub fn is_err(&self) -> (r: bool)
        ensures
            r == self.has_error(),
    {
        self.with_error
    }

    /// The latest line.
    pub fn get_err(&self) -> (s: &String)
        ensures
            s@ == self.state_text(),
    {
        &self.state
    }
}

} // verus!
