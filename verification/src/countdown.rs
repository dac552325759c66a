//! The countdown of one interval: what it shows, what it writes, and how it
//! runs against a timer.

use crate::console::TextSink;
use crate::error::SessionError;
use crate::record::RecordStore;
use crate::session::Pomodoro;
use crate::text::{clock_face, lemma_joined, push_clock_face};
use crate::timer::{has_room, Timer, NANOS_PER_SEC};
use vstd::prelude::*;
use vstd::string::*;

verus! {

/// Nanoseconds in `minutes` minutes.
pub open spec fn span_of(minutes: nat) -> nat {
    minutes * 60 * (NANOS_PER_SEC as nat)
}

/// The line that shows `seconds` seconds left of a `label` interval. It starts
/// with a carriage return, so that it overwrites the line before it.
pub open spec fn progress_line(label: Seq<char>, seconds: nat) -> Seq<char> {
    "\r"@ + label + " time remaining: "@ + clock_face(seconds)
}

/// The line that ends a `label` interval.
pub open spec fn completion_line(label: Seq<char>) -> Seq<char> {
    "\n"@ + label + " session completed!\n"@
}

/// The progress lines for the remaining times `shown`, given in nanoseconds,
/// in their order. Each line shows the whole seconds of its time.
pub open spec fn progress_text(label: Seq<char>, shown: Seq<nat>) -> Seq<char>
    decreases shown.len(),
{
    if shown.len() == 0 {
        Seq::empty()
    } else {
        progress_text(label, shown.drop_last()) + progress_line(
            label,
            shown.last() / (NANOS_PER_SEC as nat),
        )
    }
}

/// All that a countdown writes: its progress lines, then one completion line.
pub open spec fn countdown_text(label: Seq<char>, shown: Seq<nat>) -> Seq<char> {
    progress_text(label, shown) + completion_line(label)
}

/// Whether `shown` can be the remaining times of one countdown over `span`
/// nanoseconds: each is above zero and at most `span`, and each is at least a
/// second less than the one before it.
pub open spec fn is_countdown(shown: Seq<nat>, span: nat) -> bool {
    &&& forall|i: int| 0 <= i < shown.len() ==> 0 < #[trigger] shown[i] <= span
    &&& forall|i: int, j: int|
        0 <= i <= j < shown.len() ==> #[trigger] shown[j] + (j - i) * NANOS_PER_SEC
            <= #[trigger] shown[i]
}

/// The remaining times that a countdown over `seconds` seconds shows on an
/// exact timer: one for each second, from the whole span down to one second.
pub open spec fn steady_countdown(seconds: nat) -> Seq<nat> {
    Seq::new(seconds, |i: int| ((seconds - i) * NANOS_PER_SEC) as nat)
}

/// On an exact timer a countdown over whole minutes shows one remaining time
/// for each second of its span: the first is the whole span, each later one
/// is a second less than the one before it, and the last is one second. None
/// is below zero and none grows.
pub proof fn lemma_steady_countdown(minutes: nat)
    ensures
        steady_countdown(minutes * 60).len() == minutes * 60,
        is_countdown(steady_countdown(minutes * 60), span_of(minutes)),
        forall|i: int|
            0 <= i < minutes * 60 ==> #[trigger] steady_countdown(minutes * 60)[i] == span_of(
                minutes,
            ) - i * NANOS_PER_SEC,
{
}

/// The times that the progress lines of one countdown show never grow from
/// one line to the next, in nanoseconds and in the whole seconds that are
/// written; each is more than nothing and no more than the span.
pub proof fn lemma_remaining_never_grows(shown: Seq<nat>, span: nat, i: int, j: int)
    requires
        is_countdown(shown, span),
        0 <= i <= j < shown.len(),
    ensures
        0 < shown[j] <= shown[i] <= span,
        shown[j] / (NANOS_PER_SEC as nat) + (j - i) <= shown[i] / (NANOS_PER_SEC as nat),
{
    assert(shown[j] + (j - i) * NANOS_PER_SEC <= shown[i]);
}

/// A countdown shows at most one progress line for each second of its span.
pub proof fn lemma_countdown_length(shown: Seq<nat>, span: nat)
    requires
        is_countdown(shown, span),
    ensures
        shown.len() * NANOS_PER_SEC < span + NANOS_PER_SEC,
{
    if shown.len() > 0 {
        let last = shown.len() - 1;
        assert(shown[last] + (last - 0) * NANOS_PER_SEC <= shown[0]);
    }
}

/// An exact timer that reads zero has room for a countdown of any number of
/// minutes that a `u64` holds, and so for the steady countdown of that length.
pub proof fn lemma_fresh_timer_has_room<T: Timer>(timer: &T, minutes: u64)
    requires
        timer.exact(),
        timer.reading() == 0,
    ensures
        has_room(timer, span_of(minutes as nat)),
{
}

/// What is left of `span` after `elapsed`, and nothing once it is used up.
pub open spec fn time_left(span: nat, elapsed: nat) -> nat {
    if elapsed < span {
        (span - elapsed) as nat
    } else {
        0
    }
}

/// The time left of a countdown over `total` nanoseconds, of which `due` are
/// known to be gone and `read` is what the timer reads as gone: the larger of
/// the two counts. Zero where the countdown is over.
pub fn remaining_after(total: u128, due: u128, read: u128) -> (left: u128)
    ensures
        left == time_left(
            total as nat,
            if read > due {
                read as nat
            } else {
                due as nat
            },
        ),
{
    let gone = if read > due {
        read
    } else {
        due
    };
    if gone < total {
        total - gone
    } else {
        0
    }
}

fn progress(label: &str, seconds: u128) -> (line: String)
    ensures
        line@ == progress_line(label@, seconds as nat),
{
    let mut line = String::from_str("\r");
    line.append(label);
    line.append(" time remaining: ");
    push_clock_face(&mut line, seconds);
    line
}

fn completion(label: &str) -> (line: String)
    ensures
        line@ == completion_line(label@),
{
    let mut line = String::from_str("\n");
    line.append(label);
    line.append(" session completed!\n");
    line
}

impl<T: Timer, S: RecordStore> Pomodoro<T, S> {
    /// Counts `duration` minutes down against the timer. While time is left
    /// it writes a progress line with the time that remains, flushes, and
    /// sleeps for a second; then it writes the completion line. The time gone
    /// is what the timer reads since the start, and a second slept counts as
    /// a second gone also where the timer reads less, so that the countdown
    /// ends with any timer. A failure of the sink ends the countdown and is
    /// handed up.
    pub fn run_timer<O: TextSink>(
        &mut self,
        duration: u64,
        session_type: &str,
        output: &mut O,
    ) -> (done: Result<(), SessionError>)
        ensures
            final(self).work_duration == old(self).work_duration,
            final(self).break_duration == old(self).break_duration,
            final(self).store == old(self).store,
            has_room(&old(self).timer, span_of(duration as nat)) ==> {
                &&& final(self).timer.exact()
                &&& old(self).timer.reading() <= final(self).timer.reading() <= old(
                    self,
                ).timer.reading() + span_of(duration as nat)
                &&& done is Ok ==> final(self).timer.reading() == old(self).timer.reading()
                    + span_of(duration as nat)
            },
            old(output).reliable() ==> {
                &&& final(output).reliable()
                &&& done is Ok
                &&& exists|shown: Seq<nat>|
                    {
                        &&& is_countdown(shown, span_of(duration as nat))
                        &&& has_room(&old(self).timer, span_of(duration as nat)) ==> shown
                            == steady_countdown(duration as nat * 60)
                        &&& final(output).written() == old(output).written()
                            + #[trigger] countdown_text(session_type@, shown)
                    }
            },
    {
        let total: u128 = (duration as u128) * 60 * NANOS_PER_SEC;
        let ghost room = has_room(&self.timer, total as nat);
        let start = self.timer.now();
        let first = self.timer.now();
        let mut remaining: u128 = remaining_after(total, 0, first.duration_since(start));
        let ghost mut shown: Seq<nat> = Seq::empty();
        proof {
            reveal(counting);
            assert(output.written() =~= output.written() + progress_text(session_type@, shown));
        }
        while remaining > 0
            invariant
                total == span_of(duration as nat),
                self.work_duration == old(self).work_duration,
                self.break_duration == old(self).break_duration,
                self.store == old(self).store,
                room == has_room(&old(self).timer, total as nat),
                remaining <= total,
                counting(shown, total as nat, remaining as nat),
                room ==> {
                    &&& self.timer.exact()
                    &&& start@ == old(self).timer.reading()
                    &&& self.timer.reading() == start@ + shown.len() * NANOS_PER_SEC
                    &&& remaining == total - shown.len() * NANOS_PER_SEC
                    &&& forall|i: int|
                        0 <= i < shown.len() ==> #[trigger] shown[i] == total - i * NANOS_PER_SEC
                },
                old(output).reliable() ==> {
                    &&& output.reliable()
                    &&& output.written() == old(output).written() + progress_text(
                        session_type@,
                        shown,
                    )
                },
            decreases remaining,
        {
            let line = progress(session_type, remaining / NANOS_PER_SEC);
            match output.write_text(line.as_str()) {
                Ok(()) => {},
                Err(error) => {
                    return Err(error);
                },
            }
            match output.flush() {
                Ok(()) => {},
                Err(error) => {
                    return Err(error);
                },
            }
            self.timer.sleep(NANOS_PER_SEC);
            let now = self.timer.now();
            let due = total - remaining + NANOS_PER_SEC;
            let left = remaining_after(total, due, now.duration_since(start));
            proof {
                lemma_counting_step(shown, total as nat, remaining as nat, left as nat);
                lemma_progress_step(session_type@, shown, remaining as nat);
                if old(output).reliable() {
                    lemma_joined(
                        old(output).written(),
                        progress_text(session_type@, shown),
                        Seq::empty(),
                        progress_line(session_type@, (remaining / NANOS_PER_SEC) as nat),
                    );
                }
                shown = shown.push(remaining as nat);
            }
            remaining = left;
        }
        match output.write_text(completion(session_type).as_str()) {
            Ok(()) => {},
            Err(error) => {
                return Err(error);
            },
        }
        proof {
            reveal(counting);
            if room {
                assert(shown =~= steady_countdown(duration as nat * 60));
            }
            if old(output).reliable() {
                assert(output.written() =~= old(output).written() + countdown_text(
                    session_type@,
                    shown,
                ));
            }
        }
        Ok(())
    }
}

/// Whether `shown` holds the remaining times of a countdown over `total`
/// nanoseconds that has `remaining` nanoseconds left, each of them at least a
/// second more than the next and than what is left.
#[verifier::opaque]
spec fn counting(shown: Seq<nat>, total: nat, remaining: nat) -> bool {
    &&& is_countdown(shown, total)
    &&& remaining > 0 ==> forall|i: int|
        0 <= i < shown.len() ==> remaining + (shown.len() - i) * NANOS_PER_SEC
            <= #[trigger] shown[i]
}

/// A second or more after a remaining time was shown, that time makes one
/// more of the remaining times of the countdown.
proof fn lemma_counting_step(shown: Seq<nat>, total: nat, remaining: nat, left: nat)
    requires
        counting(shown, total, remaining),
        0 < remaining <= total,
        left + NANOS_PER_SEC <= remaining || left == 0,
    ensures
        counting(shown.push(remaining), total, left),
{
    reveal(counting);
    let longer = shown.push(remaining);
    assert forall|i: int, j: int| 0 <= i <= j < longer.len() implies #[trigger] longer[j] + (j
        - i) * NANOS_PER_SEC <= #[trigger] longer[i] by {
        if j < shown.len() {
            assert(shown[j] + (j - i) * NANOS_PER_SEC <= shown[i]);
        } else if i < shown.len() {
            assert(remaining + (shown.len() - i) * NANOS_PER_SEC <= shown[i]);
        }
    }
    if left > 0 {
        assert forall|i: int| 0 <= i < longer.len() implies left + (longer.len() - i)
            * NANOS_PER_SEC <= #[trigger] longer[i] by {
            if i < shown.len() {
                assert(remaining + (shown.len() - i) * NANOS_PER_SEC <= shown[i]);
            }
        }
    }
}

/// One more remaining time makes one more progress line.
proof fn lemma_progress_step(label: Seq<char>, shown: Seq<nat>, remaining: nat)
    ensures
        progress_text(label, shown.push(remaining)) == progress_text(label, shown)
            + progress_line(label, remaining / (NANOS_PER_SEC as nat)),
{
    assert(shown.push(remaining).drop_last() =~= shown);
}

} // verus!
