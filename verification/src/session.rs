//! The session and its cycle: the task prompt, the work interval, the work
//! log and the break.

use crate::console::{after_first_line, first_line, LineSource, TextSink};
use crate::countdown::{countdown_text, is_countdown, span_of, steady_countdown};
use crate::error::SessionError;
use crate::record::{
    first_field, format_record, is_plain_text, lemma_first_field, local_timestamp, overwritten,
    work_record, RecordStore,
};
use crate::text::{lemma_joined, trim, trimmed};
use crate::timer::{has_room, Timer};
use vstd::prelude::*;
use vstd::string::*;
use vstd::utf8::encode_utf8;

verus! {

/// The prompt for the task label.
pub open spec fn task_prompt() -> Seq<char> {
    "Enter the task you're working on: "@
}

/// The line that names the task of the interval that starts.
pub open spec fn announcement(task: Seq<char>) -> Seq<char> {
    "Starting a Pomodoro for: "@ + task + "\n"@
}

/// The line between the work interval and the break.
pub open spec fn break_notice() -> Seq<char> {
    "Time for a break!\n"@
}

/// The remaining times that the two countdowns of one cycle show.
pub struct CycleTimes {
    /// Those of the work interval.
    pub work: Seq<nat>,
    /// Those of the break.
    pub pause: Seq<nat>,
}

/// Whether `times` can be the remaining times of a cycle with a work interval
/// of `work` minutes and a break of `pause` minutes.
pub open spec fn is_cycle(times: CycleTimes, work: nat, pause: nat) -> bool {
    is_countdown(times.work, span_of(work)) && is_countdown(times.pause, span_of(pause))
}

/// The remaining times of such a cycle on an exact timer.
pub open spec fn steady_cycle(work: nat, pause: nat) -> CycleTimes {
    CycleTimes { work: steady_countdown(work * 60), pause: steady_countdown(pause * 60) }
}

/// Nanoseconds that one whole cycle takes.
pub open spec fn cycle_span(work: nat, pause: nat) -> nat {
    span_of(work) + span_of(pause)
}

/// What one cycle writes up to the end of its work interval. `task_line` is
/// the line read at the task prompt and `shown` the remaining times of the
/// work countdown.
pub open spec fn work_text(task_line: Seq<char>, shown: Seq<nat>) -> Seq<char> {
    task_prompt() + announcement(trimmed(task_line)) + countdown_text("Work"@, shown)
}

/// What one whole cycle writes.
pub open spec fn cycle_text(task_line: Seq<char>, times: CycleTimes) -> Seq<char> {
    work_text(task_line, times.work) + break_notice() + countdown_text("Break"@, times.pause)
}

/// A Pomodoro session: the lengths of the work interval and of the break in
/// minutes, the timer that the countdowns run against, and the store of the
/// work log.
pub struct Pomodoro<T: Timer, S: RecordStore> {
    /// Minutes of a work interval.
    pub work_duration: u64,
    /// Minutes of a break.
    pub break_duration: u64,
    /// The timer that the countdowns run against.
    pub timer: T,
    /// The store of the work log.
    pub store: S,
}

/// Whether the timer of `pomodoro` is exact and has room for one cycle.
pub open spec fn room_for_cycle<T: Timer, S: RecordStore>(pomodoro: &Pomodoro<T, S>) -> bool {
    has_room(
        &pomodoro.timer,
        cycle_span(pomodoro.work_duration as nat, pomodoro.break_duration as nat),
    )
}

/// Whether the timer of `pomodoro` is exact and has room for `count` cycles.
pub open spec fn room_for_cycles<T: Timer, S: RecordStore>(
    pomodoro: &Pomodoro<T, S>,
    count: nat,
) -> bool {
    has_room(
        &pomodoro.timer,
        count * cycle_span(pomodoro.work_duration as nat, pomodoro.break_duration as nat),
    )
}

impl<T: Timer, S: RecordStore> Pomodoro<T, S> {
    /// A session with a work interval of 20 minutes and a break of 5.
    pub fn new(timer: T, store: S) -> (pomodoro: Self)
        ensures
            pomodoro.work_duration == 20,
            pomodoro.break_duration == 5,
            pomodoro.timer == timer,
            pomodoro.store == store,
    {
        Pomodoro { work_duration: 20, break_duration: 5, timer, store }
    }

    /// Asks for the task label: writes the prompt, flushes, reads one line
    /// and returns it trimmed. An empty label is as good as any other.
    pub fn get_task<I: LineSource, O: TextSink>(input: &mut I, output: &mut O) -> (task: Result<
        String,
        SessionError,
    >)
        ensures
            old(output).reliable() ==> {
                &&& final(output).reliable()
                &&& final(output).written() == old(output).written() + task_prompt()
            },
            old(input).reliable() ==> {
                &&& final(input).reliable()
                &&& old(output).reliable() ==> task is Ok
                &&& task matches Ok(label) ==> {
                    &&& label@ == trimmed(first_line(old(input).pending()))
                    &&& final(input).pending() == after_first_line(old(input).pending())
                }
                &&& task is Err ==> final(input).pending() == old(input).pending()
            },
    {
        match output.write_text("Enter the task you're working on: ") {
            Ok(()) => {},
            Err(error) => {
                return Err(error);
            },
        }
        match output.flush() {
            Ok(()) => {},
            Err(error) => {
                return Err(error);
            },
        }
        match input.read_line() {
            Ok(line) => Ok(trim(line.as_str())),
            Err(error) => Err(error),
        }
    }

    /// Writes the record of a work interval that ended at `stamp` to the
    /// store, in place of what the store held.
    pub fn log_work_at(&mut self, task: &str, stamp: &str) -> (done: Result<(), SessionError>)
        ensures
            final(self).work_duration == old(self).work_duration,
            final(self).break_duration == old(self).break_duration,
            final(self).timer == old(self).timer,
            old(self).store.reliable() ==> {
                &&& final(self).store.reliable()
                &&& done is Ok
                &&& final(self).store.contents() == overwritten(
                    old(self).store.contents(),
                    work_record(task@, old(self).work_duration as nat, stamp@),
                )
                &&& is_plain_text(task@) ==> first_field(final(self).store.contents())
                    == encode_utf8(task@)
            },
    {
        proof {
            if is_plain_text(task@) {
                lemma_first_field(task@, self.work_duration as nat, stamp@);
            }
        }
        match format_record(task, self.work_duration, stamp) {
            Ok(record) => self.store.overwrite(record.as_slice()),
            Err(error) => Err(error),
        }
    }

    /// Logs a work interval that ends now: writes its record, stamped with
    /// the local date and time, to the store, in place of what the store
    /// held.
    pub fn log_work(&mut self, task: &str) -> (done: Result<(), SessionError>)
        ensures
            final(self).work_duration == old(self).work_duration,
            final(self).break_duration == old(self).break_duration,
            final(self).timer == old(self).timer,
            old(self).store.reliable() ==> {
                &&& final(self).store.reliable()
                &&& done is Ok
                &&& exists|stamp: Seq<char>|
                    final(self).store.contents() == overwritten(
                        old(self).store.contents(),
                        #[trigger] work_record(task@, old(self).work_duration as nat, stamp),
                    )
                &&& is_plain_text(task@) ==> first_field(final(self).store.contents())
                    == encode_utf8(task@)
            },
    {
        let stamp = local_timestamp();
        self.log_work_at(task, stamp.as_str())
    }

    /// Runs one cycle: asks for the task, announces it, counts the work
    /// interval down, logs the work, announces the break and counts the break
    /// down. The first failure ends the cycle and is handed up; where the log
    /// fails, the break is neither announced nor run.
    pub fn start<I: LineSource, O: TextSink>(&mut self, input: &mut I, output: &mut O) -> (done:
        Result<(), SessionError>)
        ensures
            final(self).work_duration == old(self).work_duration,
            final(self).break_duration == old(self).break_duration,
            room_for_cycle(old(self)) ==> {
                &&& final(self).timer.exact()
                &&& old(self).timer.reading() <= final(self).timer.reading() <= old(
                    self,
                ).timer.reading() + cycle_span(
                    old(self).work_duration as nat,
                    old(self).break_duration as nat,
                )
                &&& done is Ok ==> final(self).timer.reading() == old(self).timer.reading()
                    + cycle_span(old(self).work_duration as nat, old(self).break_duration as nat)
            },
            old(self).store.reliable() ==> final(self).store.reliable(),
            old(output).reliable() ==> final(output).reliable(),
            old(input).reliable() ==> {
                &&& final(input).reliable()
                &&& done is Ok ==> final(input).pending() == after_first_line(
                    old(input).pending(),
                )
                &&& done is Ok && old(self).store.reliable() ==> exists|stamp: Seq<char>|
                    final(self).store.contents() == #[trigger] work_record(
                        trimmed(first_line(old(input).pending())),
                        old(self).work_duration as nat,
                        stamp,
                    )
            },
            old(input).reliable() && old(output).reliable() ==> {
                &&& final(input).pending() == after_first_line(old(input).pending())
                &&& old(self).store.reliable() ==> done is Ok
                &&& done is Ok ==> exists|times: CycleTimes|
                    {
                        &&& is_cycle(
                            times,
                            old(self).work_duration as nat,
                            old(self).break_duration as nat,
                        )
                        &&& room_for_cycle(old(self)) ==> times == steady_cycle(
                            old(self).work_duration as nat,
                            old(self).break_duration as nat,
                        )
                        &&& final(output).written() == old(output).written()
                            + #[trigger] cycle_text(first_line(old(input).pending()), times)
                    }
                &&& done is Err ==> exists|shown: Seq<nat>|
                    {
                        &&& is_countdown(shown, span_of(old(self).work_duration as nat))
                        &&& room_for_cycle(old(self)) ==> shown == steady_countdown(
                            old(self).work_duration as nat * 60,
                        )
                        &&& final(output).written() == old(output).written()
                            + #[trigger] work_text(first_line(old(input).pending()), shown)
                    }
            },
    {
        let pause = self.break_duration;
        let ghost task_line = first_line(input.pending());
        let ghost steady = input.reliable() && output.reliable();
        let ghost room = room_for_cycle(self);
        let (task, work_shown) = match self.begin_work(input, output) {
            Ok(begun) => begun,
            Err(error) => {
                return Err(error);
            },
        };
        match self.log_work(task.as_str()) {
            Ok(()) => {},
            Err(error) => {
                return Err(error);
            },
        }
        match output.write_text("Time for a break!\n") {
            Ok(()) => {},
            Err(error) => {
                return Err(error);
            },
        }
        let ghost noticed = output.written();
        match self.run_timer(pause, "Break", output) {
            Ok(()) => {},
            Err(error) => {
                return Err(error);
            },
        }
        proof {
            if steady {
                let pause_shown = choose|shown: Seq<nat>|
                    {
                        &&& is_countdown(shown, span_of(pause as nat))
                        &&& room ==> shown == steady_countdown(pause as nat * 60)
                        &&& output.written() == noticed + #[trigger] countdown_text(
                            "Break"@,
                            shown,
                        )
                    };
                let times = CycleTimes { work: work_shown@, pause: pause_shown };
                lemma_joined(
                    old(output).written(),
                    work_text(task_line, work_shown@),
                    break_notice(),
                    countdown_text("Break"@, pause_shown),
                );
                assert(output.written() == old(output).written() + cycle_text(task_line, times));
            }
        }
        Ok(())
    }

    /// The first half of a cycle: asks for the task, announces it and counts
    /// the work interval down. Hands back the task and the remaining times
    /// that the countdown showed.
    fn begin_work<I: LineSource, O: TextSink>(&mut self, input: &mut I, output: &mut O) -> (begun:
        Result<(String, Ghost<Seq<nat>>), SessionError>)
        ensures
            final(self).work_duration == old(self).work_duration,
            final(self).break_duration == old(self).break_duration,
            final(self).store == old(self).store,
            has_room(&old(self).timer, span_of(old(self).work_duration as nat)) ==> {
                &&& final(self).timer.exact()
                &&& old(self).timer.reading() <= final(self).timer.reading() <= old(
                    self,
                ).timer.reading() + span_of(old(self).work_duration as nat)
                &&& begun is Ok ==> final(self).timer.reading() == old(self).timer.reading()
                    + span_of(old(self).work_duration as nat)
            },
            old(output).reliable() ==> final(output).reliable(),
            old(input).reliable() ==> {
                &&& final(input).reliable()
                &&& begun matches Ok((task, shown)) ==> {
                    &&& task@ == trimmed(first_line(old(input).pending()))
                    &&& final(input).pending() == after_first_line(old(input).pending())
                }
            },
            old(input).reliable() && old(output).reliable() ==> {
                &&& begun matches Ok((task, shown))
                &&& is_countdown(shown@, span_of(old(self).work_duration as nat))
                &&& has_room(&old(self).timer, span_of(old(self).work_duration as nat))
                    ==> shown@ == steady_countdown(old(self).work_duration as nat * 60)
                &&& final(output).written() == old(output).written() + work_text(
                    first_line(old(input).pending()),
                    shown@,
                )
            },
    {
        let work = self.work_duration;
        let ghost steady = input.reliable() && output.reliable();
        let task = match Self::get_task(input, output) {
            Ok(task) => task,
            Err(error) => {
                return Err(error);
            },
        };
        let mut line = String::from_str("Starting a Pomodoro for: ");
        line.append(task.as_str());
        line.append("\n");
        match output.write_text(line.as_str()) {
            Ok(()) => {},
            Err(error) => {
                return Err(error);
            },
        }
        let ghost announced = output.written();
        match self.run_timer(work, "Work", output) {
            Ok(()) => {},
            Err(error) => {
                return Err(error);
            },
        }
        let ghost shown = if steady {
            choose|shown: Seq<nat>|
                {
                    &&& is_countdown(shown, span_of(work as nat))
                    &&& has_room(&old(self).timer, span_of(work as nat)) ==> shown
                        == steady_countdown(work as nat * 60)
                    &&& output.written() == announced + #[trigger] countdown_text("Work"@, shown)
                }
        } else {
            Seq::empty()
        };
        proof {
            if steady {
                lemma_joined(
                    old(output).written(),
                    task_prompt(),
                    announcement(task@),
                    countdown_text("Work"@, shown),
                );
            }
        }
        Ok((task, Ghost(shown)))
    }
}

} // verus!
