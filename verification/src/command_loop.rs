//! The command loop: one step of it, and a whole run over an input that is
//! known ahead.

use crate::command::{command_of, Command};
use crate::console::{after_first_line, first_line, lemma_line_length_bounds, LineSource, TextSink};
use crate::error::SessionError;
use crate::record::{work_record, RecordStore};
use crate::session::{
    cycle_span, cycle_text, is_cycle, room_for_cycle, room_for_cycles, steady_cycle, CycleTimes,
    Pomodoro,
};
use crate::text::{lemma_joined, trimmed};
use crate::timer::Timer;
use vstd::prelude::*;
use vstd::string::*;

verus! {

/// The prompt for a command.
pub open spec fn command_prompt() -> Seq<char> {
    "Enter command (start/quit): "@
}

/// The answer to a line that is no command.
pub open spec fn invalid_notice() -> Seq<char> {
    "Invalid command. Please enter 'start' or 'quit'.\n"@
}

/// How a run of the command loop over a given input ends.
pub struct RunOutcome {
    /// The tasks of the cycles that the run goes through, in their order.
    pub tasks: Seq<Seq<char>>,
    /// Whether the run ends at a `quit`, and not at the end of the input.
    pub quit: bool,
    /// The input that the run leaves unread.
    pub unread: Seq<char>,
}

/// The run of the command loop over `input`. Each round reads a line. The
/// run ends at `quit` and where the input has no line left; `start` runs a
/// cycle, whose task is the line that follows, trimmed; after any other line
/// the loop goes on.
pub open spec fn run_outcome(input: Seq<char>) -> RunOutcome
    decreases input.len(),
{
    let line = first_line(input);
    let rest = after_first_line(input);
    if line.len() == 0 {
        RunOutcome { tasks: Seq::empty(), quit: false, unread: rest }
    } else {
        proof {
            lemma_line_length_bounds(input);
            lemma_line_length_bounds(rest);
        }
        match command_of(line) {
            Command::Quit => RunOutcome { tasks: Seq::empty(), quit: true, unread: rest },
            Command::Invalid => run_outcome(rest),
            Command::Start => {
                let later = run_outcome(after_first_line(rest));
                RunOutcome {
                    tasks: seq![trimmed(first_line(rest))] + later.tasks,
                    quit: later.quit,
                    unread: later.unread,
                }
            },
        }
    }
}

/// What the run of the command loop over `input` writes, where `cycles` holds
/// the remaining times of its cycles in their order: in each round the
/// command prompt, and then the text of a cycle after `start`, nothing more
/// after `quit` or at the end of the input, and the notice after any other
/// line.
pub open spec fn run_text(input: Seq<char>, cycles: Seq<CycleTimes>) -> Seq<char>
    decreases input.len(),
{
    let line = first_line(input);
    let rest = after_first_line(input);
    if line.len() == 0 {
        command_prompt()
    } else {
        proof {
            lemma_line_length_bounds(input);
            lemma_line_length_bounds(rest);
        }
        match command_of(line) {
            Command::Quit => command_prompt(),
            Command::Invalid => command_prompt() + invalid_notice() + run_text(rest, cycles),
            Command::Start => command_prompt() + cycle_text(first_line(rest), cycles.first())
                + run_text(after_first_line(rest), cycles.drop_first()),
        }
    }
}

/// Whether each of `cycles` can be the remaining times of a cycle with these
/// lengths, and is that of an exact timer where `exact` is set.
pub open spec fn are_cycles(cycles: Seq<CycleTimes>, work: nat, pause: nat, exact: bool) -> bool {
    forall|k: int|
        0 <= k < cycles.len() ==> is_cycle(#[trigger] cycles[k], work, pause) && (exact
            ==> cycles[k] == steady_cycle(work, pause))
}

impl<T: Timer, S: RecordStore> Pomodoro<T, S> {
    /// One step of the command loop: writes the command prompt, flushes,
    /// reads a line and does what it asks. Hands back the command that it
    /// served; the loop ends with `Command::Quit`. A failure is handed up, and
    /// so is the end of the input, as `SessionError::EndOfInput`.
    pub fn step<I: LineSource, O: TextSink>(&mut self, input: &mut I, output: &mut O) -> (next:
        Result<Command, SessionError>)
        ensures
            final(self).work_duration == old(self).work_duration,
            final(self).break_duration == old(self).break_duration,
            old(self).store.reliable() ==> final(self).store.reliable(),
            old(output).reliable() ==> final(output).reliable(),
            old(input).reliable() ==> {
                &&& final(input).reliable()
                &&& next matches Ok(command) ==> {
                    &&& first_line(old(input).pending()).len() > 0
                    &&& command == command_of(first_line(old(input).pending()))
                    &&& final(input).pending() == if command == Command::Start {
                        after_first_line(after_first_line(old(input).pending()))
                    } else {
                        after_first_line(old(input).pending())
                    }
                }
            },
            old(input).reliable() && old(output).reliable() && old(self).store.reliable()
                ==> match next {
                Ok(Command::Quit) => {
                    &&& final(output).written() == old(output).written() + command_prompt()
                    &&& final(self).store == old(self).store
                    &&& final(self).timer == old(self).timer
                },
                Ok(Command::Invalid) => {
                    &&& final(output).written() == old(output).written() + command_prompt()
                        + invalid_notice()
                    &&& final(self).store == old(self).store
                    &&& final(self).timer == old(self).timer
                },
                Ok(Command::Start) => {
                    &&& exists|times: CycleTimes|
                        {
                            &&& is_cycle(
                                times,
                                old(self).work_duration as nat,
                                old(self).break_duration as nat,
                            )
                            &&& room_for_cycle(old(self)) ==> times == steady_cycle(
                                old(self).work_duration as nat,
                                old(self).break_duration as nat,
                            )
                            &&& final(output).written() == old(output).written()
                                + command_prompt() + #[trigger] cycle_text(
                                first_line(after_first_line(old(input).pending())),
                                times,
                            )
                        }
                    &&& exists|stamp: Seq<char>|
                        final(self).store.contents() == #[trigger] work_record(
                            trimmed(first_line(after_first_line(old(input).pending()))),
                            old(self).work_duration as nat,
                            stamp,
                        )
                    &&& room_for_cycle(old(self)) ==> final(self).timer.exact() && final(
                        self).timer.reading() == old(self).timer.reading() + cycle_span(
                        old(self).work_duration as nat,
                        old(self).break_duration as nat,
                    )
                },
                Err(error) => {
                    &&& error == SessionError::EndOfInput
                    &&& first_line(old(input).pending()).len() == 0
                    &&& final(input).pending() == old(input).pending()
                    &&& final(output).written() == old(output).written() + command_prompt()
                    &&& final(self).store == old(self).store
                    &&& final(self).timer == old(self).timer
                },
            },
    {
        let ghost steady = input.reliable() && output.reliable() && self.store.reliable();
        let ghost prompted = old(output).written() + command_prompt();
        match output.write_text("Enter command (start/quit): ") {
            Ok(()) => {},
            Err(error) => {
                return Err(error);
            },
        }
        match output.flush() {
            Ok(()) => {},
            Err(error) => {
                return Err(error);
            },
        }
        let line = match input.read_line() {
            Ok(line) => line,
            Err(error) => {
                return Err(error);
            },
        };
        if line.as_str().unicode_len() == 0 {
            proof {
                if old(input).reliable() {
                    lemma_line_length_bounds(old(input).pending());
                    assert(after_first_line(old(input).pending()) =~= old(input).pending());
                }
            }
            return Err(SessionError::EndOfInput);
        }
        match Command::parse(line.as_str()) {
            Command::Start => {
                let ghost task_line = first_line(input.pending());
                match self.start(input, output) {
                    Ok(()) => {},
                    Err(error) => {
                        return Err(error);
                    },
                }
                proof {
                    if steady {
                        let times = choose|times: CycleTimes|
                            {
                                &&& is_cycle(
                                    times,
                                    self.work_duration as nat,
                                    self.break_duration as nat,
                                )
                                &&& room_for_cycle(old(self)) ==> times == steady_cycle(
                                    self.work_duration as nat,
                                    self.break_duration as nat,
                                )
                                &&& output.written() == prompted + #[trigger] cycle_text(
                                    task_line,
                                    times,
                                )
                            };
                        assert(output.written() == old(output).written() + command_prompt()
                            + cycle_text(task_line, times));
                    }
                }
                Ok(Command::Start)
            },
            Command::Quit => Ok(Command::Quit),
            Command::Invalid => {
                match output.write_text("Invalid command. Please enter 'start' or 'quit'.\n") {
                    Ok(()) => {},
                    Err(error) => {
                        return Err(error);
                    },
                }
                Ok(Command::Invalid)
            },
        }
    }

    /// Runs the command loop over an input that is known ahead: takes one
    /// step after the other until a line asks to quit. A failure ends the
    /// loop and is handed up; so does the end of the input, as
    /// `SessionError::EndOfInput`.
    pub fn run<I: LineSource, O: TextSink>(&mut self, input: &mut I, output: &mut O) -> (done:
        Result<(), SessionError>)
        requires
            old(input).reliable(),
        ensures
            final(self).work_duration == old(self).work_duration,
            final(self).break_duration == old(self).break_duration,
            final(input).reliable(),
            old(self).store.reliable() ==> final(self).store.reliable(),
            old(output).reliable() ==> final(output).reliable(),
            old(output).reliable() && old(self).store.reliable() ==> {
                let outcome = run_outcome(old(input).pending());
                &&& done == if outcome.quit {
                    Ok::<(), SessionError>(())
                } else {
                    Err::<(), SessionError>(SessionError::EndOfInput)
                }
                &&& final(input).pending() == outcome.unread
                &&& if outcome.tasks.len() == 0 {
                    final(self).store == old(self).store
                } else {
                    exists|stamp: Seq<char>|
                        final(self).store.contents() == #[trigger] work_record(
                            outcome.tasks.last(),
                            old(self).work_duration as nat,
                            stamp,
                        )
                }
                &&& exists|cycles: Seq<CycleTimes>|
                    {
                        &&& cycles.len() == outcome.tasks.len()
                        &&& are_cycles(
                            cycles,
                            old(self).work_duration as nat,
                            old(self).break_duration as nat,
                            room_for_cycles(old(self), outcome.tasks.len()),
                        )
                        &&& final(output).written() == old(output).written()
                            + #[trigger] run_text(old(input).pending(), cycles)
                    }
                &&& room_for_cycles(old(self), outcome.tasks.len()) ==> final(self).timer.exact()
                    && final(self).timer.reading() == old(self).timer.reading()
                    + outcome.tasks.len() * cycle_span(
                    old(self).work_duration as nat,
                    old(self).break_duration as nat,
                )
            },
    {
        let ghost work = self.work_duration as nat;
        let ghost pause = self.break_duration as nat;
        let ghost whole = run_outcome(input.pending());
        let ghost steady = output.reliable() && self.store.reliable();
        let ghost room = room_for_cycles(self, whole.tasks.len());
        let ghost mut told: Seq<Seq<char>> = Seq::empty();
        let ghost mut cycles: Seq<CycleTimes> = Seq::empty();
        let ghost mut stamp: Seq<char> = Seq::empty();
        let ghost mut delta: Seq<char> = Seq::empty();
        proof {
            lemma_follows_at_first(input.pending());
            lemma_remains_at_first(input.pending());
            assert(output.written() =~= old(output).written() + delta);
        }
        loop
            invariant
                self.work_duration == old(self).work_duration,
                self.break_duration == old(self).break_duration,
                work == self.work_duration,
                pause == self.break_duration,
                input.reliable(),
                old(self).store.reliable() ==> self.store.reliable(),
                old(output).reliable() ==> output.reliable(),
                whole == run_outcome(old(input).pending()),
                steady == (old(output).reliable() && old(self).store.reliable()),
                room == room_for_cycles(old(self), whole.tasks.len()),
                steady ==> {
                    &&& remains(whole, told, input.pending())
                    &&& follows(old(input).pending(), cycles, input.pending(), delta)
                    &&& output.written() == old(output).written() + delta
                    &&& cycles.len() == told.len()
                    &&& are_cycles(cycles, work, pause, room)
                    &&& if told.len() == 0 {
                        self.store == old(self).store
                    } else {
                        self.store.contents() == work_record(told.last(), work, stamp)
                    }
                    &&& room ==> self.timer.exact() && self.timer.reading() == old(
                        self,
                    ).timer.reading() + told.len() * cycle_span(work, pause)
                },
            decreases input.pending().len(),
        {
            let ghost before = input.pending();
            let ghost rest = after_first_line(before);
            let ghost written = output.written();
            let ghost had_room = room_for_cycle(self);
            proof {
                lemma_line_length_bounds(before);
                lemma_line_length_bounds(rest);
                if steady {
                    lemma_remains_round(whole, told, before);
                    if first_line(before).len() > 0 && command_of(first_line(before))
                        == Command::Start {
                        lemma_room_for_next(told.len(), whole.tasks.len(), cycle_span(work, pause));
                    }
                }
            }
            match self.step(input, output) {
                Ok(Command::Quit) => {
                    proof {
                        if steady {
                            lemma_follows_at_last(old(input).pending(), cycles, before, delta);
                            lemma_joined(
                                old(output).written(),
                                delta,
                                Seq::empty(),
                                command_prompt(),
                            );
                            assert(delta + Seq::<char>::empty() =~= delta);
                            assert(Seq::<char>::empty() + command_prompt() =~= command_prompt());
                        }
                    }
                    return Ok(());
                },
                Ok(Command::Start) => {
                    proof {
                        if steady {
                            let task = trimmed(first_line(rest));
                            let times = choose|times: CycleTimes|
                                {
                                    &&& is_cycle(times, work, pause)
                                    &&& had_room ==> times == steady_cycle(work, pause)
                                    &&& output.written() == written + command_prompt()
                                        + #[trigger] cycle_text(first_line(rest), times)
                                };
                            let text = cycle_text(first_line(rest), times);
                            lemma_follows_cycle(old(input).pending(), cycles, before, delta, times);
                            lemma_one_more_cycle(told.len(), cycle_span(work, pause));
                            lemma_joined(old(output).written(), delta, command_prompt(), text);
                            stamp = choose|stamp: Seq<char>|
                                self.store.contents() == #[trigger] work_record(task, work, stamp);
                            delta = delta + command_prompt() + text;
                            told = told.push(task);
                            cycles = cycles.push(times);
                        }
                    }
                },
                Ok(Command::Invalid) => {
                    proof {
                        if steady {
                            lemma_follows_notice(old(input).pending(), cycles, before, delta);
                            lemma_joined(
                                old(output).written(),
                                delta,
                                command_prompt(),
                                invalid_notice(),
                            );
                            delta = delta + command_prompt() + invalid_notice();
                        }
                    }
                },
                Err(error) => {
                    proof {
                        if steady {
                            lemma_follows_at_last(old(input).pending(), cycles, before, delta);
                            lemma_joined(
                                old(output).written(),
                                delta,
                                Seq::empty(),
                                command_prompt(),
                            );
                            assert(delta + Seq::<char>::empty() =~= delta);
                            assert(Seq::<char>::empty() + command_prompt() =~= command_prompt());
                        }
                    }
                    return Err(error);
                },
            }
        }
    }
}

/// Whether a run that has gone through the tasks `told` and has `pending`
/// left to read ends as `whole` says.
#[verifier::opaque]
spec fn remains(whole: RunOutcome, told: Seq<Seq<char>>, pending: Seq<char>) -> bool {
    let left = run_outcome(pending);
    &&& left.unread == whole.unread
    &&& left.quit == whole.quit
    &&& told + left.tasks == whole.tasks
}

proof fn lemma_remains_at_first(input: Seq<char>)
    ensures
        remains(run_outcome(input), Seq::empty(), input),
{
    reveal(remains);
    assert(Seq::<Seq<char>>::empty() + run_outcome(input).tasks =~= run_outcome(input).tasks);
}

/// What one round of the loop leaves of the run.
proof fn lemma_remains_round(whole: RunOutcome, told: Seq<Seq<char>>, pending: Seq<char>)
    requires
        remains(whole, told, pending),
    ensures
        told.len() <= whole.tasks.len(),
        ({
            let line = first_line(pending);
            let rest = after_first_line(pending);
            if line.len() == 0 {
                !whole.quit && whole.unread == rest && told == whole.tasks
            } else {
                match command_of(line) {
                    Command::Quit => whole.quit && whole.unread == rest && told == whole.tasks,
                    Command::Invalid => remains(whole, told, rest),
                    Command::Start => told.len() < whole.tasks.len() && remains(
                        whole,
                        told.push(trimmed(first_line(rest))),
                        after_first_line(rest),
                    ),
                }
            }
        }),
{
    reveal(remains);
    let line = first_line(pending);
    let rest = after_first_line(pending);
    let left = run_outcome(pending);
    assert((told + left.tasks).len() == told.len() + left.tasks.len());
    if line.len() == 0 {
        assert(told + left.tasks =~= told);
    } else {
        match command_of(line) {
            Command::Quit => {
                assert(told + left.tasks =~= told);
            },
            Command::Invalid => {},
            Command::Start => {
                let later = run_outcome(after_first_line(rest));
                let task = trimmed(first_line(rest));
                assert(left.tasks == seq![task] + later.tasks);
                assert(told.push(task) + later.tasks =~= told + left.tasks);
            },
        }
    }
}

/// Whether a run over `input` that has gone through `cycles`, has written
/// `delta` and has `pending` left to read writes, however it goes on, what
/// the whole run writes.
#[verifier::opaque]
spec fn follows(
    input: Seq<char>,
    cycles: Seq<CycleTimes>,
    pending: Seq<char>,
    delta: Seq<char>,
) -> bool {
    forall|later: Seq<CycleTimes>| #[trigger]
        run_text(input, cycles + later) == delta + run_text(pending, later)
}

proof fn lemma_follows_at_first(input: Seq<char>)
    ensures
        follows(input, Seq::empty(), input, Seq::empty()),
{
    reveal(follows);
    assert forall|later: Seq<CycleTimes>| #[trigger]
        run_text(input, Seq::<CycleTimes>::empty() + later) == Seq::<char>::empty() + run_text(
            input,
            later,
        ) by {
        assert(Seq::<CycleTimes>::empty() + later =~= later);
        assert(Seq::<char>::empty() + run_text(input, later) =~= run_text(input, later));
    }
}

/// After a line that is no command the run has written the prompt and the
/// notice more.
proof fn lemma_follows_notice(
    input: Seq<char>,
    cycles: Seq<CycleTimes>,
    pending: Seq<char>,
    delta: Seq<char>,
)
    requires
        follows(input, cycles, pending, delta),
        first_line(pending).len() > 0,
        command_of(first_line(pending)) == Command::Invalid,
    ensures
        follows(
            input,
            cycles,
            after_first_line(pending),
            delta + command_prompt() + invalid_notice(),
        ),
{
    reveal(follows);
    let rest = after_first_line(pending);
    let more = delta + command_prompt() + invalid_notice();
    assert forall|later: Seq<CycleTimes>| #[trigger]
        run_text(input, cycles + later) == more + run_text(rest, later) by {
        assert(run_text(pending, later) == command_prompt() + invalid_notice() + run_text(
            rest,
            later,
        ));
        assert(delta + run_text(pending, later) =~= more + run_text(rest, later));
    }
}

/// After `start` the run has written the prompt and the text of a cycle more,
/// and has gone through one cycle more.
proof fn lemma_follows_cycle(
    input: Seq<char>,
    cycles: Seq<CycleTimes>,
    pending: Seq<char>,
    delta: Seq<char>,
    times: CycleTimes,
)
    requires
        follows(input, cycles, pending, delta),
        first_line(pending).len() > 0,
        command_of(first_line(pending)) == Command::Start,
    ensures
        follows(
            input,
            cycles.push(times),
            after_first_line(after_first_line(pending)),
            delta + command_prompt() + cycle_text(first_line(after_first_line(pending)), times),
        ),
{
    reveal(follows);
    let rest = after_first_line(pending);
    let more = delta + command_prompt() + cycle_text(first_line(rest), times);
    assert forall|later: Seq<CycleTimes>| #[trigger]
        run_text(input, cycles.push(times) + later) == more + run_text(
            after_first_line(rest),
            later,
        ) by {
        let joined = seq![times] + later;
        assert(cycles.push(times) + later =~= cycles + joined);
        assert(run_text(input, cycles + joined) == delta + run_text(pending, joined));
        assert(joined.first() == times);
        assert(joined.drop_first() =~= later);
        assert(run_text(pending, joined) == command_prompt() + cycle_text(first_line(rest), times)
            + run_text(after_first_line(rest), later));
        assert(delta + run_text(pending, joined) =~= more + run_text(
            after_first_line(rest),
            later,
        ));
    }
}

/// At `quit` and at the end of the input the run has written all but the
/// last prompt.
proof fn lemma_follows_at_last(
    input: Seq<char>,
    cycles: Seq<CycleTimes>,
    pending: Seq<char>,
    delta: Seq<char>,
)
    requires
        follows(input, cycles, pending, delta),
        first_line(pending).len() == 0 || command_of(first_line(pending)) == Command::Quit,
    ensures
        run_text(input, cycles) == delta + command_prompt(),
{
    reveal(follows);
    let none = Seq::<CycleTimes>::empty();
    assert(cycles + none =~= cycles);
    assert(run_text(input, cycles + none) == delta + run_text(pending, none));
    assert(run_text(pending, none) == command_prompt());
}

/// Where fewer cycles are done than the timer has room for, it has room for
/// one more.
proof fn lemma_room_for_next(done: nat, all: nat, span: nat)
    requires
        done < all,
    ensures
        done * span + span <= all * span,
{
    assert((done + 1) * span <= all * span) by (nonlinear_arith)
        requires
            done + 1 <= all,
    ;
    assert((done + 1) * span == done * span + span) by (nonlinear_arith);
}

/// The span of one more cycle.
proof fn lemma_one_more_cycle(done: nat, span: nat)
    ensures
        (done + 1) * span == done * span + span,
{
    assert((done + 1) * span == done * span + span) by (nonlinear_arith);
}

} // verus!
