//! Where a session reads its lines from and where it writes its text to.

use crate::error::SessionError;
use vstd::prelude::*;
use vstd::string::*;

verus! {

/// Length of the first line of `s`, its line feed included. Text without a
/// line feed is one line.
pub open spec fn line_length(s: Seq<char>) -> nat
    decreases s.len(),
{
    if s.len() == 0 {
        0
    } else if s.first() == '\n' {
        1
    } else {
        1 + line_length(s.drop_first())
    }
}

/// The first line of `s`, its line feed included.
pub open spec fn first_line(s: Seq<char>) -> Seq<char> {
    s.take(line_length(s) as int)
}

/// What follows the first line of `s`.
pub open spec fn after_first_line(s: Seq<char>) -> Seq<char> {
    s.skip(line_length(s) as int)
}

/// The first line of `s` ends at its first line feed, or at the end of `s`.
pub proof fn lemma_line_length(s: Seq<char>, k: int)
    requires
        0 <= k <= s.len(),
        forall|i: int| 0 <= i < k ==> s[i] != '\n',
        k < s.len() ==> s[k] == '\n',
    ensures
        line_length(s) == if k < s.len() {
            k + 1
        } else {
            k
        },
    decreases k,
{
    if k > 0 {
        let rest = s.drop_first();
        assert forall|i: int| 0 <= i < k - 1 implies rest[i] != '\n' by {
            assert(rest[i] == s[i + 1]);
        }
        if k < s.len() {
            assert(rest[k - 1] == s[k]);
        }
        lemma_line_length(rest, k - 1);
    }
}

/// A line never runs past the end of the text, and text that is not empty
/// has a first line that is not empty.
pub proof fn lemma_line_length_bounds(s: Seq<char>)
    ensures
        line_length(s) <= s.len(),
        s.len() > 0 ==> line_length(s) > 0,
    decreases s.len(),
{
    if s.len() > 0 && s.first() != '\n' {
        lemma_line_length_bounds(s.drop_first());
    }
}

/// A source of input, read line by line. A source in general promises
/// nothing that could be checked here; a `reliable` one is known ahead.
pub trait LineSource {
    /// The text that a reliable source has yet to hand out.
    open spec fn pending(&self) -> Seq<char> {
        Seq::empty()
    }

    /// Whether reading from this source never fails and hands out `pending`,
    /// line by line.
    open spec fn reliable(&self) -> bool {
        false
    }

    /// Reads the next line, its line feed included. At the end of the input
    /// the line is empty.
    fn read_line(&mut self) -> (line: Result<String, SessionError>)
        ensures
            old(self).reliable() ==> {
                &&& final(self).reliable()
                &&& line matches Ok(text)
                &&& text@ == first_line(old(self).pending())
                &&& final(self).pending() == after_first_line(old(self).pending())
            },
    ;
}

/// A sink for the text of a session. A sink in general promises nothing that
/// could be checked here; a `reliable` one keeps what it takes.
pub trait TextSink {
    /// All the text that a reliable sink has taken so far.
    open spec fn written(&self) -> Seq<char> {
        Seq::empty()
    }

    /// Whether writing to this sink and flushing it never fail, and `written`
    /// holds what was written.
    open spec fn reliable(&self) -> bool {
        false
    }

    /// Appends `text`.
    fn write_text(&mut self, text: &str) -> (done: Result<(), SessionError>)
        ensures
            old(self).reliable() ==> {
                &&& final(self).reliable()
                &&& done is Ok
                &&& final(self).written() == old(self).written() + text@
            },
    ;

    /// Makes what was written so far visible.
    fn flush(&mut self) -> (done: Result<(), SessionError>)
        ensures
            old(self).reliable() ==> {
                &&& final(self).reliable()
                &&& done is Ok
                &&& final(self).written() == old(self).written()
            },
    ;
}

/// Input held in memory: a script of lines written ahead of the run.
#[derive(Debug, PartialEq, Eq)]
pub struct Script {
    /// The part of the script that has not been read yet.
    pub rest: String,
}

impl Script {
    /// A script that holds `text`.
    pub fn new(text: &str) -> (script: Script)
        ensures
            script.pending() == text@,
            script.reliable(),
    {
        Script { rest: String::from_str(text) }
    }
}

impl LineSource for Script {
    open spec fn pending(&self) -> Seq<char> {
        self.rest@
    }

    open spec fn reliable(&self) -> bool {
        true
    }

    fn read_line(&mut self) -> (line: Result<String, SessionError>) {
        let text = self.rest.as_str();
        let n = text.unicode_len();
        let mut end: usize = 0;
        while end < n && text.get_char(end) != '\n'
            invariant
                end <= n,
                n == text@.len(),
                forall|i: int| 0 <= i < end ==> text@[i] != '\n',
            decreases n - end,
        {
            end = end + 1;
        }
        proof {
            lemma_line_length(text@, end as int);
        }
        if end < n {
            end = end + 1;
        }
        let line = String::from_str(text.substring_char(0, end));
        let rest = String::from_str(text.substring_char(end, n));
        self.rest = rest;
        Ok(line)
    }
}

/// Output held in memory: everything a run has written.
#[derive(Debug, PartialEq, Eq)]
pub struct Transcript {
    /// The text written so far.
    pub text: String,
}

impl Transcript {
    /// An empty transcript.
    pub fn new() -> (transcript: Transcript)
        ensures
            transcript.written() == Seq::<char>::empty(),
            transcript.reliable(),
    {
        Transcript { text: String::new() }
    }
}

impl TextSink for Transcript {
    open spec fn written(&self) -> Seq<char> {
        self.text@
    }

    open spec fn reliable(&self) -> bool {
        true
    }

    fn write_text(&mut self, text: &str) -> (done: Result<(), SessionError>) {
        self.text.append(text);
        Ok(())
    }

    fn flush(&mut self) -> (done: Result<(), SessionError>) {
        Ok(())
    }
}

} // verus!
