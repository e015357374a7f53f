//! The last lines of the log, kept in memory for the user interface.

use crate::text;
use std::collections::VecDeque;
use vstd::prelude::*;
use vstd::string::StringExecFns;

verus! {

/// How many lines are kept.
pub const LOG_LIMIT: usize = 500;

/// The last `LOG_LIMIT` lines of `lines`.
pub open spec fn last_lines(lines: Seq<Seq<char>>) -> Seq<Seq<char>> {
    if lines.len() <= LOG_LIMIT {
        lines
    } else {
        lines.skip(lines.len() - LOG_LIMIT)
    }
}

/// A log line: the level in brackets, a space and the message.
pub open spec fn line_text(level: Seq<char>, message: Seq<char>) -> Seq<char> {
    seq!['['] + level + "] "@ + message
}

/// Makes a log line.
pub fn format_line(level: &str, message: &str) -> (r: String)
    ensures
        r@ == line_text(level@, message@),
{
    let mut r: String = String::new();
    r.push('[');
    r.append(level);
    r.append("] ");
    r.append(message);
    r
}

/// The last lines of the log.
pub struct LogBuffer {
    lines: VecDeque<String>,
}

impl View for LogBuffer {
    type V = Seq<Seq<char>>;

    closed spec fn view(&self) -> Seq<Seq<char>> {
        text::views(self.lines@)
    }
}

impl LogBuffer {
    /// There are never more lines than are kept.
    #[verifier::type_invariant]
    spec fn bounded(self) -> bool {
        self.lines@.len() <= LOG_LIMIT
    }

    /// A log without lines.
    pub fn new() -> (r: LogBuffer)
        ensures
            r@ == Seq::<Seq<char>>::empty(),
    {
        let r = LogBuffer { lines: VecDeque::new() };
        assert(r@ =~= Seq::<Seq<char>>::empty());
        r
    }

    /// Adds a line; the oldest one makes room for it.
    pub fn push(&mut self, line: String)
        ensures
            final(self)@ == last_lines(old(self)@.push(line@)),
            final(self)@.len() <= LOG_LIMIT,
    {
        proof {
            use_type_invariant(&*self);
        }
        let ghost before = self@;
        let mut lines: VecDeque<String> = VecDeque::new();
        std::mem::swap(&mut lines, &mut self.lines);
        lines.push_back(line);
        assert(text::views(lines@) =~= before.push(line@));
        let ghost all = lines@;
        assert(all.skip(0) =~= all);
        while lines.len() > LOG_LIMIT
            invariant
                lines@.len() <= all.len(),
                lines@ == all.skip(all.len() - lines@.len()),
                all.len() > LOG_LIMIT ==> lines@.len() >= LOG_LIMIT,
                all.len() <= LOG_LIMIT ==> lines@ == all,
            decreases lines@.len(),
        {
            let _oldest = lines.pop_front();
            assert(lines@ =~= all.skip(all.len() - lines@.len()));
        }
        assert(text::views(lines@) =~= last_lines(before.push(line@)));
        self.lines = lines;
    }

    /// All lines, the oldest first.
    pub fn get_logs(&self) -> (r: Vec<String>)
        ensures
            text::views(r@) == self@,
    {
        let mut r: Vec<String> = Vec::new();
        let mut k: usize = 0;
        while k < self.lines.len()
            invariant
                k <= self.lines@.len(),
                r@.len() == k,
                forall|i: int| 0 <= i < k ==> (#[trigger] r@[i])@ == self.lines@[i]@,
            decreases self.lines@.len() - k,
        {
            r.push(self.lines[k].clone());
            k += 1;
        }
        assert(text::views(r@) =~= self@);
        r
    }
}

/// The log after all of `lines` have been added to `log`, one by one.
pub open spec fn after_all(log: Seq<Seq<char>>, lines: Seq<Seq<char>>) -> Seq<Seq<char>>
    decreases lines.len(),
{
    if lines.len() == 0 {
        log
    } else {
        last_lines(after_all(log, lines.drop_last()).push(lines.last()))
    }
}

/// However many lines are added, what is kept is the last of all of them, in their order.
pub proof fn law_last_lines_are_kept(lines: Seq<Seq<char>>)
    ensures
        after_all(Seq::empty(), lines) == last_lines(lines),
    decreases lines.len(),
{
    if lines.len() > 0 {
        let init = lines.drop_last();
        law_last_lines_are_kept(init);
        assert(last_lines(last_lines(init).push(lines.last())) =~= last_lines(lines));
    }
}

} // verus!
