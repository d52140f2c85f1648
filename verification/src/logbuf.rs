//! The system log shown in the UI: how an event's fields become one line of
//! text, and the capped, numbered history of lines.

use vstd::prelude::*;

use std::collections::VecDeque;

use crate::engine::views;
use crate::pending::last_n;
use crate::text::{
    extend_chars, find, occurs_at, push_str, slice_range, str_chars, string_from_chars, trim,
    trim_chars,
};

verus! {

/// One captured log line.
pub struct LogLine {
    pub id: u64,
    pub time: String,
    pub level: String,
    pub message: String,
}

pub struct LogLineView {
    pub id: u64,
    pub time: Seq<char>,
    pub level: Seq<char>,
    pub message: Seq<char>,
}

impl View for LogLine {
    type V = LogLineView;

    open spec fn view(&self) -> LogLineView {
        LogLineView { id: self.id, time: self.time@, level: self.level@, message: self.message@ }
    }
}

/// An event's text after one more field: the `message` field is appended
/// after a space (none before the first text), any other field as
/// ` name=value`.
pub open spec fn with_field(message: Seq<char>, field: Seq<char>, rendered: Seq<char>) -> Seq<
    char,
> {
    if field == "message"@ {
        if message.len() == 0 {
            rendered
        } else {
            message + seq![' '] + rendered
        }
    } else {
        message + seq![' '] + field + seq!['='] + rendered
    }
}

/// Add one recorded field (its value already rendered with `Debug`).
pub fn append_field(message: &mut String, field: &str, rendered: &str)
    ensures
        final(message)@ == with_field(old(message)@, field@, rendered@),
{
    let name = str_chars(field);
    let msg = str_chars("message");
    let mut out = str_chars(message.as_str());
    if crate::sort::seq_eq(name.as_slice(), msg.as_slice()) {
        if out.len() > 0 {
            out.push(' ');
        }
        push_str(&mut out, rendered);
    } else {
        out.push(' ');
        extend_chars(&mut out, name.as_slice());
        out.push('=');
        push_str(&mut out, rendered);
    }
    *message = string_from_chars(out.as_slice());
}

/// The part of an event's target before the first `::` (the crate name).
pub open spec fn target_crate(target: Seq<char>) -> Seq<char> {
    if exists|i: int| #[trigger] occurs_at(target, "::"@, i) && 0 <= i {
        target.subrange(0, first_sep(target))
    } else {
        target
    }
}

/// The first position of `::`.
pub open spec fn first_sep(target: Seq<char>) -> int {
    choose|i: int|
        0 <= i && occurs_at(target, "::"@, i) && forall|j: int|
            0 <= j < i ==> !#[trigger] occurs_at(target, "::"@, j)
}

/// The line shown for an event: the crate name, then `: ` and the trimmed
/// text when there is any.
pub open spec fn event_line(target: Seq<char>, text: Seq<char>) -> Seq<char> {
    if trim(text).len() == 0 {
        target_crate(target)
    } else {
        target_crate(target) + ": "@ + trim(text)
    }
}

pub fn event_message(target: &str, text: &str) -> (r: String)
    ensures
        r@ == event_line(target@, text@),
{
    let t = str_chars(target);
    let sep = str_chars("::");
    let src = match find(t.as_slice(), sep.as_slice()) {
        Some(i) => {
            proof {
                assert(occurs_at(t@, "::"@, i as int));
            }
            slice_range(t.as_slice(), 0, i)
        },
        None => t,
    };
    let body = trim_chars(str_chars(text).as_slice());
    let mut out = src;
    if body.len() > 0 {
        push_str(&mut out, ": ");
        extend_chars(&mut out, body.as_slice());
    }
    string_from_chars(out.as_slice())
}

/// Every line pushed, numbered from 1 in push order; each entry is the
/// `(time, level, message)` of one push.
pub open spec fn numbered(entries: Seq<(Seq<char>, Seq<char>, Seq<char>)>) -> Seq<LogLineView> {
    Seq::new(
        entries.len(),
        |i: int|
            LogLineView {
                id: (i + 1) as u64,
                time: entries[i].0,
                level: entries[i].1,
                message: entries[i].2,
            },
    )
}

/// The capped history of log lines; every line gets the next number.
pub struct LogRing {
    ring: VecDeque<LogLine>,
    next_id: u64,
    cap: usize,
    pushed: Ghost<Seq<(Seq<char>, Seq<char>, Seq<char>)>>,
}

pub open spec fn line_views(s: Seq<LogLine>) -> Seq<LogLineView> {
    s.map_values(|l: LogLine| l@)
}

impl LogRing {
    pub closed spec fn lines_view(&self) -> Seq<LogLineView> {
        line_views(self.ring@)
    }

    pub closed spec fn next_id_view(&self) -> u64 {
        self.next_id
    }

    pub closed spec fn cap_view(&self) -> nat {
        self.cap as nat
    }

    /// Every `(time, level, message)` pushed so far, oldest first.
    pub closed spec fn pushed_view(&self) -> Seq<(Seq<char>, Seq<char>, Seq<char>)> {
        self.pushed@
    }

    /// The ring holds the last `cap` of the lines pushed, numbered from 1 in
    /// push order, and the next number follows the last one given.
    pub open spec fn wf(&self) -> bool {
        &&& self.lines_view() == last_n(numbered(self.pushed_view()), self.cap_view())
        &&& self.next_id_view() == self.pushed_view().len() + 1
    }

    /// An empty history holding at most `cap` lines; numbering starts at 1.
    pub fn new(cap: usize) -> (r: Self)
        ensures
            r.wf(),
            r.lines_view() == Seq::<LogLineView>::empty(),
            r.pushed_view() == Seq::<(Seq<char>, Seq<char>, Seq<char>)>::empty(),
            r.next_id_view() == 1,
            r.cap_view() == cap,
    {
        let r = LogRing { ring: VecDeque::new(), next_id: 1, cap, pushed: Ghost(Seq::empty()) };
        assert(r.lines_view() =~= Seq::<LogLineView>::empty());
        assert(numbered(r.pushed_view()) =~= Seq::<LogLineView>::empty());
        r
    }

    /// Whether another line can still be numbered.
    pub fn can_push(&self) -> (r: bool)
        ensures
            r == (self.next_id_view() < u64::MAX),
    {
        self.next_id < u64::MAX
    }

    /// Record a line: it gets the next number, and the oldest lines are
    /// dropped so that at most `cap` remain. Returns the line's number.
    pub fn push(&mut self, time: String, level: String, message: String) -> (id: u64)
        requires
            old(self).next_id_view() < u64::MAX,
        ensures
            id == old(self).next_id_view(),
            final(self).next_id_view() == old(self).next_id_view() + 1,
            final(self).cap_view() == old(self).cap_view(),
            final(self).lines_view() == last_n(
                old(self).lines_view().push(
                    LogLineView { id, time: time@, level: level@, message: message@ },
                ),
                old(self).cap_view(),
            ),
            final(self).pushed_view() == old(self).pushed_view().push((time@, level@, message@)),
            old(self).wf() ==> final(self).wf(),
    {
        let ghost entry = (time@, level@, message@);
        let ghost before_pushed = self.pushed@;
        let ghost was_wf = self.wf();
        let id = self.next_id;
        let line = LogLine { id, time, level, message };
        self.next_id = self.next_id + 1;
        let ghost before = self.ring@;
        crate::pending::push_capped(&mut self.ring, line, self.cap);
        self.pushed = Ghost(before_pushed.push(entry));
        proof {
            let full = before.push(line);
            assert(line_views(full) =~= line_views(before).push(line@));
            if full.len() <= self.cap {
                assert(line_views(self.ring@) =~= line_views(full));
            } else {
                assert(line_views(self.ring@) =~= line_views(full).subrange(
                    full.len() - self.cap,
                    full.len() as int,
                ));
            }
            if was_wf {
                crate::pending::lemma_last_n_push(numbered(before_pushed), line@, self.cap as nat);
                assert(numbered(before_pushed).push(line@) =~= numbered(before_pushed.push(entry)));
            }
        }
        id
    }

    /// The buffered history, oldest first: for a ring made by `new` and
    /// grown by `push`, the last `cap` lines pushed, the i-th numbered i.
    pub fn history(&self) -> (r: Vec<LogLine>)
        ensures
            line_views(r@) == self.lines_view(),
            self.wf() ==> line_views(r@) == last_n(numbered(self.pushed_view()), self.cap_view()),
    {
        let mut out: Vec<LogLine> = Vec::new();
        let mut i: usize = 0;
        while i < self.ring.len()
            invariant
                i <= self.ring@.len(),
                line_views(out@) == line_views(self.ring@).subrange(0, i as int),
            decreases self.ring@.len() - i,
        {
            let l = &self.ring[i];
            let c = LogLine {
                id: l.id,
                time: l.time.clone(),
                level: l.level.clone(),
                message: l.message.clone(),
            };
            let ghost prev = line_views(out@);
            assert(c@ == self.ring@[i as int]@);
            assert(line_views(self.ring@)[i as int] == self.ring@[i as int]@);
            out.push(c);
            assert(line_views(out@) =~= prev.push(self.ring@[i as int]@));
            assert(line_views(out@) =~= line_views(self.ring@).subrange(0, i + 1));
            i += 1;
        }
        assert(line_views(self.ring@).subrange(0, i as int) =~= line_views(self.ring@));
        out
    }
}

/// In a ring made by `new` and grown by `push`, the history is the last
/// `min(n, cap)` of the n lines pushed, oldest first, and the numbers rise
/// by one from line to line.
pub proof fn law_ring_keeps_last_lines(r: LogRing)
    requires
        r.wf(),
    ensures
        r.lines_view() == last_n(numbered(r.pushed_view()), r.cap_view()),
        r.lines_view().len() == if r.pushed_view().len() <= r.cap_view() {
            r.pushed_view().len()
        } else {
            r.cap_view()
        },
        forall|i: int|
            0 <= i && i + 1 < r.lines_view().len() ==> #[trigger] r.lines_view()[i + 1].id
                == r.lines_view()[i].id + 1,
{
    let n = numbered(r.pushed_view());
    if n.len() > r.cap_view() {
        let off = n.len() - r.cap_view();
        assert forall|i: int| 0 <= i && i + 1 < r.lines_view().len() implies #[trigger] r.lines_view()[
            i + 1].id == r.lines_view()[i].id + 1 by {
            assert(r.lines_view()[i] == n[i + off]);
            assert(r.lines_view()[i + 1] == n[i + 1 + off]);
        }
    }
}

} // verus!
