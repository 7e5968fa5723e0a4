//! The shell-integration prompt marks, OSC 133: a scanner that turns the byte stream into marks,
//! and a model that folds them into where every prompt sits, whether a command is running, how
//! the last one ended, and which lines each finished command's output occupies.
use vstd::prelude::*;
use crate::bytes::{bytes_equal, lemma_split_nonempty, parse_i32, split, split_fields, to_i32};
use crate::osc::{law_osc_chunks, osc_run, osc_strings_view, osc_wf, shift_osc, Framer, OscView};
use crate::rect::{unscroll_map, unscrolled_wf, Unscrolled};

verus! {

/// The longest OSC 133 payload buffered; past it the payload is abandoned.
pub const MAX_PAYLOAD: usize = 512;

/// The most prompt marks (and bookmarks) kept; past this the oldest is dropped.
pub const MAX_MARKS: usize = 4096;

/// The most finished commands whose output span is kept.
pub const MAX_COMMANDS: usize = 4096;

/// One shell-integration mark, as read off the wire.
#[derive(Debug, Clone, Copy, PartialEq, Eq)]
pub enum Mark {
    /// `133;A` (also `N` and `P`) — a new prompt is about to be drawn.
    PromptStart,
    /// `133;B` (also `I`) — the prompt is written and the user's input starts.
    PromptEnd,
    /// `133;C` — the command's output begins.
    OutputStart,
    /// `133;D` — the command finished, with its exit code when the shell reported a readable one.
    CommandEnd(Option<i32>),
}

/// Whether a field is exactly the one letter `letter`.
pub open spec fn is_letter(field: Seq<u8>, letter: u8) -> bool {
    field.len() == 1 && field[0] == letter
}

/// `k=s` or `k=c`: a continuation prompt, which is not a new prompt.
pub open spec fn is_continuation_kind(field: Seq<u8>) -> bool {
    field == seq![0x6bu8, 0x3d, 0x73] || field == seq![0x6bu8, 0x3d, 0x63]
}

/// The mark an OSC payload is, or `None` when it is some other OSC. The first `;` field must be
/// `133`, the second is the whole phase letter, and only `D`'s exit code is read after it — except
/// that a `k=s` or `k=c` field anywhere after the letter of a prompt start drops the mark.
pub open spec fn parse_mark(p: Seq<u8>) -> Option<Mark> {
    let f = split_fields(p, 0x3b);
    if f.len() < 2 || f[0] != seq![0x31u8, 0x33, 0x33] {
        None
    } else if is_letter(f[1], 0x41) || is_letter(f[1], 0x4e) || is_letter(f[1], 0x50) {
        if exists|i: int| 2 <= i < f.len() && #[trigger] is_continuation_kind(f[i]) {
            None
        } else {
            Some(Mark::PromptStart)
        }
    } else if is_letter(f[1], 0x42) || is_letter(f[1], 0x49) {
        Some(Mark::PromptEnd)
    } else if is_letter(f[1], 0x43) {
        Some(Mark::OutputStart)
    } else if is_letter(f[1], 0x44) {
        Some(
            Mark::CommandEnd(
                if f.len() > 2 {
                    parse_i32(f[2])
                } else {
                    None
                },
            ),
        )
    } else {
        None
    }
}

fn single(field: &Vec<u8>, letter: u8) -> (same: bool)
    ensures
        same == is_letter(field@, letter),
{
    field.len() == 1 && field[0] == letter
}

fn continuation_kind(field: &Vec<u8>) -> (found: bool)
    ensures
        found == is_continuation_kind(field@),
{
    let s: [u8; 3] = [0x6b, 0x3d, 0x73];
    let c: [u8; 3] = [0x6b, 0x3d, 0x63];
    assert(s@ =~= seq![0x6bu8, 0x3d, 0x73]);
    assert(c@ =~= seq![0x6bu8, 0x3d, 0x63]);
    bytes_equal(field.as_slice(), &s) || bytes_equal(field.as_slice(), &c)
}

/// Pull an OSC 133 mark out of a payload, or `None` when the payload is some other OSC.
pub fn parse(payload: &[u8]) -> (mark: Option<Mark>)
    ensures
        mark == parse_mark(payload@),
{
    let fields = split(payload, 0x3b);
    let ghost f = split_fields(payload@, 0x3b);
    proof {
        lemma_split_nonempty(payload@, 0x3b);
        assert(fields@.len() == f.len());
    }
    let code: [u8; 3] = [0x31, 0x33, 0x33];
    assert(code@ =~= seq![0x31u8, 0x33, 0x33]);
    if fields.len() < 2 {
        return None;
    }
    assert(fields@[0]@ == f[0]);
    assert(fields@[1]@ == f[1]);
    if !bytes_equal(fields[0].as_slice(), &code) {
        return None;
    }
    let letter = &fields[1];
    if single(letter, 0x41) || single(letter, 0x4e) || single(letter, 0x50) {
        let mut i: usize = 2;
        while i < fields.len()
            invariant
                2 <= i <= fields@.len(),
                fields@.map_values(|v: Vec<u8>| v@) == f,
                f.len() >= 2,
                f[0] == seq![0x31u8, 0x33, 0x33],
                is_letter(f[1], 0x41) || is_letter(f[1], 0x4e) || is_letter(f[1], 0x50),
                f == split_fields(payload@, 0x3b),
                forall|j: int| 2 <= j < i ==> !is_continuation_kind(#[trigger] f[j]),
            decreases fields@.len() - i,
        {
            assert(fields@[i as int]@ == f[i as int]);
            if continuation_kind(&fields[i]) {
                assert(is_continuation_kind(f[i as int]));
                return None;
            }
            i = i + 1;
        }
        return Some(Mark::PromptStart);
    }
    if single(letter, 0x42) || single(letter, 0x49) {
        return Some(Mark::PromptEnd);
    }
    if single(letter, 0x43) {
        return Some(Mark::OutputStart);
    }
    if single(letter, 0x44) {
        if fields.len() > 2 {
            assert(fields@[2]@ == f[2]);
            return Some(Mark::CommandEnd(to_i32(fields[2].as_slice())));
        }
        return Some(Mark::CommandEnd(None));
    }
    None
}

/// Whether an OSC payload is the mark that ends a command (`133;D`).
pub fn ends_command(payload: &[u8]) -> (ends: bool)
    ensures
        ends == (parse_mark(payload@) matches Some(Mark::CommandEnd(_))),
{
    match parse(payload) {
        Some(Mark::CommandEnd(_)) => true,
        _ => false,
    }
}

/// The marks among a run's completed payloads, with their offsets, in order.
pub open spec fn marks_in(found: Seq<(int, Seq<u8>)>) -> Seq<(int, Mark)>
    decreases found.len(),
{
    if found.len() == 0 {
        Seq::empty()
    } else {
        let before = marks_in(found.drop_last());
        match parse_mark(found.last().1) {
            Some(m) => before.push((found.last().0, m)),
            None => before,
        }
    }
}

pub open spec fn marks_view(found: Seq<(usize, Mark)>) -> Seq<(int, Mark)> {
    found.map_values(|m: (usize, Mark)| (m.0 as int, m.1))
}

/// Marks moved `by` bytes later.
pub open spec fn shift_marks(found: Seq<(int, Mark)>, by: int) -> Seq<(int, Mark)> {
    found.map_values(|m: (int, Mark)| (m.0 + by, m.1))
}

/// The scanner's state after a chunk, and the marks found in it.
pub open spec fn marks_run(s: OscView, bytes: Seq<u8>) -> (OscView, Seq<(int, Mark)>) {
    let (after, found) = osc_run(s, bytes, MAX_PAYLOAD as int);
    (after, marks_in(found))
}

proof fn lemma_marks_in_concat(x: Seq<(int, Seq<u8>)>, y: Seq<(int, Seq<u8>)>, by: int)
    ensures
        marks_in(x + shift_osc(y, by)) == marks_in(x) + shift_marks(marks_in(y), by),
    decreases y.len(),
{
    if y.len() == 0 {
        assert(x + shift_osc(y, by) =~= x);
        assert(marks_in(x) + shift_marks(Seq::empty(), by) =~= marks_in(x));
    } else {
        lemma_marks_in_concat(x, y.drop_last(), by);
        assert((x + shift_osc(y, by)).drop_last() =~= x + shift_osc(y.drop_last(), by));
        let before = marks_in(y.drop_last());
        match parse_mark(y.last().1) {
            Some(m) => {
                assert(shift_marks(before.push((y.last().0, m)), by) =~= shift_marks(before, by).push(
                    (y.last().0 + by, m),
                ));
                assert(marks_in(x) + shift_marks(before, by).push((y.last().0 + by, m)) =~= (marks_in(
                    x,
                ) + shift_marks(before, by)).push((y.last().0 + by, m)));
            },
            None => {},
        }
    }
}

/// Output fed in two chunks yields the marks it yields fed whole, each at its place in the whole:
/// a mark split anywhere — even between the ESC and the `]` — completes on the chunk that ends it.
pub proof fn law_marks_chunks(s: OscView, a: Seq<u8>, b: Seq<u8>)
    ensures
        ({
            let (mid, first) = marks_run(s, a);
            let (end, second) = marks_run(mid, b);
            marks_run(s, a + b) == (end, first + shift_marks(second, a.len() as int))
        }),
{
    law_osc_chunks(s, a, b, MAX_PAYLOAD as int);
    let (mid, first) = osc_run(s, a, MAX_PAYLOAD as int);
    lemma_marks_in_concat(first, osc_run(mid, b, MAX_PAYLOAD as int).1, a.len() as int);
}

/// Reads OSC 133 marks out of the shell's output.
#[derive(Debug)]
pub struct Scanner {
    framer: Framer<MAX_PAYLOAD>,
}

impl View for Scanner {
    type V = OscView;

    closed spec fn view(&self) -> OscView {
        self.framer@
    }
}

impl Scanner {
    /// The invariant of the framer inside.
    pub open spec fn wf(&self) -> bool {
        osc_wf(self@, MAX_PAYLOAD as int)
    }

    pub fn new() -> (scanner: Scanner)
        ensures
            scanner.wf(),
            scanner@ == crate::osc::osc_idle(),
    {
        Scanner { framer: Framer::new() }
    }

    /// Scan a chunk, returning every mark that finished in it with the offset just past its
    /// terminator. Safe at any chunk boundary.
    pub fn feed(&mut self, bytes: &[u8]) -> (found: Vec<(usize, Mark)>)
        requires
            old(self).wf(),
        ensures
            final(self).wf(),
            final(self)@ == osc_run(old(self)@, bytes@, MAX_PAYLOAD as int).0,
            marks_view(found@) == marks_in(osc_run(old(self)@, bytes@, MAX_PAYLOAD as int).1),
    {
        let strings = self.framer.feed(bytes);
        let ghost events = osc_strings_view(strings@);
        let mut found: Vec<(usize, Mark)> = Vec::new();
        let mut k: usize = 0;
        while k < strings.len()
            invariant
                k <= strings@.len(),
                events == osc_strings_view(strings@),
                marks_view(found@) == marks_in(events.take(k as int)),
            decreases strings@.len() - k,
        {
            assert(events.take(k + 1).drop_last() =~= events.take(k as int));
            assert(events.take(k + 1).last() == events[k as int]);
            let ghost before = found@;
            match parse(strings[k].payload.as_slice()) {
                Some(mark) => {
                    found.push((strings[k].end, mark));
                    assert(marks_view(found@) =~= marks_view(before).push(
                        (strings@[k as int].end as int, mark),
                    ));
                },
                None => {},
            }
            k = k + 1;
        }
        assert(events.take(events.len() as int) =~= events);
        found
    }
}

/// Where the command cycle stands.
#[derive(Debug, Clone, Copy, PartialEq, Eq)]
pub enum CommandState {
    /// Before the first prompt, or after a command finished.
    Idle,
    /// A prompt is showing.
    Prompt,
    /// The command's output is streaming.
    Running,
}

/// Which way a prompt jump moves.
#[derive(Debug, Clone, Copy, PartialEq, Eq)]
pub enum Osc133Direction {
    Previous,
    Next,
}

/// One finished command's span in absolute lines: the prompt line, the line its output began on,
/// and the line it finished on. The output is the half-open range `output .. end`.
#[derive(Debug, Clone, Copy, PartialEq, Eq)]
pub struct Osc133Command {
    pub prompt: u64,
    pub output: u64,
    pub end: u64,
}

/// A command's output as a half-open range, or `None` when it printed nothing.
pub open spec fn command_range(c: Osc133Command) -> Option<(u64, u64)> {
    if c.output < c.end {
        Some((c.output, c.end))
    } else {
        None
    }
}

impl Osc133Command {
    pub fn range(self) -> (range: Option<(u64, u64)>)
        ensures
            range == command_range(self),
    {
        if self.output < self.end {
            Some((self.output, self.end))
        } else {
            None
        }
    }
}

/// A command being stitched together as its marks arrive.
#[derive(Debug, Clone, Copy, PartialEq, Eq)]
pub struct Pending {
    pub prompt: u64,
    pub output: Option<u64>,
}

/// The whole OSC 133 model, abstractly.
pub struct PromptsView {
    pub scanner: OscView,
    pub marks: Seq<u64>,
    pub user_marks: Seq<u64>,
    pub state: CommandState,
    pub last_exit: Option<i32>,
    pub commands: Seq<Osc133Command>,
    pub pending: Option<Pending>,
    pub walk: Option<usize>,
}

/// A ring that keeps at most `cap` items: pushing past it drops the oldest.
pub open spec fn bounded_push<T>(s: Seq<T>, item: T, cap: int) -> Seq<T> {
    if s.len() + 1 > cap {
        s.push(item).drop_first()
    } else {
        s.push(item)
    }
}

/// A line recorded into a mark ring: a repeat of the last line is ignored.
pub open spec fn record_line(s: Seq<u64>, line: u64) -> Seq<u64> {
    if s.len() > 0 && s.last() == line {
        s
    } else {
        bounded_push(s, line, MAX_MARKS as int)
    }
}

/// A finished command filed into the ring of spans.
pub open spec fn file_span(commands: Seq<Osc133Command>, pending: Pending, end: u64) -> Seq<
    Osc133Command,
> {
    bounded_push(
        commands,
        Osc133Command {
            prompt: pending.prompt,
            output: match pending.output {
                Some(o) => o,
                None => end,
            },
            end,
        },
        MAX_COMMANDS as int,
    )
}

/// One mark folded into the model, at absolute line `line`.
pub open spec fn apply_mark(p: PromptsView, mark: Mark, line: u64) -> PromptsView {
    match mark {
        Mark::PromptStart => PromptsView {
            state: CommandState::Prompt,
            marks: record_line(p.marks, line),
            pending: Some(Pending { prompt: line, output: None }),
            ..p
        },
        Mark::PromptEnd => p,
        Mark::OutputStart => PromptsView {
            state: CommandState::Running,
            pending: match p.pending {
                Some(pd) => Some(Pending { output: Some(line), ..pd }),
                None => None,
            },
            ..p
        },
        Mark::CommandEnd(exit) => match p.pending {
            Some(pd) => PromptsView {
                state: CommandState::Idle,
                last_exit: exit,
                commands: file_span(p.commands, pd, line),
                pending: None,
                walk: None,
                ..p
            },
            None => PromptsView { state: CommandState::Idle, last_exit: exit, ..p },
        },
    }
}

pub open spec fn prompts_wf(p: PromptsView) -> bool {
    &&& osc_wf(p.scanner, MAX_PAYLOAD as int)
    &&& p.marks.len() <= MAX_MARKS
    &&& p.user_marks.len() <= MAX_MARKS
    &&& p.commands.len() <= MAX_COMMANDS
    &&& (p.walk matches Some(w) ==> w < p.commands.len())
}

/// The newest index at or below `at` whose command printed something.
pub open spec fn walk_from(commands: Seq<Osc133Command>, at: int) -> Option<int>
    decreases at + 1,
{
    if at < 0 || at >= commands.len() {
        None
    } else if command_range(commands[at]) is Some {
        Some(at)
    } else {
        walk_from(commands, at - 1)
    }
}

/// Where a walk starts looking: one before the last command it gave, or the newest.
pub open spec fn walk_start(p: PromptsView) -> int {
    match p.walk {
        Some(w) => w - 1,
        None => p.commands.len() - 1,
    }
}

/// The newest command whose prompt sat on `prompt`.
pub open spec fn last_at_prompt(commands: Seq<Osc133Command>, prompt: u64) -> Option<int>
    decreases commands.len(),
{
    if commands.len() == 0 {
        None
    } else if commands.last().prompt == prompt {
        Some(commands.len() - 1)
    } else {
        last_at_prompt(commands.drop_last(), prompt)
    }
}

/// Lines carried through a remap `f`, in order, dropping the ones it sends to `None`.
pub open spec fn remap_lines(s: Seq<u64>, f: spec_fn(u64) -> Option<u64>) -> Seq<u64>
    decreases s.len(),
{
    if s.len() == 0 {
        Seq::empty()
    } else {
        let before = remap_lines(s.drop_last(), f);
        match f(s.last()) {
            Some(l) => before.push(l),
            None => before,
        }
    }
}

/// Command spans carried through a remap; a span loses all of itself if it loses any line.
pub open spec fn remap_commands(s: Seq<Osc133Command>, f: spec_fn(u64) -> Option<u64>) -> Seq<
    Osc133Command,
>
    decreases s.len(),
{
    if s.len() == 0 {
        Seq::empty()
    } else {
        let before = remap_commands(s.drop_last(), f);
        let c = s.last();
        match (f(c.prompt), f(c.output), f(c.end)) {
            (Some(a), Some(b), Some(e)) => before.push(Osc133Command { prompt: a, output: b, end: e }),
            _ => before,
        }
    }
}

/// The command in flight carried through a remap; it survives only if every line it holds does.
pub open spec fn remap_pending(pending: Option<Pending>, f: spec_fn(u64) -> Option<u64>) -> Option<
    Pending,
> {
    match pending {
        None => None,
        Some(pd) => match f(pd.prompt) {
            None => None,
            Some(prompt) => match pd.output {
                None => Some(Pending { prompt, output: None }),
                Some(o) => match f(o) {
                    Some(output) => Some(Pending { prompt, output: Some(output) }),
                    None => None,
                },
            },
        },
    }
}

/// The remap an unscroll makes of the line numbers.
pub open spec fn unscroll_remap(u: Unscrolled) -> spec_fn(u64) -> Option<u64> {
    |line: u64| unscroll_map(u, line)
}

/// The remap that leaves every line where it is.
pub open spec fn identity_remap() -> spec_fn(u64) -> Option<u64> {
    |line: u64| Some(line)
}

/// Whether every answer the closure `remap` can give is the one the spec map `f` gives.
pub open spec fn agrees<F: Fn(u64) -> Option<u64>>(remap: F, f: spec_fn(u64) -> Option<u64>) -> bool {
    forall|line: u64, r: Option<u64>| #[trigger] call_ensures(remap, (line,), r) ==> r == f(line)
}

/// The model after a remap of its lines: every remembered line carried through it, and the walk
/// restarted.
pub open spec fn renumbered(p: PromptsView, f: spec_fn(u64) -> Option<u64>) -> PromptsView {
    PromptsView {
        marks: remap_lines(p.marks, f),
        user_marks: remap_lines(p.user_marks, f),
        commands: remap_commands(p.commands, f),
        pending: remap_pending(p.pending, f),
        walk: None,
        ..p
    }
}

/// An absolute line as a signed number, saturating at the top of `i64`.
pub open spec fn signed_line(line: int) -> int {
    if line <= i64::MAX {
        line
    } else {
        i64::MAX as int
    }
}

/// The absolute line the viewport's top row shows.
pub open spec fn viewport_top(history: int, offset: int) -> int {
    signed_line(history) - signed_line(offset)
}

/// Mark lines projected onto the viewport rows that are on screen.
pub open spec fn project_rows(marks: Seq<u64>, history: int, offset: int, screen: int) -> Seq<u16>
    decreases marks.len(),
{
    if marks.len() == 0 {
        Seq::empty()
    } else {
        let before = project_rows(marks.drop_last(), history, offset, screen);
        let row = signed_line(marks.last() as int) - viewport_top(history, offset);
        if 0 <= row < signed_line(screen) && row <= u16::MAX {
            before.push(row as u16)
        } else {
            before
        }
    }
}

/// The viewport row an absolute line falls on, counted from the top of the viewport.
pub open spec fn row_of(line: u64, history: int, offset: int) -> int {
    signed_line(line as int) - viewport_top(history, offset)
}

/// Within `i64`, a line's viewport row is its distance below the viewport's top line, which is
/// the scrollback's length less how far the view is scrolled back.
pub proof fn law_row_of_a_line(line: u64, history: int, offset: int)
    requires
        0 <= history <= i64::MAX,
        0 <= offset <= i64::MAX,
        line <= i64::MAX,
    ensures
        row_of(line, history, offset) == line - (history - offset),
{
}

/// Only marks on screen are reported, and every mark on screen is: each row given is below the
/// screen's last and is the row of one of the marks, and each mark whose row is on the screen
/// has its row given. A mark scrolled off the top or below the bottom is dropped.
pub proof fn law_visible_rows_are_the_marks_on_screen(marks: Seq<u64>, history: int, offset: int, screen: int)
    requires
        0 <= screen,
    ensures
        project_rows(marks, history, offset, screen).len() <= marks.len(),
        forall|i: int|
            0 <= i < project_rows(marks, history, offset, screen).len() ==> {
                let r = #[trigger] project_rows(marks, history, offset, screen)[i];
                &&& r < screen
                &&& exists|j: int| 0 <= j < marks.len() && #[trigger] row_of(marks[j], history, offset) == r
            },
        forall|j: int|
            0 <= j < marks.len() && 0 <= #[trigger] row_of(marks[j], history, offset) < screen && row_of(
                marks[j],
                history,
                offset,
            ) <= u16::MAX ==> project_rows(marks, history, offset, screen).contains(
                row_of(marks[j], history, offset) as u16,
            ),
    decreases marks.len(),
{
    if marks.len() > 0 {
        let front = marks.drop_last();
        law_visible_rows_are_the_marks_on_screen(front, history, offset, screen);
        let before = project_rows(front, history, offset, screen);
        let all = project_rows(marks, history, offset, screen);
        let last = marks.last();
        assert(signed_line(screen) <= screen);
        assert forall|i: int| 0 <= i < all.len() implies {
            let r = #[trigger] all[i];
            &&& r < screen
            &&& exists|j: int| 0 <= j < marks.len() && #[trigger] row_of(marks[j], history, offset) == r
        } by {
            if i < before.len() {
                assert(all[i] == before[i]);
                let j = choose|j: int| 0 <= j < front.len() && #[trigger] row_of(front[j], history, offset)
                    == before[i];
                assert(front[j] == marks[j]);
            } else {
                assert(marks[marks.len() - 1] == last);
                assert(row_of(marks[marks.len() - 1], history, offset) == all[i]);
            }
        }
        assert forall|j: int|
            0 <= j < marks.len() && 0 <= #[trigger] row_of(marks[j], history, offset) < screen && row_of(
                marks[j],
                history,
                offset,
            ) <= u16::MAX implies all.contains(row_of(marks[j], history, offset) as u16) by {
            let r = row_of(marks[j], history, offset);
            if j < front.len() {
                assert(front[j] == marks[j]);
                assert(row_of(front[j], history, offset) == r);
                assert(before.contains(r as u16));
                let i = choose|i: int| 0 <= i < before.len() && before[i] == r as u16;
                assert(all[i] == before[i]);
            } else {
                assert(marks[j] == last);
                assert(signed_line(screen) == screen || signed_line(screen) == i64::MAX);
                assert(all[all.len() - 1] == r as u16);
            }
        }
    }
}

/// The greatest signed mark line strictly below `top`, over a list of lines.
pub open spec fn nearest_above(lines: Seq<u64>, top: int) -> Option<int>
    decreases lines.len(),
{
    if lines.len() == 0 {
        None
    } else {
        let before = nearest_above(lines.drop_last(), top);
        let here = signed_line(lines.last() as int);
        if here < top {
            match before {
                Some(b) => Some(if b >= here { b } else { here }),
                None => Some(here),
            }
        } else {
            before
        }
    }
}

/// The least signed mark line strictly past `top`, over a list of lines.
pub open spec fn nearest_below(lines: Seq<u64>, top: int) -> Option<int>
    decreases lines.len(),
{
    if lines.len() == 0 {
        None
    } else {
        let before = nearest_below(lines.drop_last(), top);
        let here = signed_line(lines.last() as int);
        if here > top {
            match before {
                Some(b) => Some(if b <= here { b } else { here }),
                None => Some(here),
            }
        } else {
            before
        }
    }
}

/// Where a jump lands: the display offset that puts the nearest mark in that direction on the
/// viewport's top row, clamped to the retained history.
pub open spec fn jump_target(
    marks: Seq<u64>,
    user_marks: Seq<u64>,
    direction: Osc133Direction,
    history: int,
    offset: int,
) -> Option<usize> {
    let h = signed_line(history);
    let top = viewport_top(history, offset);
    let all = marks + user_marks;
    let target = match direction {
        Osc133Direction::Previous => nearest_above(all, top),
        Osc133Direction::Next => nearest_below(all, top),
    };
    match target {
        None => None,
        Some(t) => {
            let o = h - t;
            Some(
                (if o < 0 {
                    0
                } else if o > h {
                    h
                } else {
                    o
                }) as usize,
            )
        },
    }
}

/// The OSC 133 model for one terminal.
#[derive(Debug)]
pub struct Prompts {
    scanner: Scanner,
    marks: Vec<u64>,
    user_marks: Vec<u64>,
    state: CommandState,
    last_exit: Option<i32>,
    commands: Vec<Osc133Command>,
    pending: Option<Pending>,
    walk: Option<usize>,
}

impl View for Prompts {
    type V = PromptsView;

    closed spec fn view(&self) -> PromptsView {
        PromptsView {
            scanner: self.scanner@,
            marks: self.marks@,
            user_marks: self.user_marks@,
            state: self.state,
            last_exit: self.last_exit,
            commands: self.commands@,
            pending: self.pending,
            walk: self.walk,
        }
    }
}

/// A line number from an engine's row count plus a row, or `None` past `u64`.
pub open spec fn absolute_line(history_size: usize, row: u16) -> int {
    history_size as int + row as int
}

fn push_line(ring: &mut Vec<u64>, line: u64)
    requires
        old(ring)@.len() <= MAX_MARKS,
    ensures
        final(ring)@ == record_line(old(ring)@, line),
        final(ring)@.len() <= MAX_MARKS,
{
    if ring.len() > 0 && ring[ring.len() - 1] == line {
        return;
    }
    ring.push(line);
    if ring.len() > MAX_MARKS {
        ring.remove(0);
    }
    assert(ring@ =~= record_line(old(ring)@, line));
}

impl Prompts {
    pub closed spec fn wf(&self) -> bool {
        prompts_wf(self@)
    }

    pub fn new() -> (prompts: Prompts)
        ensures
            prompts.wf(),
            prompts@.scanner == crate::osc::osc_idle(),
            prompts@.marks.len() == 0,
            prompts@.user_marks.len() == 0,
            prompts@.state == CommandState::Idle,
            prompts@.last_exit is None,
            prompts@.commands.len() == 0,
            prompts@.pending is None,
            prompts@.walk is None,
    {
        Prompts {
            scanner: Scanner::new(),
            marks: Vec::new(),
            user_marks: Vec::new(),
            state: CommandState::Idle,
            last_exit: None,
            commands: Vec::new(),
            pending: None,
            walk: None,
        }
    }

    /// Scan a chunk for OSC 133 marks, each with its byte offset, so the caller can advance the
    /// engine to it before applying it.
    pub fn feed(&mut self, bytes: &[u8]) -> (found: Vec<(usize, Mark)>)
        requires
            old(self).wf(),
        ensures
            final(self).wf(),
            final(self)@ == (PromptsView {
                scanner: osc_run(old(self)@.scanner, bytes@, MAX_PAYLOAD as int).0,
                ..old(self)@
            }),
            marks_view(found@) == marks_in(
                osc_run(old(self)@.scanner, bytes@, MAX_PAYLOAD as int).1,
            ),
    {
        self.scanner.feed(bytes)
    }

    /// Fold one mark into the model, now that the engine has been advanced to it; the cursor sat
    /// on row `row` of the page with `history_size` lines scrolled off above it.
    pub fn apply(&mut self, mark: Mark, history_size: usize, row: u16)
        requires
            old(self).wf(),
            absolute_line(history_size, row) <= u64::MAX,
        ensures
            final(self).wf(),
            final(self)@ == apply_mark(
                old(self)@,
                mark,
                absolute_line(history_size, row) as u64,
            ),
    {
        let absolute = history_size as u64 + row as u64;
        match mark {
            Mark::PromptStart => {
                self.state = CommandState::Prompt;
                push_line(&mut self.marks, absolute);
                self.pending = Some(Pending { prompt: absolute, output: None });
            },
            Mark::PromptEnd => {},
            Mark::OutputStart => {
                self.state = CommandState::Running;
                match self.pending {
                    Some(pd) => {
                        self.pending = Some(Pending { prompt: pd.prompt, output: Some(absolute) });
                    },
                    None => {},
                }
            },
            Mark::CommandEnd(exit) => {
                self.state = CommandState::Idle;
                self.last_exit = exit;
                match self.pending {
                    Some(pd) => {
                        self.pending = None;
                        self.file_command(pd, absolute);
                    },
                    None => {},
                }
            },
        }
    }

    /// Record an explicit bookmark at the cursor's line, deduped against the last one.
    pub fn record_user_mark(&mut self, history_size: usize, row: u16)
        requires
            old(self).wf(),
            absolute_line(history_size, row) <= u64::MAX,
        ensures
            final(self).wf(),
            final(self)@ == (PromptsView {
                user_marks: record_line(
                    old(self)@.user_marks,
                    absolute_line(history_size, row) as u64,
                ),
                ..old(self)@
            }),
    {
        let absolute = history_size as u64 + row as u64;
        push_line(&mut self.user_marks, absolute);
    }

    /// File a finished command's span, bounded like the prompt ring, and restart the walk.
    fn file_command(&mut self, pending: Pending, end: u64)
        requires
            old(self).wf(),
        ensures
            final(self).wf(),
            final(self)@ == (PromptsView {
                commands: file_span(old(self)@.commands, pending, end),
                walk: None,
                ..old(self)@
            }),
    {
        self.walk = None;
        let output = match pending.output {
            Some(o) => o,
            None => end,
        };
        self.commands.push(Osc133Command { prompt: pending.prompt, output, end });
        if self.commands.len() > MAX_COMMANDS {
            self.commands.remove(0);
        }
        assert(self.commands@ =~= file_span(old(self)@.commands, pending, end));
    }

    /// The next output span going back through the session: the newest finished command's on
    /// the first call, the one before it on the next, stepping over commands that printed
    /// nothing. `None` once nothing older has output, and the walk then stays where it was.
    pub fn walk_output(&mut self) -> (range: Option<(u64, u64)>)
        requires
            old(self).wf(),
        ensures
            final(self).wf(),
            match walk_from(old(self)@.commands, walk_start(old(self)@)) {
                Some(i) => range == command_range(old(self)@.commands[i]) && final(self)@ == (
                PromptsView { walk: Some(i as usize), ..old(self)@ }),
                None => range is None && final(self)@ == old(self)@,
            },
    {
        let start = match self.walk {
            Some(at) => at.checked_sub(1),
            None => self.commands.len().checked_sub(1),
        };
        let mut at = match start {
            Some(a) => a,
            None => {
                return None;
            },
        };
        loop
            invariant
                self.wf(),
                self@ == old(self)@,
                at < self@.commands.len(),
                walk_from(self@.commands, walk_start(self@)) == walk_from(self@.commands, at as int),
            decreases at,
        {
            let range = self.commands[at].range();
            if range.is_some() {
                self.walk = Some(at);
                return range;
            }
            if at == 0 {
                assert(walk_from(self@.commands, -1) is None);
                return None;
            }
            at = at - 1;
        }
    }

    /// Start the walk over, so the next call takes the newest command again.
    pub fn restart_walk(&mut self)
        requires
            old(self).wf(),
        ensures
            final(self).wf(),
            final(self)@ == (PromptsView { walk: None, ..old(self)@ }),
    {
        self.walk = None;
    }

    /// The output span of the newest finished command whose prompt sat on `prompt`, parking the
    /// walk on it; `None` when no finished command started there or it printed nothing.
    pub fn output_at_prompt(&mut self, prompt: u64) -> (range: Option<(u64, u64)>)
        requires
            old(self).wf(),
        ensures
            final(self).wf(),
            match last_at_prompt(old(self)@.commands, prompt) {
                Some(i) => match command_range(old(self)@.commands[i]) {
                    Some(r) => range == Some(r) && final(self)@ == (PromptsView {
                        walk: Some(i as usize),
                        ..old(self)@
                    }),
                    None => range is None && final(self)@ == old(self)@,
                },
                None => range is None && final(self)@ == old(self)@,
            },
    {
        let mut n = self.commands.len();
        assert(self@.commands.take(n as int) =~= self@.commands);
        loop
            invariant
                self.wf(),
                self@ == old(self)@,
                n <= self@.commands.len(),
                last_at_prompt(self@.commands, prompt) == last_at_prompt(
                    self@.commands.take(n as int),
                    prompt,
                ),
            decreases n,
        {
            if n == 0 {
                return None;
            }
            assert(self@.commands.take(n as int).drop_last() =~= self@.commands.take(n - 1));
            if self.commands[n - 1].prompt == prompt {
                let at = n - 1;
                let range = self.commands[at].range();
                if range.is_some() {
                    self.walk = Some(at);
                }
                return range;
            }
            n = n - 1;
        }
    }

    /// Forget every prompt, bookmark and command span, and the one being assembled.
    pub fn clear(&mut self)
        requires
            old(self).wf(),
        ensures
            final(self).wf(),
            final(self)@ == (PromptsView {
                marks: Seq::empty(),
                user_marks: Seq::empty(),
                commands: Seq::empty(),
                pending: None,
                walk: None,
                ..old(self)@
            }),
    {
        self.marks.clear();
        self.user_marks.clear();
        self.commands.clear();
        self.pending = None;
        self.walk = None;
    }

    /// Move every remembered line through `remap`: a line moves to the number it gives, a line it
    /// sends to `None` is dropped, a command span is dropped whole if any of its three lines is,
    /// and the command in flight only survives if every line it holds does. For any spec map the
    /// closure's answers agree with, the model is `renumbered` by that map.
    pub fn renumber<F: Fn(u64) -> Option<u64>>(&mut self, remap: F)
        requires
            old(self).wf(),
            forall|line: u64| call_requires(remap, (line,)),
        ensures
            final(self).wf(),
            final(self)@.scanner == old(self)@.scanner,
            final(self)@.state == old(self)@.state,
            final(self)@.last_exit == old(self)@.last_exit,
            final(self)@.walk is None,
            forall|f: spec_fn(u64) -> Option<u64>|
                #[trigger] agrees(remap, f) ==> final(self)@ == renumbered(old(self)@, f),
    {
        self.marks = remap_vec(&self.marks, &remap);
        self.user_marks = remap_vec(&self.user_marks, &remap);
        let mut commands: Vec<Osc133Command> = Vec::new();
        let mut k: usize = 0;
        while k < self.commands.len()
            invariant
                k <= self.commands@.len(),
                self.commands@ == old(self)@.commands,
                forall|f: spec_fn(u64) -> Option<u64>|
                    #[trigger] agrees(remap, f) ==> commands@ == remap_commands(
                        self.commands@.take(k as int),
                        f,
                    ),
                commands@.len() <= k,
                forall|line: u64| call_requires(remap, (line,)),
            decreases self.commands@.len() - k,
        {
            assert(self.commands@.take(k + 1).drop_last() =~= self.commands@.take(k as int));
            let c = self.commands[k];
            let a = remap(c.prompt);
            let b = remap(c.output);
            let e = remap(c.end);
            let ghost before = commands@;
            match (a, b, e) {
                (Some(a), Some(b), Some(e)) => {
                    commands.push(Osc133Command { prompt: a, output: b, end: e });
                },
                _ => {},
            }
            proof {
                assert forall|f: spec_fn(u64) -> Option<u64>| #[trigger] agrees(remap, f) implies commands@
                    == remap_commands(self.commands@.take(k + 1), f) by {
                    assert(call_ensures(remap, (c.prompt,), a));
                    assert(call_ensures(remap, (c.output,), b));
                    assert(call_ensures(remap, (c.end,), e));
                    assert(self.commands@.take(k + 1).last() == c);
                }
            }
            k = k + 1;
        }
        assert(self.commands@.take(self.commands@.len() as int) =~= self.commands@);
        self.commands = commands;
        self.pending = match self.pending {
            None => None,
            Some(pd) => {
                let prompt = remap(pd.prompt);
                proof {
                    assert(call_ensures(remap, (pd.prompt,), prompt));
                }
                match prompt {
                    None => None,
                    Some(prompt) => match pd.output {
                        None => Some(Pending { prompt, output: None }),
                        Some(o) => {
                            let output = remap(o);
                            proof {
                                assert(call_ensures(remap, (o,), output));
                            }
                            match output {
                                Some(output) => Some(Pending { prompt, output: Some(output) }),
                                None => None,
                            }
                        },
                    },
                }
            },
        };
        self.walk = None;
    }

    /// Where the command cycle stands.
    pub fn state(&self) -> (state: CommandState)
        ensures
            state == self@.state,
    {
        self.state
    }

    /// The exit code of the last command that reported one.
    pub fn last_exit(&self) -> (exit: Option<i32>)
        ensures
            exit == self@.last_exit,
    {
        self.last_exit
    }

    /// The viewport rows that hold a prompt mark.
    pub fn visible_rows(&self, history_size: usize, display_offset: usize, screen_lines: usize) -> (rows:
        Vec<u16>)
        ensures
            rows@ == project_rows(
                self@.marks,
                history_size as int,
                display_offset as int,
                screen_lines as int,
            ),            forall|i: int| 0 <= i < rows@.len() ==> (#[trigger] rows@[i]) < screen_lines,
    {
        proof {
            law_visible_rows_are_the_marks_on_screen(self@.marks, history_size as int, display_offset as int, screen_lines as int);
        }
        project(&self.marks, history_size, display_offset, screen_lines)
    }

    /// The viewport rows that hold a bookmark.
    pub fn visible_user_rows(
        &self,
        history_size: usize,
        display_offset: usize,
        screen_lines: usize,
    ) -> (rows: Vec<u16>)
        ensures
            rows@ == project_rows(
                self@.user_marks,
                history_size as int,
                display_offset as int,
                screen_lines as int,
            ),            forall|i: int| 0 <= i < rows@.len() ==> (#[trigger] rows@[i]) < screen_lines,
    {
        proof {
            law_visible_rows_are_the_marks_on_screen(self@.user_marks, history_size as int, display_offset as int, screen_lines as int);
        }
        project(&self.user_marks, history_size, display_offset, screen_lines)
    }

    /// The display offset that scrolls the nearest mark (prompt or bookmark) above or below the
    /// viewport's top into view, clamped to the retained history; `None` when there is none.
    pub fn jump(&self, direction: Osc133Direction, history_size: usize, display_offset: usize) -> (offset:
        Option<usize>)
        requires
            self.wf(),
        ensures
            offset == jump_target(
                self@.marks,
                self@.user_marks,
                direction,
                history_size as int,
                display_offset as int,
            ),
    {
        let history = signed(history_size as u64);
        let top = history - signed(display_offset as u64);
        let found = match direction {
            Osc133Direction::Previous => nearest(&self.marks, &self.user_marks, top, true),
            Osc133Direction::Next => nearest(&self.marks, &self.user_marks, top, false),
        };
        match found {
            None => None,
            Some(target) => {
                let o = history - target;
                let clamped = if o < 0 {
                    0
                } else if o > history {
                    history
                } else {
                    o
                };
                Some(clamped as usize)
            },
        }
    }
}

/// An absolute line as a signed number, saturating at the top of `i64`, widened so the
/// differences taken from it cannot overflow.
fn signed(line: u64) -> (s: i128)
    ensures
        s == signed_line(line as int),
{
    if line <= i64::MAX as u64 {
        line as i128
    } else {
        i64::MAX as i128
    }
}

fn remap_vec<F: Fn(u64) -> Option<u64>>(lines: &Vec<u64>, remap: &F) -> (moved: Vec<u64>)
    requires
        lines@.len() <= MAX_MARKS,
        forall|line: u64| call_requires(*remap, (line,)),
    ensures
        forall|f: spec_fn(u64) -> Option<u64>|
            #[trigger] agrees(*remap, f) ==> moved@ == remap_lines(lines@, f),
        moved@.len() <= lines@.len(),
{
    let mut moved: Vec<u64> = Vec::new();
    let mut k: usize = 0;
    while k < lines.len()
        invariant
            k <= lines@.len(),
            lines@.len() <= MAX_MARKS,
            forall|f: spec_fn(u64) -> Option<u64>|
                #[trigger] agrees(*remap, f) ==> moved@ == remap_lines(lines@.take(k as int), f),
            moved@.len() <= k,
            forall|line: u64| call_requires(*remap, (line,)),
        decreases lines@.len() - k,
    {
        assert(lines@.take(k + 1).drop_last() =~= lines@.take(k as int));
        let line = lines[k];
        let r = remap(line);
        match r {
            Some(l) => moved.push(l),
            None => {},
        }
        proof {
            assert forall|f: spec_fn(u64) -> Option<u64>| #[trigger] agrees(*remap, f) implies moved@
                == remap_lines(lines@.take(k + 1), f) by {
                assert(call_ensures(*remap, (line,), r));
                assert(lines@.take(k + 1).last() == line);
            }
        }
        k = k + 1;
    }
    assert(lines@.take(lines@.len() as int) =~= lines@);
    moved
}

/// Absolute mark lines projected onto the viewport rows that are on screen.
fn project(marks: &Vec<u64>, history_size: usize, display_offset: usize, screen_lines: usize) -> (rows:
    Vec<u16>)
    ensures
        rows@ == project_rows(
            marks@,
            history_size as int,
            display_offset as int,
            screen_lines as int,
        ),
{
    let top = signed(history_size as u64) - signed(display_offset as u64);
    let limit = signed(screen_lines as u64);
    let mut rows: Vec<u16> = Vec::new();
    let mut k: usize = 0;
    while k < marks.len()
        invariant
            k <= marks@.len(),
            top == viewport_top(history_size as int, display_offset as int),
            limit == signed_line(screen_lines as int),
            rows@ == project_rows(
                marks@.take(k as int),
                history_size as int,
                display_offset as int,
                screen_lines as int,
            ),
        decreases marks@.len() - k,
    {
        assert(marks@.take(k + 1).drop_last() =~= marks@.take(k as int));
        let row = signed(marks[k]) - top;
        if 0 <= row && row < limit && row <= u16::MAX as i128 {
            rows.push(row as u16);
        }
        k = k + 1;
    }
    assert(marks@.take(marks@.len() as int) =~= marks@);
    rows
}

/// A widened optional line as a mathematical one.
pub open spec fn widen(o: Option<i128>) -> Option<int> {
    match o {
        Some(v) => Some(v as int),
        None => None,
    }
}

/// The nearest signed mark line strictly above (`above`) or below `top` over both rings.
fn nearest(marks: &Vec<u64>, user_marks: &Vec<u64>, top: i128, above: bool) -> (found: Option<i128>)
    requires
        marks@.len() <= MAX_MARKS,
        user_marks@.len() <= MAX_MARKS,
    ensures
        found matches Some(b) ==> 0 <= b <= i64::MAX,
        widen(found) == (if above {
            nearest_above(marks@ + user_marks@, top as int)
        } else {
            nearest_below(marks@ + user_marks@, top as int)
        }),
{
    let ghost all = marks@ + user_marks@;
    let mut best: Option<i128> = None;
    let mut k: usize = 0;
    let total = marks.len() + user_marks.len();
    while k < total
        invariant
            k <= total,
            total == all.len(),
            all == marks@ + user_marks@,
            widen(best) == (if above {
                nearest_above(all.take(k as int), top as int)
            } else {
                nearest_below(all.take(k as int), top as int)
            }),
            best matches Some(b) ==> 0 <= b <= i64::MAX,
        decreases total - k,
    {
        assert(all.take(k + 1).drop_last() =~= all.take(k as int));
        let line = if k < marks.len() {
            marks[k]
        } else {
            user_marks[k - marks.len()]
        };
        assert(line == all[k as int]);
        let here = signed(line);
        if above {
            if here < top {
                best = match best {
                    Some(b) => Some(if b >= here { b } else { here }),
                    None => Some(here),
                };
            }
        } else {
            if here > top {
                best = match best {
                    Some(b) => Some(if b <= here { b } else { here }),
                    None => Some(here),
                };
            }
        }
        k = k + 1;
    }
    assert(all.take(all.len() as int) =~= all);
    best
}

impl Default for Scanner {
    fn default() -> (scanner: Self)
        ensures
            scanner.wf(),
            scanner@ == crate::osc::osc_idle(),
    {
        Self::new()
    }
}

impl Default for Prompts {
    fn default() -> (prompts: Self)
        ensures
            prompts.wf(),
            prompts@.scanner == crate::osc::osc_idle(),
            prompts@.marks.len() == 0,
            prompts@.user_marks.len() == 0,
            prompts@.state == CommandState::Idle,
            prompts@.last_exit is None,
            prompts@.commands.len() == 0,
            prompts@.pending is None,
            prompts@.walk is None,
    {
        Self::new()
    }
}

/// A prompt redrawn on the line it already holds is not recorded twice: applying the same
/// prompt start again changes nothing.
pub proof fn law_redrawn_prompt_recorded_once(p: PromptsView, line: u64)
    ensures
        apply_mark(apply_mark(p, Mark::PromptStart, line), Mark::PromptStart, line) == apply_mark(
            p,
            Mark::PromptStart,
            line,
        ),
{
    let once = apply_mark(p, Mark::PromptStart, line);
    assert(once.marks.len() > 0 && once.marks.last() == line);
}

/// Every mark moves the command cycle as the shell meant it: a prompt start shows a prompt, an
/// output start runs a command, a command end goes idle with the exit it reported, and the end of
/// the prompt moves nothing. Only a command end touches the last exit.
pub proof fn law_command_state_follows_marks(p: PromptsView, mark: Mark, line: u64)
    ensures
        apply_mark(p, mark, line).state == match mark {
            Mark::PromptStart => CommandState::Prompt,
            Mark::PromptEnd => p.state,
            Mark::OutputStart => CommandState::Running,
            Mark::CommandEnd(_) => CommandState::Idle,
        },
        apply_mark(p, mark, line).last_exit == match mark {
            Mark::CommandEnd(exit) => exit,
            _ => p.last_exit,
        },
{
}

/// Renumbering with the remap that keeps every line changes nothing but the walk, which restarts
/// from the newest command. Every answer the model gives (visible rows, bookmarks, jumps, spans,
/// state and exit) is therefore the one it gave before.
pub proof fn law_identity_renumber_changes_only_the_walk(p: PromptsView)
    ensures
        renumbered(p, identity_remap()) == (PromptsView { walk: None, ..p }),
{
    lemma_identity_lines(p.marks);
    lemma_identity_lines(p.user_marks);
    lemma_identity_commands(p.commands);
}

proof fn lemma_identity_lines(s: Seq<u64>)
    ensures
        remap_lines(s, identity_remap()) == s,
    decreases s.len(),
{
    if s.len() > 0 {
        lemma_identity_lines(s.drop_last());
        assert(s.drop_last().push(s.last()) =~= s);
    }
}

proof fn lemma_identity_commands(s: Seq<Osc133Command>)
    ensures
        remap_commands(s, identity_remap()) == s,
    decreases s.len(),
{
    if s.len() > 0 {
        lemma_identity_commands(s.drop_last());
        assert(s.drop_last().push(s.last()) =~= s);
    }
}

/// When the scrollback could fill the whole unscroll, every recorded line on the page survives
/// with the number it had.
pub proof fn law_filled_unscroll_renumbers_nothing(s: Seq<u64>, u: Unscrolled)
    requires
        u.shift == 0,
        forall|i: int| 0 <= i < s.len() ==> (#[trigger] s[i]) < u.discard_from,
    ensures
        remap_lines(s, unscroll_remap(u)) == s,
    decreases s.len(),
{
    if s.len() > 0 {
        assert forall|i: int| 0 <= i < s.drop_last().len() implies (#[trigger] s.drop_last()[i])
            < u.discard_from by {
            assert(s.drop_last()[i] == s[i]);
        }
        law_filled_unscroll_renumbers_nothing(s.drop_last(), u);
        assert(s.last() < u.discard_from);
        assert(s.drop_last().push(s.last()) =~= s);
    }
}

proof fn lemma_walk_from(commands: Seq<Osc133Command>, at: int)
    ensures
        walk_from(commands, at) matches Some(i) ==> 0 <= i <= at && i < commands.len() && command_range(
            commands[i],
        ) is Some,
    decreases at + 1,
{
    if 0 <= at < commands.len() && command_range(commands[at]) is None {
        lemma_walk_from(commands, at - 1);
    }
}

/// Each press of the walk goes further back: the command it lands on is older than the one it
/// left, and is always one that printed something.
pub proof fn law_walk_goes_back(p: PromptsView)
    requires
        prompts_wf(p),
    ensures
        walk_from(p.commands, walk_start(p)) matches Some(i) ==> 0 <= i < p.commands.len()
            && command_range(p.commands[i]) is Some && (p.walk matches Some(w) ==> i < w),
{
    lemma_walk_from(p.commands, walk_start(p));
}

} // verus!
