//! The progress a remote command reports, OSC 9;4. A malformed or unknown report changes
//! nothing, a share is clamped rather than believed, a refused notification is declined by name,
//! and a command ending takes its bar with it — all in stream order.
use vstd::prelude::*;
use crate::bytes::{
    after, all_decimal, decimal_value, has_prefix, is_decimal, parse_u32, split, split_fields, starts_with,
    to_u32, lemma_split_nonempty,
};
use crate::notify::{refusal, refused};
use crate::osc::{law_osc_chunks, osc_run, osc_strings_view, osc_wf, shift_osc, Framer, OscView};
use crate::osc133::{ends_command, parse_mark, Mark};

verus! {

/// The longest payload buffered while looking for a report.
pub const MAX_PAYLOAD: usize = 128;

/// The largest share the bar can show.
pub const FULL: u32 = 100;

/// What a remote command last reported about its progress. Shares are 0..=100.
#[derive(Debug, Clone, Copy, PartialEq, Eq)]
pub enum Progress {
    /// Nothing to show.
    Nothing,
    /// Working, share unknown (`st = 3`).
    Indeterminate,
    /// This share of the work is done (`st = 1`).
    Working(u8),
    /// The work failed at this share (`st = 2`).
    Failed(u8),
    /// The work is paused at this share (`st = 4`).
    Paused(u8),
}

pub open spec fn share_of(p: Progress) -> Option<u8> {
    match p {
        Progress::Nothing | Progress::Indeterminate => None,
        Progress::Working(s) | Progress::Failed(s) | Progress::Paused(s) => Some(s),
    }
}

impl Progress {
    /// The share reported, when there is one.
    pub fn percent(self) -> (share: Option<u8>)
        ensures
            share == share_of(self),
    {
        match self {
            Progress::Nothing | Progress::Indeterminate => None,
            Progress::Working(share) | Progress::Failed(share) | Progress::Paused(share) => {
                Some(share)
            },
        }
    }
}

/// A reported share, clamped to what the bar can show.
pub open spec fn clamped(value: u32) -> u8 {
    if value > FULL {
        FULL as u8
    } else {
        value as u8
    }
}

/// The report an OSC payload makes, given what is already held; `None` when it is not a
/// progress report or is malformed, which leaves the reading alone.
pub open spec fn parse_report(p: Seq<u8>, current: Progress) -> Option<Progress> {
    if !has_prefix(p, seq![0x39u8, 0x3b, 0x34, 0x3b]) {
        None
    } else {
        let f = split_fields(after(p, 4), 0x3b);
        let share = if f.len() > 1 {
            match parse_u32(f[1]) {
                Some(v) => Some(clamped(v)),
                None => None,
            }
        } else {
            None
        };
        let held = match share_of(current) {
            Some(s) => s,
            None => 0u8,
        };
        match parse_u32(f[0]) {
            None => None,
            Some(state) => if state == 0 {
                Some(Progress::Nothing)
            } else if state == 1 {
                match share {
                    Some(s) => Some(Progress::Working(s)),
                    None => None,
                }
            } else if state == 2 {
                Some(Progress::Failed(
                    match share {
                        Some(s) => s,
                        None => held,
                    },
                ))
            } else if state == 3 {
                Some(Progress::Indeterminate)
            } else if state == 4 {
                Some(Progress::Paused(
                    match share {
                        Some(s) => s,
                        None => held,
                    },
                ))
            } else {
                None
            },
        }
    }
}

/// Bytes with no separator in them only lengthen the last field.
proof fn lemma_split_tail(front: Seq<u8>, tail: Seq<u8>, sep: u8)
    requires
        forall|i: int| 0 <= i < tail.len() ==> tail[i] != sep,
    ensures
        split_fields(front + tail, sep) == split_fields(front, sep).update(
            split_fields(front, sep).len() - 1,
            split_fields(front, sep).last() + tail,
        ),
    decreases tail.len(),
{
    lemma_split_nonempty(front, sep);
    let f = split_fields(front, sep);
    if tail.len() == 0 {
        assert(front + tail =~= front);
        assert(f.last() + tail =~= f.last());
        assert(f.update(f.len() - 1, f.last()) =~= f);
    } else {
        let shorter = tail.drop_last();
        assert forall|i: int| 0 <= i < shorter.len() implies shorter[i] != sep by {
            assert(shorter[i] == tail[i]);
        }
        lemma_split_tail(front, shorter, sep);
        assert((front + tail).drop_last() =~= front + shorter);
        assert((front + tail).last() == tail.last());
        assert(tail[tail.len() - 1] != sep);
        let g = split_fields(front + shorter, sep);
        assert(g.last() == f.last() + shorter);
        assert((f.last() + shorter).push(tail.last()) =~= f.last() + tail);
        assert(g.update(g.len() - 1, g.last().push(tail.last())) =~= f.update(
            f.len() - 1,
            f.last() + tail,
        ));
    }
}

/// One digit is one field, reading as its value.
proof fn lemma_single_field(state: u8)
    requires
        0x30 <= state <= 0x39,
    ensures
        split_fields(seq![state], 0x3b) == seq![seq![state]],
        decimal_value(seq![state]) == (state - 0x30) as nat,
{
    let e = Seq::<u8>::empty();
    let one = seq![state];
    assert(one.drop_last() =~= e);
    assert(one.last() == state);
    assert(split_fields(e, 0x3b) == seq![e]);
    assert(seq![e].update(0, e.push(state)) =~= seq![one]);
    assert(decimal_value(e) == 0);
}

/// The report `9;4;st;N` for a working, failed or paused state with a share written in decimal
/// digits: the share, clamped to full, is the one the payload gives — whatever share was held
/// before.
pub proof fn law_a_given_share_is_the_one_reported(state: u8, digits: Seq<u8>, current: Progress)
    requires
        state == 0x31 || state == 0x32 || state == 0x34,
        digits.len() > 0,
        all_decimal(digits),
        decimal_value(digits) <= u32::MAX,
    ensures
        ({
            let share = (if decimal_value(digits) > 100 {
                100
            } else {
                decimal_value(digits)
            }) as u8;
            parse_report(seq![0x39u8, 0x3b, 0x34, 0x3b, state, 0x3b] + digits, current) == Some(
                if state == 0x31 {
                    Progress::Working(share)
                } else if state == 0x32 {
                    Progress::Failed(share)
                } else {
                    Progress::Paused(share)
                },
            )
        }),
{
    let p = seq![0x39u8, 0x3b, 0x34, 0x3b, state, 0x3b] + digits;
    assert(p.subrange(0, 4) =~= seq![0x39u8, 0x3b, 0x34, 0x3b]);
    let rest = seq![state, 0x3bu8] + digits;
    assert(after(p, 4) =~= rest);
    assert forall|i: int| 0 <= i < digits.len() implies digits[i] != 0x3b by {
        assert(is_decimal(digits[i]));
    }
    lemma_split_tail(seq![state, 0x3bu8], digits, 0x3b);
    let two = seq![state, 0x3bu8];
    assert(two.drop_last() =~= seq![state]);
    assert(seq![state].drop_last() =~= Seq::<u8>::empty());
    lemma_single_field(state);
    assert(split_fields(two, 0x3b) =~= seq![seq![state], Seq::<u8>::empty()]);
    assert(Seq::<u8>::empty() + digits =~= digits);
    let f = split_fields(rest, 0x3b);
    assert(f =~= seq![seq![state], digits]);
    assert(seq![state].drop_last() =~= Seq::<u8>::empty());
    assert(all_decimal(seq![state]));
    assert(parse_u32(f[0]) == Some((state - 0x30) as u32));
    assert(digits[0] != 0x2b) by {
        assert(is_decimal(digits[0]));
    }
    assert(parse_u32(f[1]) == Some(decimal_value(digits) as u32));
}

/// A failed or paused report that gives no share keeps the share held, or 0 when none is; a
/// working report with none is no report at all; state 0 clears the bar and state 3 makes it
/// indeterminate.
pub proof fn law_a_missing_share_keeps_the_held_one(state: u8, current: Progress)
    requires
        0x30 <= state <= 0x34,
    ensures
        ({
            let held = match share_of(current) {
                Some(s) => s,
                None => 0u8,
            };
            parse_report(seq![0x39u8, 0x3b, 0x34, 0x3b, state], current) == if state == 0x30 {
                Some(Progress::Nothing)
            } else if state == 0x31 {
                None
            } else if state == 0x33 {
                Some(Progress::Indeterminate)
            } else if state == 0x32 {
                Some(Progress::Failed(held))
            } else {
                Some(Progress::Paused(held))
            }
        }),
{
    let p = seq![0x39u8, 0x3b, 0x34, 0x3b, state];
    assert(p.subrange(0, 4) =~= seq![0x39u8, 0x3b, 0x34, 0x3b]);
    assert(after(p, 4) =~= seq![state]);
    assert(seq![state].drop_last() =~= Seq::<u8>::empty());
    lemma_single_field(state);
    assert(all_decimal(seq![state]));
}

/// Read one OSC payload as a progress report.
pub fn parse(payload: &[u8], current: Progress) -> (report: Option<Progress>)
    ensures
        report == parse_report(payload@, current),
{
    let prefix: [u8; 4] = [0x39, 0x3b, 0x34, 0x3b];
    assert(prefix@ =~= seq![0x39u8, 0x3b, 0x34, 0x3b]);
    if !starts_with(payload, &prefix) {
        return None;
    }
    let rest = &payload[4..payload.len()];
    let fields = split(rest, 0x3b);
    let ghost f = split_fields(rest@, 0x3b);
    proof {
        lemma_split_nonempty(rest@, 0x3b);
        assert(fields@.len() == f.len());
        assert(fields@[0]@ == f[0]);
    }
    let share = if fields.len() > 1 {
        assert(fields@[1]@ == f[1]);
        match to_u32(fields[1].as_slice()) {
            Some(v) => Some(if v > FULL {
                FULL as u8
            } else {
                v as u8
            }),
            None => None,
        }
    } else {
        None
    };
    let held = match current.percent() {
        Some(s) => s,
        None => 0,
    };
    match to_u32(fields[0].as_slice()) {
        None => None,
        Some(state) => {
            if state == 0 {
                Some(Progress::Nothing)
            } else if state == 1 {
                match share {
                    Some(s) => Some(Progress::Working(s)),
                    None => None,
                }
            } else if state == 2 {
                Some(Progress::Failed(
                    match share {
                        Some(s) => s,
                        None => held,
                    },
                ))
            } else if state == 3 {
                Some(Progress::Indeterminate)
            } else if state == 4 {
                Some(Progress::Paused(
                    match share {
                        Some(s) => s,
                        None => held,
                    },
                ))
            } else {
                None
            }
        },
    }
}

/// What one completed payload does to the reading: a refused notification nothing, a command
/// ending clears it, a report replaces it, anything else leaves it.
pub open spec fn read_payload(current: Progress, p: Seq<u8>) -> Progress {
    if refusal(p) is Some {
        current
    } else if parse_mark(p) matches Some(Mark::CommandEnd(_)) {
        Progress::Nothing
    } else {
        match parse_report(p, current) {
            Some(next) => next,
            None => current,
        }
    }
}

/// The reading after a run of completed payloads, in stream order.
pub open spec fn progress_after(current: Progress, found: Seq<(int, Seq<u8>)>) -> Progress
    decreases found.len(),
{
    if found.len() == 0 {
        current
    } else {
        read_payload(progress_after(current, found.drop_last()), found.last().1)
    }
}

/// Whether a reading's share, if it has one, is one the bar can show.
pub open spec fn share_within_full(p: Progress) -> bool {
    share_of(p) matches Some(s) ==> s <= FULL
}

/// One payload never pushes the share past full: a report's share is clamped, and one that
/// keeps the share held keeps one that was already in range.
pub proof fn lemma_read_keeps_share(current: Progress, p: Seq<u8>)
    requires
        share_within_full(current),
    ensures
        share_within_full(read_payload(current, p)),
{
}

/// However much output is read, from a reading whose share is in range, the share stays at most
/// full.
pub proof fn law_share_never_passes_full(current: Progress, found: Seq<(int, Seq<u8>)>)
    requires
        share_within_full(current),
    ensures
        share_within_full(progress_after(current, found)),
    decreases found.len(),
{
    if found.len() > 0 {
        law_share_never_passes_full(current, found.drop_last());
        lemma_read_keeps_share(progress_after(current, found.drop_last()), found.last().1);
    }
}

/// The progress tracker, abstractly.
pub struct ReportsView {
    pub framer: OscView,
    pub current: Progress,
}

/// The tracker after a chunk of output.
pub open spec fn reports_run(r: ReportsView, bytes: Seq<u8>) -> ReportsView {
    let (framer, found) = osc_run(r.framer, bytes, MAX_PAYLOAD as int);
    ReportsView { framer, current: progress_after(r.current, found) }
}

proof fn lemma_progress_after_concat(current: Progress, x: Seq<(int, Seq<u8>)>, y: Seq<(int, Seq<u8>)>, by: int)
    ensures
        progress_after(current, x + shift_osc(y, by)) == progress_after(progress_after(current, x), y),
    decreases y.len(),
{
    if y.len() == 0 {
        assert(x + shift_osc(y, by) =~= x);
    } else {
        lemma_progress_after_concat(current, x, y.drop_last(), by);
        assert((x + shift_osc(y, by)).drop_last() =~= x + shift_osc(y.drop_last(), by));
    }
}

/// Output fed in two chunks leaves the reading where the same output fed whole would: a report
/// split anywhere is still read, and nothing is read twice.
pub proof fn law_reports_chunks(r: ReportsView, a: Seq<u8>, b: Seq<u8>)
    ensures
        reports_run(reports_run(r, a), b) == reports_run(r, a + b),
{
    law_osc_chunks(r.framer, a, b, MAX_PAYLOAD as int);
    let (mid, first) = osc_run(r.framer, a, MAX_PAYLOAD as int);
    let second = osc_run(mid, b, MAX_PAYLOAD as int).1;
    lemma_progress_after_concat(r.current, first, second, a.len() as int);
}

/// Tracks the progress a tab's remote command reports.
#[derive(Debug)]
pub struct Reports {
    framer: Framer<MAX_PAYLOAD>,
    current: Progress,
}

impl View for Reports {
    type V = ReportsView;

    closed spec fn view(&self) -> ReportsView {
        ReportsView { framer: self.framer@, current: self.current }
    }
}

impl Reports {
    /// The invariant of the framer inside, and a share the bar can show.
    pub open spec fn wf(&self) -> bool {
        &&& osc_wf(self@.framer, MAX_PAYLOAD as int)
        &&& share_within_full(self@.current)
    }

    pub fn new() -> (reports: Reports)
        ensures
            reports.wf(),
            reports@.framer == crate::osc::osc_idle(),
            reports@.current == Progress::Nothing,
    {
        Reports { framer: Framer::new(), current: Progress::Nothing }
    }

    /// Scan a chunk of shell output for progress reports. Safe at any chunk boundary.
    pub fn feed(&mut self, bytes: &[u8])
        requires
            old(self).wf(),
        ensures
            final(self).wf(),
            final(self)@ == reports_run(old(self)@, bytes@),
            final(self)@.framer == osc_run(old(self)@.framer, bytes@, MAX_PAYLOAD as int).0,
            final(self)@.current == progress_after(
                old(self)@.current,
                osc_run(old(self)@.framer, bytes@, MAX_PAYLOAD as int).1,
            ),
    {
        let strings = self.framer.feed(bytes);
        let ghost events = osc_strings_view(strings@);
        let mut k: usize = 0;
        while k < strings.len()
            invariant
                k <= strings@.len(),
                events == osc_strings_view(strings@),
                self.wf(),
                self@.framer == osc_run(old(self)@.framer, bytes@, MAX_PAYLOAD as int).0,
                events == osc_run(old(self)@.framer, bytes@, MAX_PAYLOAD as int).1,
                self.current == progress_after(old(self)@.current, events.take(k as int)),
            decreases strings@.len() - k,
        {
            assert(events.take(k + 1).drop_last() =~= events.take(k as int));
            assert(events.take(k + 1).last() == events[k as int]);
            let payload = strings[k].payload.as_slice();
            if refused(payload).is_some() {
            } else if ends_command(payload) {
                self.current = Progress::Nothing;
            } else {
                match parse(payload, self.current) {
                    Some(next) => self.current = next,
                    None => {},
                }
            }
            k = k + 1;
        }
        assert(events.take(events.len() as int) =~= events);
        proof {
            law_share_never_passes_full(old(self)@.current, events);
        }
    }

    /// What this tab last reported.
    pub fn current(&self) -> (current: Progress)
        ensures
            current == self@.current,
    {
        self.current
    }
}

impl Default for Reports {
    fn default() -> (reports: Self)
        ensures
            reports.wf(),
            reports@.framer == crate::osc::osc_idle(),
            reports@.current == Progress::Nothing,
    {
        Self::new()
    }
}

/// A refused notification never moves the reading, and a payload that is neither a report nor a
/// command ending leaves it where it was — a garbled report never wipes a real one.
pub proof fn law_only_reports_move_the_bar(current: Progress, p: Seq<u8>)
    ensures
        refusal(p) is Some ==> read_payload(current, p) == current,
        refusal(p) is None && !(parse_mark(p) matches Some(Mark::CommandEnd(_))) && parse_report(p, current)
            is None ==> read_payload(current, p) == current,
{
}

} // verus!
