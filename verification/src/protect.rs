//! Selective erase: DECSCA marks what the pen writes as protected, DECSED and DECSEL erase around
//! the protected cells, and DECSTR soft-resets. Protection rides a spare bit of the engine's
//! per-cell flag word; this module holds the grammar, the bit arithmetic and the erase regions.
use vstd::prelude::*;
use crate::csi::{empty_params, params_push, params_value, params_wf, Params, ParamsView, ESC};
use std::ops::Range;

verus! {

/// The most intermediate bytes buffered before a sequence is dropped.
pub const MAX_INTERMEDIATES: usize = 4;

/// The bit borrowed inside the engine's 16-bit per-cell flag word to mean "protected".
pub const PROTECTED_BIT: u16 = 0x8000;

/// Whether a flag word carries the protection bit.
pub open spec fn is_protected_flags(flags: u16) -> bool {
    flags >= PROTECTED_BIT
}

/// A flag word with the protection bit set.
pub open spec fn mark_flags(flags: u16) -> u16 {
    if flags >= PROTECTED_BIT {
        flags
    } else {
        (flags + PROTECTED_BIT) as u16
    }
}

/// A flag word with the protection bit cleared.
pub open spec fn unmark_flags(flags: u16) -> u16 {
    if flags >= PROTECTED_BIT {
        (flags - PROTECTED_BIT) as u16
    } else {
        flags
    }
}

/// Whether a cell's flag word says the program protected it.
pub fn is_protected(flags: u16) -> (protected: bool)
    ensures
        protected == is_protected_flags(flags),
{
    flags >= PROTECTED_BIT
}

/// The same flag word with protection added.
pub fn mark(flags: u16) -> (marked: u16)
    ensures
        marked == mark_flags(flags),
{
    if flags >= PROTECTED_BIT {
        flags
    } else {
        flags + PROTECTED_BIT
    }
}

/// The same flag word with protection removed.
pub fn unmark(flags: u16) -> (unmarked: u16)
    ensures
        unmarked == unmark_flags(flags),
{
    if flags >= PROTECTED_BIT {
        flags - PROTECTED_BIT
    } else {
        flags
    }
}

/// How far a selective erase reaches.
#[derive(Debug, Clone, Copy, PartialEq, Eq)]
pub enum Extent {
    /// From the cursor to the end (`Ps = 0`, the default).
    ToEnd,
    /// From the start up to and including the cursor (`Ps = 1`).
    ToStart,
    /// All of it (`Ps = 2`).
    All,
}

/// Which selective erase a program asked for.
#[derive(Debug, Clone, Copy, PartialEq, Eq)]
pub enum Erase {
    /// DECSED — `CSI ? Ps J`.
    Display(Extent),
    /// DECSEL — `CSI ? Ps K`.
    Line(Extent),
}

/// Something the stream asked to be done about protection, once the engine is past the sequence.
#[derive(Debug, Clone, Copy, PartialEq, Eq)]
pub enum Request {
    /// DECSCA moved the pen in or out of protecting; also `false` for RIS.
    Protect(bool),
    /// DECSTR — the soft reset.
    SoftReset,
    /// An SGR passed while the pen was armed, so the protection bit must be put back.
    Reassert,
    /// A selective erase to perform.
    Erase(Erase),
}

/// Where the scanner is in the byte stream.
#[derive(Debug, Clone, Copy, PartialEq, Eq)]
pub enum Scan {
    Text,
    Escape,
    Csi,
}

/// The scanner, abstractly.
pub struct ProtectView {
    pub scan: Scan,
    pub marker: Option<u8>,
    pub params: ParamsView,
    pub intermediates: Seq<u8>,
    pub armed: bool,
}

pub open spec fn protect_wf(p: ProtectView) -> bool {
    &&& params_wf(p.params)
    &&& p.intermediates.len() <= MAX_INTERMEDIATES + 1
    &&& p.scan is Csi ==> p.intermediates.len() <= MAX_INTERMEDIATES
}

/// The first parameter, an omitted one reading as 0; `None` when it is no plain number (a `:`
/// sub-parameter closes it), which leaves the sequence unclassified rather than guessed at.
pub open spec fn first_param(p: ParamsView) -> Option<u16> {
    if p.first_sub {
        None
    } else {
        match params_value(p, 0) {
            Some(v) => Some(v),
            None => Some(0u16),
        }
    }
}

pub open spec fn extent_of(p: ParamsView) -> Option<Extent> {
    match first_param(p) {
        Some(v) => if v == 0 {
            Some(Extent::ToEnd)
        } else if v == 1 {
            Some(Extent::ToStart)
        } else if v == 2 {
            Some(Extent::All)
        } else {
            None
        },
        None => None,
    }
}

/// What a finished sequence means, and whether the pen is armed after it. Final byte, marker and
/// intermediates are matched together, which keeps the near-miss spellings out.
pub open spec fn classify_final(p: ProtectView, final_byte: u8) -> (bool, Option<Request>) {
    if final_byte == 0x71 && p.marker is None && p.intermediates == seq![0x22u8] {
        let armed = first_param(p.params) == Some(1u16);
        (armed, Some(Request::Protect(armed)))
    } else if final_byte == 0x70 && p.marker is None && p.intermediates == seq![0x21u8] {
        (false, Some(Request::SoftReset))
    } else if final_byte == 0x4a && p.marker == Some(0x3fu8) && p.intermediates.len() == 0 {
        (
            p.armed,
            match extent_of(p.params) {
                Some(e) => Some(Request::Erase(Erase::Display(e))),
                None => None,
            },
        )
    } else if final_byte == 0x4b && p.marker == Some(0x3fu8) && p.intermediates.len() == 0 {
        (
            p.armed,
            match extent_of(p.params) {
                Some(e) => Some(Request::Erase(Erase::Line(e))),
                None => None,
            },
        )
    } else if final_byte == 0x6d && p.marker is None && p.intermediates.len() == 0 && p.armed {
        (p.armed, Some(Request::Reassert))
    } else {
        (p.armed, None)
    }
}

pub open spec fn to_scan(p: ProtectView, scan: Scan) -> ProtectView {
    ProtectView { scan, ..p }
}

/// One byte through the scanner.
pub open spec fn protect_step(p: ProtectView, byte: u8) -> (ProtectView, Option<Request>) {
    match p.scan {
        Scan::Text => if byte == ESC {
            (to_scan(p, Scan::Escape), None)
        } else {
            (p, None)
        },
        Scan::Escape => if byte == 0x5b {
            (
                ProtectView {
                    scan: Scan::Csi,
                    marker: None,
                    params: empty_params(),
                    intermediates: Seq::empty(),
                    armed: p.armed,
                },
                None,
            )
        } else if byte == 0x63 {
            (ProtectView { scan: Scan::Text, armed: false, ..p }, Some(Request::Protect(false)))
        } else if byte == ESC {
            (p, None)
        } else {
            (to_scan(p, Scan::Text), None)
        },
        Scan::Csi => if 0x30 <= byte <= 0x3f {
            if p.params.fields.len() == 0 && p.marker is None && byte >= 0x3c {
                (ProtectView { marker: Some(byte), ..p }, None)
            } else {
                match params_push(p.params, byte) {
                    Some(q) => (ProtectView { params: q, ..p }, None),
                    None => (to_scan(p, Scan::Text), None),
                }
            }
        } else if 0x20 <= byte <= 0x2f {
            let q = ProtectView { intermediates: p.intermediates.push(byte), ..p };
            if q.intermediates.len() > MAX_INTERMEDIATES {
                (to_scan(q, Scan::Text), None)
            } else {
                (q, None)
            }
        } else if 0x40 <= byte <= 0x7e {
            let (armed, request) = classify_final(p, byte);
            (ProtectView { scan: Scan::Text, armed, ..p }, request)
        } else if byte == ESC {
            (to_scan(p, Scan::Escape), None)
        } else {
            (to_scan(p, Scan::Text), None)
        },
    }
}

/// A chunk through the scanner: the state after it and every request, each with the offset one
/// past the sequence that carried it.
pub open spec fn protect_run(p: ProtectView, bytes: Seq<u8>) -> (ProtectView, Seq<(int, Request)>)
    decreases bytes.len(),
{
    if bytes.len() == 0 {
        (p, Seq::empty())
    } else {
        let (before, found) = protect_run(p, bytes.drop_last());
        let (after, request) = protect_step(before, bytes.last());
        match request {
            Some(r) => (after, found.push((bytes.len() as int, r))),
            None => (after, found),
        }
    }
}

/// Requests moved `by` bytes later.
pub open spec fn shift_protect(found: Seq<(int, Request)>, by: int) -> Seq<(int, Request)> {
    found.map_values(|r: (int, Request)| (r.0 + by, r.1))
}

/// Output fed in two chunks yields the requests it yields fed whole, each at its place in the
/// whole, and leaves the scanner where it would be: a sequence may be split anywhere, even between
/// the ESC and the `[`.
pub proof fn law_protect_chunks(p: ProtectView, a: Seq<u8>, b: Seq<u8>)
    ensures
        ({
            let (mid, first) = protect_run(p, a);
            let (end, second) = protect_run(mid, b);
            protect_run(p, a + b) == (end, first + shift_protect(second, a.len() as int))
        }),
    decreases b.len(),
{
    let (mid, first) = protect_run(p, a);
    if b.len() == 0 {
        assert(a + b =~= a);
        assert(first + shift_protect(Seq::<(int, Request)>::empty(), a.len() as int) =~= first);
    } else {
        law_protect_chunks(p, a, b.drop_last());
        assert((a + b).drop_last() =~= a + b.drop_last());
        assert((a + b).last() == b.last());
        let (end0, second0) = protect_run(mid, b.drop_last());
        let (end, request) = protect_step(end0, b.last());
        match request {
            Some(r) => {
                let at = (b.len() + a.len()) as int;
                assert(shift_protect(second0.push((b.len() as int, r)), a.len() as int) =~= shift_protect(
                    second0,
                    a.len() as int,
                ).push((at, r)));
                assert(first + shift_protect(second0, a.len() as int).push((at, r)) =~= (first
                    + shift_protect(second0, a.len() as int)).push((at, r)));
            },
            None => {},
        }
    }
}

pub open spec fn requests_view(found: Seq<(usize, Request)>) -> Seq<(int, Request)> {
    found.map_values(|r: (usize, Request)| (r.0 as int, r.1))
}

/// The selective-erase scanner.
#[derive(Debug)]
pub struct Protect {
    scan: Scan,
    marker: Option<u8>,
    params: Params,
    intermediates: Vec<u8>,
    armed: bool,
}

impl View for Protect {
    type V = ProtectView;

    closed spec fn view(&self) -> ProtectView {
        ProtectView {
            scan: self.scan,
            marker: self.marker,
            params: self.params@,
            intermediates: self.intermediates@,
            armed: self.armed,
        }
    }
}

impl Protect {
    pub open spec fn wf(&self) -> bool {
        protect_wf(self@)
    }

    pub fn new() -> (protect: Protect)
        ensures
            protect.wf(),
            protect@ == (ProtectView {
                scan: Scan::Text,
                marker: None,
                params: empty_params(),
                intermediates: Seq::empty(),
                armed: false,
            }),
    {
        Protect {
            scan: Scan::Text,
            marker: None,
            params: Params::new(),
            intermediates: Vec::new(),
            armed: false,
        }
    }

    /// Whether DECSCA has the pen protecting right now.
    pub fn armed(&self) -> (armed: bool)
        ensures
            armed == self@.armed,
    {
        self.armed
    }

    /// How many parameter digits the sequence in flight holds: a runaway digit run costs no more
    /// than five a parameter.
    pub fn held_digits(&self) -> (digits: usize)
        requires
            self.wf(),
        ensures
            digits == crate::csi::total_digits(self@.params.fields),
            digits <= crate::csi::MAX_PARAMS * crate::csi::MAX_DIGITS,
    {
        self.params.held_digits()
    }

    fn first_param(&self) -> (value: Option<u16>)
        ensures
            value == first_param(self@.params),
    {
        if self.params.first_sub_parameter() {
            return None;
        }
        match self.params.value(0) {
            Some(v) => Some(v),
            None => Some(0),
        }
    }

    fn extent(&self) -> (extent: Option<Extent>)
        ensures
            extent == extent_of(self@.params),
    {
        match self.first_param() {
            Some(0) => Some(Extent::ToEnd),
            Some(1) => Some(Extent::ToStart),
            Some(2) => Some(Extent::All),
            _ => None,
        }
    }

    fn classify(&mut self, final_byte: u8) -> (request: Option<Request>)
        requires
            old(self).wf(),
        ensures
            final(self).wf(),
            final(self)@ == (ProtectView { armed: classify_final(old(self)@, final_byte).0, ..old(self)@ }),
            request == classify_final(old(self)@, final_byte).1,
    {
        let quote: [u8; 1] = [0x22];
        let bang: [u8; 1] = [0x21];
        assert(quote@ =~= seq![0x22u8]);
        assert(bang@ =~= seq![0x21u8]);
        if final_byte == 0x71 && self.marker.is_none() && crate::bytes::bytes_equal(
            self.intermediates.as_slice(),
            &quote,
        ) {
            self.armed = self.first_param() == Some(1u16);
            Some(Request::Protect(self.armed))
        } else if final_byte == 0x70 && self.marker.is_none() && crate::bytes::bytes_equal(
            self.intermediates.as_slice(),
            &bang,
        ) {
            self.armed = false;
            Some(Request::SoftReset)
        } else if final_byte == 0x4a && self.marker == Some(0x3f) && self.intermediates.len() == 0 {
            match self.extent() {
                Some(e) => Some(Request::Erase(Erase::Display(e))),
                None => None,
            }
        } else if final_byte == 0x4b && self.marker == Some(0x3f) && self.intermediates.len() == 0 {
            match self.extent() {
                Some(e) => Some(Request::Erase(Erase::Line(e))),
                None => None,
            }
        } else if final_byte == 0x6d && self.marker.is_none() && self.intermediates.len() == 0
            && self.armed {
            Some(Request::Reassert)
        } else {
            None
        }
    }

    fn step(&mut self, byte: u8) -> (request: Option<Request>)
        requires
            old(self).wf(),
        ensures
            final(self).wf(),
            (final(self)@, request) == protect_step(old(self)@, byte),
    {
        proof {
            crate::csi::lemma_params_push_wf(self@.params, byte);
        }
        match self.scan {
            Scan::Text => {
                if byte == ESC {
                    self.scan = Scan::Escape;
                }
                None
            },
            Scan::Escape => {
                if byte == 0x5b {
                    self.marker = None;
                    self.params.clear();
                    self.intermediates.clear();
                    self.scan = Scan::Csi;
                    None
                } else if byte == 0x63 {
                    self.armed = false;
                    self.scan = Scan::Text;
                    Some(Request::Protect(false))
                } else if byte == ESC {
                    None
                } else {
                    self.scan = Scan::Text;
                    None
                }
            },
            Scan::Csi => {
                if 0x30 <= byte && byte <= 0x3f {
                    if !self.params.started() && self.marker.is_none() && byte >= 0x3c {
                        self.marker = Some(byte);
                    } else if !self.params.push(byte) {
                        self.scan = Scan::Text;
                    }
                    None
                } else if 0x20 <= byte && byte <= 0x2f {
                    self.intermediates.push(byte);
                    if self.intermediates.len() > MAX_INTERMEDIATES {
                        self.scan = Scan::Text;
                    }
                    None
                } else if 0x40 <= byte && byte <= 0x7e {
                    let request = self.classify(byte);
                    self.scan = Scan::Text;
                    request
                } else if byte == ESC {
                    self.scan = Scan::Escape;
                    None
                } else {
                    self.scan = Scan::Text;
                    None
                }
            },
        }
    }

    /// Scan a chunk of shell output, returning what to do and where: each offset is one past the
    /// sequence's final byte. Safe at any chunk boundary.
    pub fn feed(&mut self, bytes: &[u8]) -> (requests: Vec<(usize, Request)>)
        requires
            old(self).wf(),
        ensures
            final(self).wf(),
            (final(self)@, requests_view(requests@)) == protect_run(old(self)@, bytes@),
    {
        let mut requests: Vec<(usize, Request)> = Vec::new();
        let mut i: usize = 0;
        while i < bytes.len()
            invariant
                i <= bytes@.len(),
                self.wf(),
                (self@, requests_view(requests@)) == protect_run(old(self)@, bytes@.take(i as int)),
            decreases bytes@.len() - i,
        {
            assert(bytes@.take(i + 1).drop_last() =~= bytes@.take(i as int));
            assert(bytes@.take(i + 1).last() == bytes@[i as int]);
            let ghost before = requests@;
            match self.step(bytes[i]) {
                Some(request) => {
                    requests.push((i + 1, request));
                    assert(requests_view(requests@) =~= requests_view(before).push(
                        ((i + 1) as int, request),
                    ));
                },
                None => {},
            }
            i = i + 1;
        }
        assert(bytes@.take(bytes@.len() as int) =~= bytes@);
        requests
    }
}

/// Whole rows `from .. to` of a grid `cols` wide, as (row, start, end) spans.
pub open spec fn whole_rows(from: int, to: int, cols: int) -> Seq<(int, int, int)> {
    Seq::new((to - from) as nat, |i: int| (from + i, 0, cols))
}

/// The cells one selective erase covers: rows and the half-open column range in each. The cursor
/// is clamped onto the grid first — it may sit one past the last column, waiting to wrap.
pub open spec fn erase_spans(erase: Erase, row: int, col: int, rows: int, cols: int) -> Seq<(int, int, int)> {
    if rows == 0 || cols == 0 {
        Seq::empty()
    } else {
        let c = if col < cols - 1 {
            col
        } else {
            cols - 1
        };
        let r = if row < rows - 1 {
            row
        } else {
            rows - 1
        };
        match erase {
            Erase::Line(Extent::ToEnd) => seq![(r, c, cols)],
            Erase::Line(Extent::ToStart) => seq![(r, 0, c + 1)],
            Erase::Line(Extent::All) => seq![(r, 0, cols)],
            Erase::Display(Extent::ToEnd) => seq![(r, c, cols)] + whole_rows(r + 1, rows, cols),
            Erase::Display(Extent::ToStart) => whole_rows(0, r, cols) + seq![(r, 0, c + 1)],
            Erase::Display(Extent::All) => whole_rows(0, rows, cols),
        }
    }
}

pub open spec fn spans_view(s: Seq<(usize, Range<usize>)>) -> Seq<(int, int, int)> {
    s.map_values(|x: (usize, Range<usize>)| (x.0 as int, x.1.start as int, x.1.end as int))
}

fn push_whole_rows(out: &mut Vec<(usize, Range<usize>)>, from: usize, to: usize, cols: usize)
    requires
        from <= to,
    ensures
        spans_view(final(out)@) == spans_view(old(out)@) + whole_rows(from as int, to as int, cols as int),
{
    let mut r = from;
    while r < to
        invariant
            from <= r <= to,
            spans_view(out@) == spans_view(old(out)@) + whole_rows(from as int, r as int, cols as int),
        decreases to - r,
    {
        let ghost before = out@;
        out.push((r, 0..cols));
        assert(spans_view(out@) =~= spans_view(before).push((r as int, 0, cols as int)));
        assert(whole_rows(from as int, r + 1, cols as int) =~= whole_rows(from as int, r as int, cols as int).push((r as int, 0, cols as int)));
        r = r + 1;
    }
}

/// The cells one selective erase covers: a row, and the half-open range of columns in it.
pub fn spans(erase: Erase, row: usize, col: usize, rows: usize, cols: usize) -> (spans: Vec<(usize, Range<usize>)>)
    ensures
        spans_view(spans@) == erase_spans(erase, row as int, col as int, rows as int, cols as int),
{
    let mut out: Vec<(usize, Range<usize>)> = Vec::new();
    if rows == 0 || cols == 0 {
        assert(spans_view(out@) =~= Seq::<(int, int, int)>::empty());
        return out;
    }
    let c = if col < cols - 1 {
        col
    } else {
        cols - 1
    };
    let r = if row < rows - 1 {
        row
    } else {
        rows - 1
    };
    let (row, col) = (r, c);
    match erase {
        Erase::Line(Extent::ToEnd) => {
            out.push((row, col..cols));
        },
        Erase::Line(Extent::ToStart) => {
            out.push((row, 0..col + 1));
        },
        Erase::Line(Extent::All) => {
            out.push((row, 0..cols));
        },
        Erase::Display(Extent::ToEnd) => {
            out.push((row, col..cols));
            push_whole_rows(&mut out, row + 1, rows, cols);
        },
        Erase::Display(Extent::ToStart) => {
            push_whole_rows(&mut out, 0, row, cols);
            out.push((row, 0..col + 1));
        },
        Erase::Display(Extent::All) => {
            push_whole_rows(&mut out, 0, rows, cols);
        },
    }
    assert(spans_view(out@) =~= erase_spans(erase, row as int, col as int, rows as int, cols as int));
    out
}

impl Default for Protect {
    fn default() -> (protect: Self)
        ensures
            protect.wf(),
            protect@ == (ProtectView {
                scan: Scan::Text,
                marker: None,
                params: empty_params(),
                intermediates: Seq::empty(),
                armed: false,
            }),
    {
        Self::new()
    }
}

/// Protection is one bit and nothing else: marking sets it, unmarking clears it, each undoes the
/// other, and the engine's own bits beside it come through both untouched.
pub proof fn law_protection_bit(flags: u16)
    ensures
        is_protected_flags(mark_flags(flags)),
        !is_protected_flags(unmark_flags(flags)),
        unmark_flags(mark_flags(flags)) == unmark_flags(flags),
        mark_flags(unmark_flags(flags)) == mark_flags(flags),
        !is_protected_flags(flags) ==> unmark_flags(mark_flags(flags)) == flags,
        mark_flags(flags) % 0x8000 == flags % 0x8000,
        unmark_flags(flags) % 0x8000 == flags % 0x8000,
{
}

/// While the pen is not protecting, no SGR is reported — an ordinary session full of colour costs
/// nothing — and a full reset (`ESC c`) always leaves the pen unprotected.
pub proof fn law_unarmed_sgr_is_silent(p: ProtectView, byte: u8)
    ensures
        !p.armed ==> protect_step(p, byte).1 != Some(Request::Reassert),
        p.scan == Scan::Escape && byte == 0x63 ==> !protect_step(p, byte).0.armed
            && protect_step(p, byte).1 == Some(Request::Protect(false)),
{
}

/// Every span a selective erase covers lies on the grid, whatever the cursor's position: a row
/// of it, and a non-empty column range inside its width.
pub proof fn law_spans_on_the_grid(erase: Erase, row: int, col: int, rows: int, cols: int)
    requires
        0 <= row,
        0 <= col,
        0 <= rows,
        0 <= cols,
    ensures
        forall|i: int|
            0 <= i < erase_spans(erase, row, col, rows, cols).len() ==> {
                let s = #[trigger] erase_spans(erase, row, col, rows, cols)[i];
                0 <= s.0 < rows && 0 <= s.1 < s.2 <= cols
            },
{
    let spans = erase_spans(erase, row, col, rows, cols);
    if rows > 0 && cols > 0 {
        let r = if row < rows - 1 {
            row
        } else {
            rows - 1
        };
        assert forall|i: int| 0 <= i < spans.len() implies {
            let s = #[trigger] spans[i];
            0 <= s.0 < rows && 0 <= s.1 < s.2 <= cols
        } by {
            match erase {
                Erase::Display(Extent::ToEnd) => {
                    if i > 0 {
                        assert(spans[i] == whole_rows(r + 1, rows, cols)[i - 1]);
                    }
                },
                Erase::Display(Extent::ToStart) => {
                    if i < r {
                        assert(spans[i] == whole_rows(0, r, cols)[i]);
                    }
                },
                _ => {},
            }
        }
    }
}

} // verus!
