//! DECRQPSR — the two reports that describe how the page is presented: DECCIR, the cursor
//! information report, and DECTABSR, the tab stop report.
use vstd::prelude::*;
use crate::bytes::{append, decimal, push_decimal};
use crate::csi::{csi_param, csi_run, framed_views, law_csi_chunks, shift_csi, Csi, CsiView, Framer, FramerView};

verus! {

/// The base every one of DECCIR's four flag characters is built on: bit 8 clear, bit 7 set.
pub const FLAG_BASE: u8 = 0x40;

/// Which report a DECRQPSR asked for.
#[derive(Debug, Clone, Copy, PartialEq, Eq)]
pub enum PresentationRequest {
    /// `CSI 1 $ w` — DECCIR, the cursor information report.
    Cursor,
    /// `CSI 2 $ w` — DECTABSR, the tab stop report.
    TabStops,
}

/// The report a finished sequence asks for: `CSI Ps $ w` with no marker, exactly one parameter,
/// and `Ps` 1 or 2. Everything else — DEC's own error value 0, an omitted parameter, a second
/// parameter, another intermediate — is answered with silence.
pub open spec fn request_of(c: CsiView) -> Option<PresentationRequest> {
    if c.final_byte != 0x77 || c.marker is Some || c.intermediates != seq![0x24u8] {
        None
    } else if c.params.fields.len() != 1 {
        None
    } else if csi_param(c, 0) == Some(1u16) {
        Some(PresentationRequest::Cursor)
    } else if csi_param(c, 0) == Some(2u16) {
        Some(PresentationRequest::TabStops)
    } else {
        None
    }
}

pub fn classify(csi: &Csi) -> (request: Option<PresentationRequest>)
    ensures
        request == request_of(csi@),
{
    let dollar: [u8; 1] = [0x24];
    assert(dollar@ =~= seq![0x24u8]);
    if csi.final_byte != 0x77 || csi.marker.is_some() || !csi.has_intermediates(&dollar) {
        return None;
    }
    if csi.param_count() != 1 {
        return None;
    }
    match csi.param(0) {
        Some(1) => Some(PresentationRequest::Cursor),
        Some(2) => Some(PresentationRequest::TabStops),
        _ => None,
    }
}

/// The requests among a run's finished sequences, each with the offset just past it.
pub open spec fn requests_in(found: Seq<(int, CsiView)>) -> Seq<(int, PresentationRequest)>
    decreases found.len(),
{
    if found.len() == 0 {
        Seq::empty()
    } else {
        let before = requests_in(found.drop_last());
        match request_of(found.last().1) {
            Some(r) => before.push((found.last().0, r)),
            None => before,
        }
    }
}

pub open spec fn requests_view(found: Seq<(usize, PresentationRequest)>) -> Seq<(int, PresentationRequest)> {
    found.map_values(|r: (usize, PresentationRequest)| (r.0 as int, r.1))
}

/// Requests moved `by` bytes later.
pub open spec fn shift_requests(found: Seq<(int, PresentationRequest)>, by: int) -> Seq<(int, PresentationRequest)> {
    found.map_values(|r: (int, PresentationRequest)| (r.0 + by, r.1))
}

/// The scanner's state after a chunk, and the requests found in it.
pub open spec fn presentation_run(f: FramerView, bytes: Seq<u8>) -> (FramerView, Seq<(int, PresentationRequest)>) {
    (csi_run(f, bytes).0, requests_in(csi_run(f, bytes).1))
}

proof fn lemma_requests_in_concat(x: Seq<(int, CsiView)>, y: Seq<(int, CsiView)>, by: int)
    ensures
        requests_in(x + shift_csi(y, by)) == requests_in(x) + shift_requests(requests_in(y), by),
    decreases y.len(),
{
    if y.len() == 0 {
        assert(x + shift_csi(y, by) =~= x);
        assert(requests_in(x) + shift_requests(Seq::empty(), by) =~= requests_in(x));
    } else {
        lemma_requests_in_concat(x, y.drop_last(), by);
        assert((x + shift_csi(y, by)).drop_last() =~= x + shift_csi(y.drop_last(), by));
        let before = requests_in(y.drop_last());
        match request_of(y.last().1) {
            Some(r) => {
                assert(shift_requests(before.push((y.last().0, r)), by) =~= shift_requests(before, by).push(
                    (y.last().0 + by, r),
                ));
                assert(requests_in(x) + shift_requests(before, by).push((y.last().0 + by, r)) =~= (
                requests_in(x) + shift_requests(before, by)).push((y.last().0 + by, r)));
            },
            None => {},
        }
    }
}

/// A chunk fed in two pieces finds what it finds fed whole: a request split anywhere is still
/// found once, at its place in the whole.
pub proof fn law_presentation_chunks(f: FramerView, a: Seq<u8>, b: Seq<u8>)
    ensures
        ({
            let (mid, first) = presentation_run(f, a);
            let (end, second) = presentation_run(mid, b);
            presentation_run(f, a + b) == (end, first + shift_requests(second, a.len() as int))
        }),
{
    law_csi_chunks(f, a, b);
    let (mid, first) = csi_run(f, a);
    lemma_requests_in_concat(first, csi_run(mid, b).1, a.len() as int);
}

/// The DECRQPSR scanner.
#[derive(Debug)]
pub struct Presentation {
    framer: Framer,
}

impl View for Presentation {
    type V = FramerView;

    closed spec fn view(&self) -> FramerView {
        self.framer@
    }
}

impl Presentation {
    pub closed spec fn wf(&self) -> bool {
        self.framer.wf()
    }

    pub fn new() -> (scanner: Presentation)
        ensures
            scanner.wf(),
            scanner@ == crate::csi::fresh_sequence(crate::csi::CsiScan::Ground),
    {
        Presentation { framer: Framer::new() }
    }

    /// Scan a chunk, returning each request with the offset just past its final byte.
    pub fn feed(&mut self, bytes: &[u8]) -> (requests: Vec<(usize, PresentationRequest)>)
        requires
            old(self).wf(),
        ensures
            final(self).wf(),
            final(self)@ == csi_run(old(self)@, bytes@).0,
            requests_view(requests@) == requests_in(csi_run(old(self)@, bytes@).1),
    {
        let found = self.framer.feed(bytes);
        let ghost events = framed_views(found@);
        let mut requests: Vec<(usize, PresentationRequest)> = Vec::new();
        let mut k: usize = 0;
        while k < found.len()
            invariant
                k <= found@.len(),
                events == framed_views(found@),
                requests_view(requests@) == requests_in(events.take(k as int)),
            decreases found@.len() - k,
        {
            assert(events.take(k + 1).drop_last() =~= events.take(k as int));
            assert(events.take(k + 1).last() == events[k as int]);
            let ghost before = requests@;
            match classify(&found[k].csi) {
                Some(request) => {
                    requests.push((found[k].past, request));
                    assert(requests_view(requests@) =~= requests_view(before).push(
                        (found@[k as int].past as int, request),
                    ));
                },
                None => {},
            }
            k = k + 1;
        }
        assert(events.take(events.len() as int) =~= events);
        requests
    }
}

/// The visual attributes DECCIR reports in its `Srend` byte.
#[derive(Debug, Clone, Copy, PartialEq, Eq)]
pub struct Rendition {
    pub bold: bool,
    pub underline: bool,
    pub reverse: bool,
}

/// The two flags DECCIR's `Sflag` byte carries besides the single shifts.
#[derive(Debug, Clone, Copy, PartialEq, Eq)]
pub struct Modes {
    /// DECOM.
    pub origin: bool,
    /// Whether a wrap is owed at the last column.
    pub pending_wrap: bool,
}

/// Everything DECCIR reports that is not the character sets.
#[derive(Debug, Clone, Copy, PartialEq, Eq)]
pub struct CursorState {
    /// The cursor's row and column, zero-based; the report adds one.
    pub row: usize,
    pub column: usize,
    /// `Srend`.
    pub rendition: Rendition,
    /// `Satt` — whether the pen protects what it writes from a selective erase.
    pub protected: bool,
    /// `Sflag`, minus the single shifts.
    pub modes: Modes,
}

/// The character-set state DECCIR reports: which single shift is pending (2 or 3), which slot is
/// invoked into GL and into GR, and the designation spelling of G0 through G3, concatenated.
#[derive(Debug, PartialEq, Eq)]
pub struct CharsetState {
    pub single_shift: Option<u8>,
    pub gl: u8,
    pub gr: u8,
    pub designations: Vec<u8>,
}

pub open spec fn bit(flag: bool, weight: int) -> int {
    if flag {
        weight
    } else {
        0
    }
}

/// DECCIR's `Srend`: bold bit 1, underline bit 2, reverse bit 4; blink, bit 3, is never set.
pub open spec fn rendition_byte(r: Rendition) -> u8 {
    (FLAG_BASE + bit(r.bold, 1) + bit(r.underline, 2) + bit(r.reverse, 8)) as u8
}

/// DECCIR's `Sflag`: origin mode, SS2 pending, SS3 pending, a wrap owed.
pub open spec fn flags_byte(m: Modes, single_shift: Option<u8>) -> u8 {
    (FLAG_BASE + bit(m.origin, 1) + bit(single_shift == Some(2u8), 2) + bit(
        single_shift == Some(3u8),
        4,
    ) + bit(m.pending_wrap, 8)) as u8
}

/// DECCIR: `DCS 1 $ u Pr ; Pc ; Pp ; Srend ; Satt ; Sflag ; Pgl ; Pgr ; Scss ; Sdesig ST`.
pub open spec fn cursor_report_bytes(state: CursorState, charsets: (Option<u8>, u8, u8, Seq<u8>)) -> Seq<u8> {
    seq![0x1bu8, 0x50, 0x31, 0x24, 0x75] + decimal((state.row + 1) as nat) + seq![0x3bu8]
        + decimal((state.column + 1) as nat) + seq![
        0x3bu8,
        0x31,
        0x3b,
        rendition_byte(state.rendition),
        0x3b,
        (FLAG_BASE + bit(state.protected, 1)) as u8,
        0x3b,
        flags_byte(state.modes, charsets.0),
        0x3b,
    ] + decimal(charsets.1 as nat) + seq![0x3bu8] + decimal(charsets.2 as nat) + seq![
        0x3bu8,
        FLAG_BASE,
        0x3b,
    ] + charsets.3 + seq![0x1bu8, 0x5c]
}

pub open spec fn charset_view(c: CharsetState) -> (Option<u8>, u8, u8, Seq<u8>) {
    (c.single_shift, c.gl, c.gr, c.designations@)
}

/// DECCIR — the cursor and everything the page is currently being written with.
pub fn cursor_report(state: CursorState, charsets: &CharsetState) -> (report: Vec<u8>)
    requires
        state.row < usize::MAX,
        state.column < usize::MAX,
    ensures
        report@ == cursor_report_bytes(state, charset_view(*charsets)),
{
    let rendition: u8 = FLAG_BASE + if state.rendition.bold {
        1u8
    } else {
        0
    } + if state.rendition.underline {
        2u8
    } else {
        0
    } + if state.rendition.reverse {
        8u8
    } else {
        0
    };
    let attributes: u8 = FLAG_BASE + if state.protected {
        1u8
    } else {
        0
    };
    let flags: u8 = FLAG_BASE + if state.modes.origin {
        1u8
    } else {
        0
    } + if charsets.single_shift == Some(2u8) {
        2u8
    } else {
        0
    } + if charsets.single_shift == Some(3u8) {
        4u8
    } else {
        0
    } + if state.modes.pending_wrap {
        8u8
    } else {
        0
    };
    let mut out: Vec<u8> = vec![0x1b, 0x50, 0x31, 0x24, 0x75];
    push_decimal(&mut out, (state.row + 1) as u64);
    out.push(0x3b);
    push_decimal(&mut out, (state.column + 1) as u64);
    append(&mut out, &[0x3b, 0x31, 0x3b, rendition, 0x3b, attributes, 0x3b, flags, 0x3b]);
    push_decimal(&mut out, charsets.gl as u64);
    out.push(0x3b);
    push_decimal(&mut out, charsets.gr as u64);
    append(&mut out, &[0x3b, FLAG_BASE, 0x3b]);
    append(&mut out, charsets.designations.as_slice());
    out.push(0x1b);
    out.push(0x5c);
    assert(out@ =~= cursor_report_bytes(state, charset_view(*charsets)));
    out
}

/// The tab stops, one-based and `/`-separated.
pub open spec fn stop_list(stops: Seq<usize>) -> Seq<u8>
    decreases stops.len(),
{
    if stops.len() == 0 {
        Seq::empty()
    } else if stops.len() == 1 {
        decimal((stops[0] + 1) as nat)
    } else {
        stop_list(stops.drop_last()) + seq![0x2fu8] + decimal((stops.last() + 1) as nat)
    }
}

/// DECTABSR — `DCS 2 $ u … ST`, the column of every tab stop, one-based and `/`-separated. A page
/// with no stops reports an empty data string.
pub fn tab_stop_report(stops: &[usize]) -> (report: Vec<u8>)
    requires
        forall|i: int| 0 <= i < stops@.len() ==> stops@[i] < usize::MAX,
    ensures
        report@ == seq![0x1bu8, 0x50, 0x32, 0x24, 0x75] + stop_list(stops@) + seq![0x1bu8, 0x5c],
{
    let mut out: Vec<u8> = vec![0x1b, 0x50, 0x32, 0x24, 0x75];
    let ghost head = out@;
    let mut k: usize = 0;
    while k < stops.len()
        invariant
            k <= stops@.len(),
            forall|i: int| 0 <= i < stops@.len() ==> stops@[i] < usize::MAX,
            head == seq![0x1bu8, 0x50, 0x32, 0x24, 0x75],
            out@ == head + stop_list(stops@.take(k as int)),
        decreases stops@.len() - k,
    {
        assert(stops@.take(k + 1).drop_last() =~= stops@.take(k as int));
        assert(stops@.take(k + 1).last() == stops@[k as int]);
        if k > 0 {
            out.push(0x2f);
        }
        let ghost mid = out@;
        push_decimal(&mut out, (stops[k] + 1) as u64);
        proof {
            if k == 0 {
                assert(stops@.take(1)[0] == stops@[0]);
                assert(out@ =~= head + stop_list(stops@.take(k + 1)));
            } else {
                assert(out@ =~= head + stop_list(stops@.take(k + 1)));
            }
        }
        k = k + 1;
    }
    assert(stops@.take(stops@.len() as int) =~= stops@);
    out.push(0x1b);
    out.push(0x5c);
    assert(out@ =~= seq![0x1bu8, 0x50, 0x32, 0x24, 0x75] + stop_list(stops@) + seq![0x1bu8, 0x5c]);
    out
}

impl Default for Presentation {
    fn default() -> (scanner: Self)
        ensures
            scanner.wf(),
            scanner@ == crate::csi::fresh_sequence(crate::csi::CsiScan::Ground),
    {
        Self::new()
    }
}

} // verus!
