//! Frames device control strings — `ESC P` head, data, then `ESC \` or BEL — out of a byte stream
//! that arrives in arbitrary chunks. The head is read by the CSI grammar; the data is capped.
use vstd::prelude::*;
use crate::csi::{
    empty_params, is_cancel, is_final, is_intermediate, is_marker, is_parameter_byte,
    lemma_params_push_wf, params_push, params_value, params_wf, passes_through, spec_passes_through,
    Params, ParamsView, ESC, MAX_INTERMEDIATES,
};
use crate::osc::BEL;

verus! {

/// Where the framer stands between bytes.
#[derive(Clone, Copy, PartialEq, Eq, Debug)]
pub enum DcsScan {
    /// Ordinary output; waiting for an ESC.
    Ground,
    /// Saw ESC; a string opens if the next byte is `P`.
    Escape,
    /// Reading the head: marker, parameters, intermediates, up to the final byte.
    Head,
    /// Collecting the data until the terminator.
    Data,
    /// Saw ESC inside the data; the string ends if the next byte is `\`.
    DataEscape,
    /// Inside a string that is being skipped, waiting for its end.
    Ignore,
}

/// The framer's whole state, abstractly.
pub struct DcsFramerView {
    pub scan: DcsScan,
    pub marker: Option<u8>,
    pub params: ParamsView,
    pub intermediates: Seq<u8>,
    pub final_byte: u8,
    pub data: Seq<u8>,
}

/// A finished control string, abstractly.
pub struct DcsView {
    pub marker: Option<u8>,
    pub params: ParamsView,
    pub intermediates: Seq<u8>,
    pub final_byte: u8,
    pub data: Seq<u8>,
}

pub open spec fn dcs_framer_wf(f: DcsFramerView, cap: int) -> bool {
    &&& params_wf(f.params)
    &&& f.intermediates.len() <= MAX_INTERMEDIATES
    &&& f.data.len() <= cap
}

pub open spec fn dcs_fresh(scan: DcsScan) -> DcsFramerView {
    DcsFramerView {
        scan,
        marker: None,
        params: empty_params(),
        intermediates: Seq::empty(),
        final_byte: 0,
        data: Seq::empty(),
    }
}

pub open spec fn dcs_with_scan(f: DcsFramerView, scan: DcsScan) -> DcsFramerView {
    DcsFramerView { scan, ..f }
}

/// The bytes data keeps: every C0 control but the terminators and cancels, and printable ASCII.
/// DEL and bytes past `0x7f` are dropped, as the engine drops them.
pub open spec fn is_data_byte(byte: u8) -> bool {
    byte < 0x7f && byte != BEL && byte != ESC && !is_cancel(byte)
}

pub open spec fn finished_string(f: DcsFramerView) -> DcsView {
    DcsView {
        marker: f.marker,
        params: f.params,
        intermediates: f.intermediates,
        final_byte: f.final_byte,
        data: f.data,
    }
}

/// One byte through a framer whose data is capped at `cap` bytes: the state after it, and the
/// string it finished, if any.
pub open spec fn dcs_step(f: DcsFramerView, byte: u8, cap: int) -> (DcsFramerView, Option<DcsView>) {
    match f.scan {
        DcsScan::Ground => {
            if byte == ESC {
                (dcs_with_scan(f, DcsScan::Escape), None)
            } else {
                (f, None)
            }
        },
        DcsScan::Escape => {
            if byte == 0x50 {
                (dcs_fresh(DcsScan::Head), None)
            } else if byte == ESC || spec_passes_through(byte) {
                (f, None)
            } else {
                (dcs_with_scan(f, DcsScan::Ground), None)
            }
        },
        DcsScan::Head => {
            if is_parameter_byte(byte) {
                if f.marker is None && f.params.fields.len() == 0 && f.intermediates.len() == 0
                    && is_marker(byte) {
                    (DcsFramerView { marker: Some(byte), ..f }, None)
                } else if f.intermediates.len() > 0 {
                    (dcs_with_scan(f, DcsScan::Ignore), None)
                } else {
                    match params_push(f.params, byte) {
                        Some(p) => (DcsFramerView { params: p, ..f }, None),
                        None => (dcs_with_scan(f, DcsScan::Ignore), None),
                    }
                }
            } else if is_intermediate(byte) {
                if f.intermediates.len() >= MAX_INTERMEDIATES {
                    (dcs_with_scan(f, DcsScan::Ignore), None)
                } else {
                    (DcsFramerView { intermediates: f.intermediates.push(byte), ..f }, None)
                }
            } else if is_final(byte) {
                (DcsFramerView { scan: DcsScan::Data, final_byte: byte, data: Seq::empty(), ..f }, None)
            } else if is_cancel(byte) {
                (dcs_with_scan(f, DcsScan::Ground), None)
            } else if byte == ESC {
                (dcs_with_scan(f, DcsScan::Escape), None)
            } else {
                (f, None)
            }
        },
        DcsScan::Data => {
            if byte == BEL {
                (dcs_fresh(DcsScan::Ground), Some(finished_string(f)))
            } else if byte == ESC {
                (dcs_with_scan(f, DcsScan::DataEscape), None)
            } else if is_cancel(byte) {
                (dcs_fresh(DcsScan::Ground), None)
            } else if !is_data_byte(byte) {
                (f, None)
            } else if f.data.len() + 1 > cap {
                (dcs_fresh(DcsScan::Ignore), None)
            } else {
                (DcsFramerView { data: f.data.push(byte), ..f }, None)
            }
        },
        DcsScan::DataEscape => {
            if byte == 0x5c {
                (dcs_fresh(DcsScan::Ground), Some(finished_string(f)))
            } else if byte == 0x50 {
                (dcs_fresh(DcsScan::Head), None)
            } else if byte == ESC || spec_passes_through(byte) {
                (f, None)
            } else {
                (dcs_fresh(DcsScan::Ground), None)
            }
        },
        DcsScan::Ignore => {
            if byte == BEL || is_cancel(byte) {
                (dcs_with_scan(f, DcsScan::Ground), None)
            } else if byte == ESC {
                (dcs_with_scan(f, DcsScan::Escape), None)
            } else {
                (f, None)
            }
        },
    }
}

/// A chunk through the framer: the state after it, and every string it finished with the offset
/// just past its terminator.
pub open spec fn dcs_run(f: DcsFramerView, bytes: Seq<u8>, cap: int) -> (DcsFramerView, Seq<(int, DcsView)>)
    decreases bytes.len(),
{
    if bytes.len() == 0 {
        (f, Seq::empty())
    } else {
        let (before, found) = dcs_run(f, bytes.drop_last(), cap);
        let (after, finished) = dcs_step(before, bytes.last(), cap);
        match finished {
            Some(d) => (after, found.push((bytes.len() as int, d))),
            None => (after, found),
        }
    }
}

/// The strings of a run, each moved `by` bytes later.
pub open spec fn shift_dcs(events: Seq<(int, DcsView)>, by: int) -> Seq<(int, DcsView)> {
    events.map_values(|e: (int, DcsView)| (e.0 + by, e.1))
}

pub proof fn lemma_dcs_step_wf(f: DcsFramerView, byte: u8, cap: int)
    requires
        dcs_framer_wf(f, cap),
        cap >= 0,
    ensures
        dcs_framer_wf(dcs_step(f, byte, cap).0, cap),
{
    if f.scan == DcsScan::Head && is_parameter_byte(byte) {
        lemma_params_push_wf(f.params, byte);
    }
}

/// Feeding a chunk in two pieces is feeding it whole: a string split anywhere completes on the
/// piece that carries its terminator, at its place in the whole chunk.
pub proof fn law_dcs_chunks(f: DcsFramerView, a: Seq<u8>, b: Seq<u8>, cap: int)
    ensures
        ({
            let (mid, first) = dcs_run(f, a, cap);
            let (end, second) = dcs_run(mid, b, cap);
            dcs_run(f, a + b, cap) == (end, first + shift_dcs(second, a.len() as int))
        }),
    decreases b.len(),
{
    let (mid, first) = dcs_run(f, a, cap);
    if b.len() == 0 {
        assert(a + b =~= a);
        assert(shift_dcs(Seq::<(int, DcsView)>::empty(), a.len() as int) =~= Seq::<(int, DcsView)>::empty());
        assert(first + Seq::<(int, DcsView)>::empty() =~= first);
    } else {
        law_dcs_chunks(f, a, b.drop_last(), cap);
        assert((a + b).drop_last() =~= a + b.drop_last());
        assert((a + b).last() == b.last());
        let (end0, second0) = dcs_run(mid, b.drop_last(), cap);
        let (end, finished) = dcs_step(end0, b.last(), cap);
        match finished {
            Some(d) => {
                let at = (b.len() + a.len()) as int;
                assert(shift_dcs(second0.push((b.len() as int, d)), a.len() as int) =~= shift_dcs(
                    second0,
                    a.len() as int,
                ).push((at, d)));
                assert(first + shift_dcs(second0, a.len() as int).push((at, d)) =~= (first
                    + shift_dcs(second0, a.len() as int)).push((at, d)));
            },
            None => {},
        }
    }
}

/// Every string a chunk finishes is reported at an offset inside the chunk, just past a byte of it.
pub proof fn lemma_dcs_offsets(f: DcsFramerView, bytes: Seq<u8>, cap: int)
    ensures
        forall|i: int|
            0 <= i < dcs_run(f, bytes, cap).1.len() ==> 1 <= (#[trigger] dcs_run(f, bytes, cap).1[i]).0
                <= bytes.len(),
    decreases bytes.len(),
{
    if bytes.len() > 0 {
        lemma_dcs_offsets(f, bytes.drop_last(), cap);
        let found = dcs_run(f, bytes.drop_last(), cap).1;
        let all = dcs_run(f, bytes, cap).1;
        assert forall|i: int| 0 <= i < all.len() implies 1 <= (#[trigger] all[i]).0 <= bytes.len() by {
            if i < found.len() {
                assert(all[i] == found[i]);
            }
        }
    }
}

/// A finished control string.
#[derive(Debug)]
pub struct Dcs {
    pub marker: Option<u8>,
    pub params: Params,
    pub intermediates: Vec<u8>,
    pub final_byte: u8,
    pub data: Vec<u8>,
}

impl View for Dcs {
    type V = DcsView;

    open spec fn view(&self) -> DcsView {
        DcsView {
            marker: self.marker,
            params: self.params@,
            intermediates: self.intermediates@,
            final_byte: self.final_byte,
            data: self.data@,
        }
    }
}

impl Dcs {
    /// The saturated value of parameter `index`, or `None` when it is absent or empty.
    pub fn param(&self, index: usize) -> (value: Option<u16>)
        ensures
            value == params_value(self@.params, index as int),
    {
        self.params.value(index)
    }

    /// How many parameters the head names; an empty one still counts.
    pub fn param_count(&self) -> (count: usize)
        ensures
            count == self@.params.fields.len(),
    {
        self.params.count()
    }
}

/// A string found in a chunk, with the offset just past its terminator.
#[derive(Debug)]
pub struct FramedDcs {
    pub past: usize,
    pub dcs: Dcs,
}

pub open spec fn framed_dcs_views(found: Seq<FramedDcs>) -> Seq<(int, DcsView)> {
    found.map_values(|f: FramedDcs| (f.past as int, f.dcs@))
}

/// The control-string framer; `CAP` is the most data it buffers before abandoning a string.
#[derive(Debug)]
pub struct DcsFramer<const CAP: usize> {
    scan: DcsScan,
    marker: Option<u8>,
    params: Params,
    intermediates: Vec<u8>,
    final_byte: u8,
    data: Vec<u8>,
}

impl<const CAP: usize> View for DcsFramer<CAP> {
    type V = DcsFramerView;

    closed spec fn view(&self) -> DcsFramerView {
        DcsFramerView {
            scan: self.scan,
            marker: self.marker,
            params: self.params@,
            intermediates: self.intermediates@,
            final_byte: self.final_byte,
            data: self.data@,
        }
    }
}

impl<const CAP: usize> DcsFramer<CAP> {
    pub open spec fn wf(&self) -> bool {
        dcs_framer_wf(self@, CAP as int)
    }

    pub fn new() -> (framer: Self)
        ensures
            framer@ == dcs_fresh(DcsScan::Ground),
            framer.wf(),
    {
        DcsFramer {
            scan: DcsScan::Ground,
            marker: None,
            params: Params::new(),
            intermediates: Vec::new(),
            final_byte: 0,
            data: Vec::new(),
        }
    }

    fn begin(&mut self, scan: DcsScan)
        ensures
            final(self)@ == dcs_fresh(scan),
    {
        self.scan = scan;
        self.marker = None;
        self.params.clear();
        self.intermediates.clear();
        self.final_byte = 0;
        self.data.clear();
    }

    /// Hand out the string collected so far, leaving the framer fresh in `scan`.
    fn take(&mut self, scan: DcsScan) -> (taken: Dcs)
        ensures
            final(self)@ == dcs_fresh(scan),
            taken@ == finished_string(old(self)@),
    {
        let mut params = Params::new();
        let mut intermediates: Vec<u8> = Vec::new();
        let mut data: Vec<u8> = Vec::new();
        std::mem::swap(&mut params, &mut self.params);
        std::mem::swap(&mut intermediates, &mut self.intermediates);
        std::mem::swap(&mut data, &mut self.data);
        let taken = Dcs { marker: self.marker, params, intermediates, final_byte: self.final_byte, data };
        self.begin(scan);
        taken
    }

    fn step(&mut self, byte: u8) -> (finished: Option<Dcs>)
        requires
            old(self).wf(),
        ensures
            final(self).wf(),
            final(self)@ == dcs_step(old(self)@, byte, CAP as int).0,
            match finished {
                Some(d) => dcs_step(old(self)@, byte, CAP as int).1 == Some(d@),
                None => dcs_step(old(self)@, byte, CAP as int).1 is None,
            },
    {
        proof {
            lemma_dcs_step_wf(self@, byte, CAP as int);
        }
        match self.scan {
            DcsScan::Ground => {
                if byte == ESC {
                    self.scan = DcsScan::Escape;
                }
                None
            },
            DcsScan::Escape => {
                if byte == 0x50 {
                    self.begin(DcsScan::Head);
                } else if byte == ESC || passes_through(byte) {
                } else {
                    self.scan = DcsScan::Ground;
                }
                None
            },
            DcsScan::Head => {
                if 0x30 <= byte && byte <= 0x3f {
                    if self.marker.is_none() && !self.params.started()
                        && self.intermediates.len() == 0 && byte >= 0x3c {
                        self.marker = Some(byte);
                    } else if self.intermediates.len() > 0 {
                        self.scan = DcsScan::Ignore;
                    } else if !self.params.push(byte) {
                        self.scan = DcsScan::Ignore;
                    }
                } else if 0x20 <= byte && byte <= 0x2f {
                    if self.intermediates.len() >= MAX_INTERMEDIATES {
                        self.scan = DcsScan::Ignore;
                    } else {
                        self.intermediates.push(byte);
                    }
                } else if 0x40 <= byte && byte <= 0x7e {
                    self.scan = DcsScan::Data;
                    self.final_byte = byte;
                    self.data.clear();
                } else if byte == 0x18 || byte == 0x1a {
                    self.scan = DcsScan::Ground;
                } else if byte == ESC {
                    self.scan = DcsScan::Escape;
                }
                None
            },
            DcsScan::Data => {
                if byte == BEL {
                    Some(self.take(DcsScan::Ground))
                } else if byte == ESC {
                    self.scan = DcsScan::DataEscape;
                    None
                } else if byte == 0x18 || byte == 0x1a {
                    self.begin(DcsScan::Ground);
                    None
                } else if byte >= 0x7f {
                    None
                } else if self.data.len() >= CAP {
                    self.begin(DcsScan::Ignore);
                    None
                } else {
                    self.data.push(byte);
                    None
                }
            },
            DcsScan::DataEscape => {
                if byte == 0x5c {
                    Some(self.take(DcsScan::Ground))
                } else if byte == 0x50 {
                    self.begin(DcsScan::Head);
                    None
                } else if byte == ESC || passes_through(byte) {
                    None
                } else {
                    self.begin(DcsScan::Ground);
                    None
                }
            },
            DcsScan::Ignore => {
                if byte == BEL || byte == 0x18 || byte == 0x1a {
                    self.scan = DcsScan::Ground;
                } else if byte == ESC {
                    self.scan = DcsScan::Escape;
                }
                None
            },
        }
    }

    /// Feed a chunk of a stream, returning each string that finished in it with the offset just
    /// past its terminator. Safe at any chunk boundary: the state carries over between calls.
    pub fn feed(&mut self, bytes: &[u8]) -> (found: Vec<FramedDcs>)
        requires
            old(self).wf(),
        ensures
            final(self).wf(),
            (final(self)@, framed_dcs_views(found@)) == dcs_run(old(self)@, bytes@, CAP as int),
    {
        let mut found: Vec<FramedDcs> = Vec::new();
        let mut i: usize = 0;
        while i < bytes.len()
            invariant
                i <= bytes@.len(),
                self.wf(),
                (self@, framed_dcs_views(found@)) == dcs_run(old(self)@, bytes@.take(i as int), CAP as int),
            decreases bytes@.len() - i,
        {
            let ghost before = found@;
            assert(bytes@.take(i + 1).drop_last() =~= bytes@.take(i as int));
            assert(bytes@.take(i + 1).last() == bytes@[i as int]);
            let finished = self.step(bytes[i]);
            match finished {
                Some(dcs) => {
                    found.push(FramedDcs { past: i + 1, dcs });
                    assert(framed_dcs_views(found@) =~= framed_dcs_views(before).push(
                        ((i + 1) as int, found@.last().dcs@),
                    ));
                },
                None => {},
            }
            i = i + 1;
        }
        assert(bytes@.take(bytes@.len() as int) =~= bytes@);
        found
    }
}

impl<const CAP: usize> Default for DcsFramer<CAP> {
    fn default() -> (framer: Self)
        ensures
            framer@ == dcs_fresh(DcsScan::Ground),
            framer.wf(),
    {
        Self::new()
    }
}

} // verus!
