//! Frames OSC strings — `ESC ] payload (BEL | ESC \)` — out of a byte stream that arrives in
//! arbitrary chunks, once, for every scanner that reads one; and reduces remote-chosen text to
//! something safe to draw.
use vstd::prelude::*;
use crate::csi::{passes_through, spec_passes_through, ESC};
pub use crate::text::sanitize;

verus! {

/// The bell byte, one of the two OSC terminators.
pub const BEL: u8 = 0x07;

/// Where the framer is in the byte stream.
#[derive(Clone, Copy, PartialEq, Eq, Debug)]
pub enum OscScan {
    /// Ordinary output; waiting for an ESC.
    Text,
    /// Saw ESC; an OSC starts if the next byte is `]`.
    Escape,
    /// Inside an OSC payload, collecting it until the terminator.
    Payload,
    /// Saw ESC inside a payload; the string ends if the next byte is `\`.
    PayloadEscape,
}

/// The framer's state, abstractly: where it is and the payload in flight.
pub struct OscView {
    pub scan: OscScan,
    pub payload: Seq<u8>,
}

/// The C0 controls the engine drops from a payload rather than passing them on.
pub open spec fn is_dropped_control(byte: u8) -> bool {
    byte <= 0x06 || (0x08 <= byte <= 0x17) || byte == 0x19 || (0x1c <= byte <= 0x1f)
}

pub open spec fn osc_idle() -> OscView {
    OscView { scan: OscScan::Text, payload: Seq::empty() }
}

pub open spec fn osc_open() -> OscView {
    OscView { scan: OscScan::Payload, payload: Seq::empty() }
}

/// One byte through a framer whose payloads are capped at `cap` bytes.
pub open spec fn osc_step(s: OscView, byte: u8, cap: int) -> (OscView, Option<Seq<u8>>) {
    match s.scan {
        OscScan::Text => {
            if byte == ESC {
                (OscView { scan: OscScan::Escape, ..s }, None)
            } else {
                (s, None)
            }
        },
        OscScan::Escape => {
            if byte == 0x5d {
                (osc_open(), None)
            } else if byte == ESC || spec_passes_through(byte) {
                (s, None)
            } else {
                (OscView { scan: OscScan::Text, ..s }, None)
            }
        },
        OscScan::Payload => {
            if byte == BEL {
                (osc_idle(), Some(s.payload))
            } else if byte == ESC {
                (OscView { scan: OscScan::PayloadEscape, ..s }, None)
            } else if byte == 0x18 || byte == 0x1a {
                (osc_idle(), None)
            } else if is_dropped_control(byte) {
                (s, None)
            } else if s.payload.len() + 1 > cap {
                (osc_idle(), None)
            } else {
                (OscView { payload: s.payload.push(byte), ..s }, None)
            }
        },
        OscScan::PayloadEscape => {
            if byte == 0x5c {
                (osc_idle(), Some(s.payload))
            } else if byte == 0x5d {
                (osc_open(), None)
            } else if byte == ESC || spec_passes_through(byte) {
                (s, None)
            } else {
                (osc_idle(), None)
            }
        },
    }
}

/// A chunk through the framer: the state after it, and every payload it completed with the
/// offset just past its terminator.
pub open spec fn osc_run(s: OscView, bytes: Seq<u8>, cap: int) -> (OscView, Seq<(int, Seq<u8>)>)
    decreases bytes.len(),
{
    if bytes.len() == 0 {
        (s, Seq::empty())
    } else {
        let (before, found) = osc_run(s, bytes.drop_last(), cap);
        let (after, finished) = osc_step(before, bytes.last(), cap);
        match finished {
            Some(p) => (after, found.push((bytes.len() as int, p))),
            None => (after, found),
        }
    }
}

/// A payload the framer can hold or hand out: at most `cap` bytes, none of them a C0 control
/// (those either end, abandon or are dropped from a string, and never reach a payload).
pub open spec fn osc_payload_ok(payload: Seq<u8>, cap: int) -> bool {
    &&& payload.len() <= cap
    &&& forall|i: int| 0 <= i < payload.len() ==> #[trigger] payload[i] >= 0x20
}

/// A framer state reachable with payloads capped at `cap`.
pub open spec fn osc_wf(s: OscView, cap: int) -> bool {
    osc_payload_ok(s.payload, cap)
}

/// One byte keeps a reachable state reachable, and any payload it finishes is one the framer
/// could hold.
pub proof fn lemma_osc_step_wf(s: OscView, byte: u8, cap: int)
    requires
        osc_wf(s, cap),
        cap >= 0,
    ensures
        osc_wf(osc_step(s, byte, cap).0, cap),
        osc_step(s, byte, cap).1 matches Some(p) ==> osc_payload_ok(p, cap),
{
    let (after, _) = osc_step(s, byte, cap);
    if s.scan == OscScan::Payload && !(byte == BEL || byte == ESC || byte == 0x18 || byte == 0x1a
        || is_dropped_control(byte)) && s.payload.len() + 1 <= cap {
        assert(after.payload == s.payload.push(byte));
        assert forall|i: int| 0 <= i < after.payload.len() implies #[trigger] after.payload[i]
            >= 0x20 by {
            if i < s.payload.len() {
                assert(after.payload[i] == s.payload[i]);
            }
        }
    }
}

/// What a chunk hands out from a reachable state: each payload one the framer could hold, at
/// an offset inside the chunk just past a byte of it, in strictly increasing order; and the
/// state after it is reachable again.
pub proof fn lemma_osc_run_wf(s: OscView, bytes: Seq<u8>, cap: int)
    requires
        osc_wf(s, cap),
        cap >= 0,
    ensures
        osc_wf(osc_run(s, bytes, cap).0, cap),
        forall|k: int|
            0 <= k < osc_run(s, bytes, cap).1.len() ==> {
                let e = #[trigger] osc_run(s, bytes, cap).1[k];
                &&& osc_payload_ok(e.1, cap)
                &&& 1 <= e.0 <= bytes.len()
            },
        forall|j: int, k: int|
            0 <= j < k < osc_run(s, bytes, cap).1.len() ==> (#[trigger] osc_run(s, bytes, cap).1[j]).0
                < (#[trigger] osc_run(s, bytes, cap).1[k]).0,
    decreases bytes.len(),
{
    if bytes.len() > 0 {
        lemma_osc_run_wf(s, bytes.drop_last(), cap);
        let (before, found) = osc_run(s, bytes.drop_last(), cap);
        lemma_osc_step_wf(before, bytes.last(), cap);
        let all = osc_run(s, bytes, cap).1;
        assert forall|k: int| 0 <= k < all.len() implies {
            let e = #[trigger] all[k];
            &&& osc_payload_ok(e.1, cap)
            &&& 1 <= e.0 <= bytes.len()
        } by {
            if k < found.len() {
                assert(all[k] == found[k]);
            }
        }
        assert forall|j: int, k: int| 0 <= j < k < all.len() implies (#[trigger] all[j]).0 < (
        #[trigger] all[k]).0 by {
            assert(all[j] == found[j]);
            if k < found.len() {
                assert(all[k] == found[k]);
            } else {
                assert(all[k].0 == bytes.len());
            }
        }
    }
}

/// The payloads of a run, each moved `by` bytes later.
pub open spec fn shift_osc(events: Seq<(int, Seq<u8>)>, by: int) -> Seq<(int, Seq<u8>)> {
    events.map_values(|e: (int, Seq<u8>)| (e.0 + by, e.1))
}

/// Feeding a chunk in two pieces is feeding it whole: a string split anywhere completes on the
/// piece that carries its terminator, at its place in the whole chunk.
pub proof fn law_osc_chunks(s: OscView, a: Seq<u8>, b: Seq<u8>, cap: int)
    ensures
        ({
            let (mid, first) = osc_run(s, a, cap);
            let (end, second) = osc_run(mid, b, cap);
            osc_run(s, a + b, cap) == (end, first + shift_osc(second, a.len() as int))
        }),
    decreases b.len(),
{
    let (mid, first) = osc_run(s, a, cap);
    if b.len() == 0 {
        assert(a + b =~= a);
        assert(shift_osc(Seq::<(int, Seq<u8>)>::empty(), a.len() as int) =~= Seq::<
            (int, Seq<u8>),
        >::empty());
        assert(first + Seq::<(int, Seq<u8>)>::empty() =~= first);
    } else {
        law_osc_chunks(s, a, b.drop_last(), cap);
        assert((a + b).drop_last() =~= a + b.drop_last());
        assert((a + b).last() == b.last());
        let (end0, second0) = osc_run(mid, b.drop_last(), cap);
        let (end, finished) = osc_step(end0, b.last(), cap);
        match finished {
            Some(p) => {
                let at = (b.len() + a.len()) as int;
                assert(shift_osc(second0.push((b.len() as int, p)), a.len() as int) =~= shift_osc(
                    second0,
                    a.len() as int,
                ).push((at, p)));
                assert(first + shift_osc(second0, a.len() as int).push((at, p)) =~= (first
                    + shift_osc(second0, a.len() as int)).push((at, p)));
            },
            None => {},
        }
    }
}

/// A completed OSC string: its payload, and the offset just past its terminator.
#[derive(Debug)]
pub struct OscString {
    pub end: usize,
    pub payload: Vec<u8>,
}

pub open spec fn osc_string_view(s: OscString) -> (int, Seq<u8>) {
    (s.end as int, s.payload@)
}

pub open spec fn osc_strings_view(found: Seq<OscString>) -> Seq<(int, Seq<u8>)> {
    found.map_values(|s: OscString| osc_string_view(s))
}

/// Cuts OSC strings out of shell output. `CAP` is the longest payload it will buffer; past it the
/// payload is abandoned and the framer resumes hunting, so a hostile stream cannot grow memory.
#[derive(Debug)]
pub struct Framer<const CAP: usize> {
    scan: OscScan,
    payload: Vec<u8>,
}

impl<const CAP: usize> View for Framer<CAP> {
    type V = OscView;

    closed spec fn view(&self) -> OscView {
        OscView { scan: self.scan, payload: self.payload@ }
    }
}

impl<const CAP: usize> Framer<CAP> {
    /// The framer's invariant: the payload in flight is one it could hand out.
    pub open spec fn wf(&self) -> bool {
        osc_wf(self@, CAP as int)
    }

    pub fn new() -> (framer: Self)
        ensures
            framer@ == osc_idle(),
            framer.wf(),
    {
        Framer { scan: OscScan::Text, payload: Vec::new() }
    }

    /// Reset to hunting for the next sequence, discarding the payload in flight.
    fn abandon(&mut self)
        ensures
            final(self)@ == osc_idle(),
    {
        self.scan = OscScan::Text;
        self.payload.clear();
    }

    fn open(&mut self)
        ensures
            final(self)@ == osc_open(),
    {
        self.scan = OscScan::Payload;
        self.payload.clear();
    }

    fn step(&mut self, byte: u8) -> (finished: Option<Vec<u8>>)
        requires
            old(self).wf(),
        ensures
            final(self).wf(),
            final(self)@ == osc_step(old(self)@, byte, CAP as int).0,
            match finished {
                Some(p) => osc_step(old(self)@, byte, CAP as int).1 == Some(p@),
                None => osc_step(old(self)@, byte, CAP as int).1 is None,
            },
    {
        proof {
            lemma_osc_step_wf(self@, byte, CAP as int);
        }
        match self.scan {
            OscScan::Text => {
                if byte == ESC {
                    self.scan = OscScan::Escape;
                }
                None
            },
            OscScan::Escape => {
                if byte == 0x5d {
                    self.open();
                } else if byte == ESC || passes_through(byte) {
                } else {
                    self.scan = OscScan::Text;
                }
                None
            },
            OscScan::Payload => {
                if byte == BEL {
                    let mut payload: Vec<u8> = Vec::new();
                    std::mem::swap(&mut payload, &mut self.payload);
                    self.abandon();
                    Some(payload)
                } else if byte == ESC {
                    self.scan = OscScan::PayloadEscape;
                    None
                } else if byte == 0x18 || byte == 0x1a {
                    self.abandon();
                    None
                } else if byte <= 0x06 || (0x08 <= byte && byte <= 0x17) || byte == 0x19 || (0x1c
                    <= byte && byte <= 0x1f) {
                    None
                } else if self.payload.len() >= CAP {
                    self.abandon();
                    None
                } else {
                    self.payload.push(byte);
                    None
                }
            },
            OscScan::PayloadEscape => {
                if byte == 0x5c {
                    let mut payload: Vec<u8> = Vec::new();
                    std::mem::swap(&mut payload, &mut self.payload);
                    self.abandon();
                    Some(payload)
                } else if byte == 0x5d {
                    self.open();
                    None
                } else if byte == ESC || passes_through(byte) {
                    None
                } else {
                    self.abandon();
                    None
                }
            },
        }
    }

    /// Feed a chunk of shell output, returning each OSC string that completed in it with the
    /// offset in this chunk just past its terminator. Safe at any chunk boundary. Each payload
    /// is at most `CAP` bytes with no C0 control in it, and the offsets lie inside the chunk in
    /// strictly increasing order.
    pub fn feed(&mut self, bytes: &[u8]) -> (found: Vec<OscString>)
        requires
            old(self).wf(),
        ensures
            final(self).wf(),
            (final(self)@, osc_strings_view(found@)) == osc_run(old(self)@, bytes@, CAP as int),
            forall|k: int|
                0 <= k < found@.len() ==> {
                    let s = #[trigger] found@[k];
                    &&& s.payload@.len() <= CAP
                    &&& forall|i: int| 0 <= i < s.payload@.len() ==> s.payload@[i] >= 0x20
                    &&& 1 <= s.end <= bytes@.len()
                },
            forall|j: int, k: int| 0 <= j < k < found@.len() ==> (#[trigger] found@[j]).end < (
            #[trigger] found@[k]).end,
    {
        let mut found: Vec<OscString> = Vec::new();
        let mut i: usize = 0;
        while i < bytes.len()
            invariant
                i <= bytes@.len(),
                self.wf(),
                (self@, osc_strings_view(found@)) == osc_run(
                    old(self)@,
                    bytes@.take(i as int),
                    CAP as int,
                ),
            decreases bytes@.len() - i,
        {
            let ghost before = found@;
            assert(bytes@.take(i + 1).drop_last() =~= bytes@.take(i as int));
            assert(bytes@.take(i + 1).last() == bytes@[i as int]);
            let finished = self.step(bytes[i]);
            match finished {
                Some(payload) => {
                    found.push(OscString { end: i + 1, payload });
                    assert(osc_strings_view(found@) =~= osc_strings_view(before).push(
                        osc_string_view(found@.last()),
                    ));
                },
                None => {},
            }
            i = i + 1;
        }
        assert(bytes@.take(bytes@.len() as int) =~= bytes@);
        proof {
            lemma_osc_run_wf(old(self)@, bytes@, CAP as int);
            let events = osc_run(old(self)@, bytes@, CAP as int).1;
            assert forall|k: int| 0 <= k < found@.len() implies {
                let s = #[trigger] found@[k];
                &&& s.payload@.len() <= CAP
                &&& forall|i: int| 0 <= i < s.payload@.len() ==> s.payload@[i] >= 0x20
                &&& 1 <= s.end <= bytes@.len()
            } by {
                assert(events[k] == osc_string_view(found@[k]));
            }
            assert forall|j: int, k: int| 0 <= j < k < found@.len() implies (#[trigger] found@[
                j]).end < (#[trigger] found@[k]).end by {
                assert(events[j] == osc_string_view(found@[j]));
                assert(events[k] == osc_string_view(found@[k]));
            }
        }
        found
    }
}

impl<const CAP: usize> Default for Framer<CAP> {
    fn default() -> (framer: Self)
        ensures
            framer@ == osc_idle(),
            framer.wf(),
    {
        Self::new()
    }
}

} // verus!
