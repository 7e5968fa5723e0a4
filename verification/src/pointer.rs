//! The mouse pointer shape a remote asks for over the grid, OSC 22 — an allow-list of five
//! shapes that describe the content under the pointer, and nothing that would speak for the
//! client or impersonate its own handles.
use vstd::prelude::*;
use vstd::utf8::{decode_utf8, encode_utf8, valid_utf8};
use crate::bytes::{after, bytes_equal, has_prefix, starts_with};
use crate::osc::{law_osc_chunks, osc_run, osc_strings_view, osc_wf, shift_osc, Framer, OscView};
use crate::text::{trim, trimmed, utf8};

verus! {

/// The longest OSC payload buffered while looking for a shape.
pub const MAX_PAYLOAD: usize = 64;

/// A mouse pointer shape a remote may ask for.
#[derive(Debug, Clone, Copy, PartialEq, Eq)]
pub enum Shape {
    /// Whatever the toolkit would have drawn; also how a program hands the pointer back.
    Default,
    /// An I-beam: the text under here can be selected.
    Text,
    /// A hand: the thing under here can be clicked.
    Pointer,
    /// A crosshair: a two-dimensional selection is being made.
    Crosshair,
    /// A thick plus: the cell under here is selectable.
    Cell,
}

/// The shape a CSS cursor keyword names, matched exactly and in lower case; `None` for every
/// other keyword and for anything that is not one.
pub open spec fn shape_named(name: Seq<u8>) -> Option<Shape> {
    if name == seq![0x64u8, 0x65, 0x66, 0x61, 0x75, 0x6c, 0x74] {
        Some(Shape::Default)
    } else if name == seq![0x74u8, 0x65, 0x78, 0x74] {
        Some(Shape::Text)
    } else if name == seq![0x70u8, 0x6f, 0x69, 0x6e, 0x74, 0x65, 0x72] {
        Some(Shape::Pointer)
    } else if name == seq![0x63u8, 0x72, 0x6f, 0x73, 0x73, 0x68, 0x61, 0x69, 0x72] {
        Some(Shape::Crosshair)
    } else if name == seq![0x63u8, 0x65, 0x6c, 0x6c] {
        Some(Shape::Cell)
    } else {
        None
    }
}

/// The shape an OSC payload asks for: `22;` then a UTF-8 keyword, surrounding white space
/// forgiven. `None` when the payload is not one, which leaves the current shape alone.
pub open spec fn parse_shape(p: Seq<u8>) -> Option<Shape> {
    let prefix = seq![0x32u8, 0x32, 0x3b];
    if has_prefix(p, prefix) && valid_utf8(after(p, 3)) {
        shape_named(encode_utf8(trimmed(decode_utf8(after(p, 3)))))
    } else {
        None
    }
}

impl Shape {
    /// The allow-list, as a function.
    pub fn from_css(name: &str) -> (shape: Option<Shape>)
        ensures
            shape == shape_named(encode_utf8(name@)),
    {
        let bytes = name.as_bytes();
        let default: [u8; 7] = [0x64, 0x65, 0x66, 0x61, 0x75, 0x6c, 0x74];
        let text: [u8; 4] = [0x74, 0x65, 0x78, 0x74];
        let pointer: [u8; 7] = [0x70, 0x6f, 0x69, 0x6e, 0x74, 0x65, 0x72];
        let crosshair: [u8; 9] = [0x63, 0x72, 0x6f, 0x73, 0x73, 0x68, 0x61, 0x69, 0x72];
        let cell: [u8; 4] = [0x63, 0x65, 0x6c, 0x6c];
        assert(default@ =~= seq![0x64u8, 0x65, 0x66, 0x61, 0x75, 0x6c, 0x74]);
        assert(text@ =~= seq![0x74u8, 0x65, 0x78, 0x74]);
        assert(pointer@ =~= seq![0x70u8, 0x6f, 0x69, 0x6e, 0x74, 0x65, 0x72]);
        assert(crosshair@ =~= seq![0x63u8, 0x72, 0x6f, 0x73, 0x73, 0x68, 0x61, 0x69, 0x72]);
        assert(cell@ =~= seq![0x63u8, 0x65, 0x6c, 0x6c]);
        if bytes_equal(bytes, &default) {
            Some(Shape::Default)
        } else if bytes_equal(bytes, &text) {
            Some(Shape::Text)
        } else if bytes_equal(bytes, &pointer) {
            Some(Shape::Pointer)
        } else if bytes_equal(bytes, &crosshair) {
            Some(Shape::Crosshair)
        } else if bytes_equal(bytes, &cell) {
            Some(Shape::Cell)
        } else {
            None
        }
    }
}

/// Pull a pointer shape out of an OSC payload.
pub fn parse(payload: &[u8]) -> (shape: Option<Shape>)
    ensures
        shape == parse_shape(payload@),
{
    let prefix: [u8; 3] = [0x32, 0x32, 0x3b];
    assert(prefix@ =~= seq![0x32u8, 0x32, 0x3b]);
    if !starts_with(payload, &prefix) {
        return None;
    }
    let rest = &payload[3..payload.len()];
    match utf8(rest) {
        None => None,
        Some(name) => {
            proof {
                vstd::utf8::encode_utf8_decode_utf8(name@);
            }
            Shape::from_css(trim(name))
        },
    }
}

/// The shape after a run of completed payloads, starting from `shape`.
pub open spec fn shape_after(shape: Shape, found: Seq<(int, Seq<u8>)>) -> Shape
    decreases found.len(),
{
    if found.len() == 0 {
        shape
    } else {
        match parse_shape(found.last().1) {
            Some(s) => s,
            None => shape_after(shape, found.drop_last()),
        }
    }
}

/// The pointer tracker, abstractly: its framer and the shape in force.
pub struct PointerView {
    pub framer: OscView,
    pub shape: Shape,
}

/// The tracker after a chunk of output.
pub open spec fn pointer_run(p: PointerView, bytes: Seq<u8>) -> PointerView {
    let (framer, found) = osc_run(p.framer, bytes, MAX_PAYLOAD as int);
    PointerView { framer, shape: shape_after(p.shape, found) }
}

proof fn lemma_shape_after_concat(shape: Shape, x: Seq<(int, Seq<u8>)>, y: Seq<(int, Seq<u8>)>, by: int)
    ensures
        shape_after(shape, x + shift_osc(y, by)) == shape_after(shape_after(shape, x), y),
    decreases y.len(),
{
    if y.len() == 0 {
        assert(x + shift_osc(y, by) =~= x);
    } else {
        lemma_shape_after_concat(shape, x, y.drop_last(), by);
        assert((x + shift_osc(y, by)).drop_last() =~= x + shift_osc(y.drop_last(), by));
    }
}

/// Output fed in two chunks leaves the tracker where the same output fed whole would: a request
/// split anywhere, even between the ESC and the `]`, is still read.
pub proof fn law_pointer_chunks(p: PointerView, a: Seq<u8>, b: Seq<u8>)
    ensures
        pointer_run(pointer_run(p, a), b) == pointer_run(p, a + b),
{
    law_osc_chunks(p.framer, a, b, MAX_PAYLOAD as int);
    let (mid, first) = osc_run(p.framer, a, MAX_PAYLOAD as int);
    let second = osc_run(mid, b, MAX_PAYLOAD as int).1;
    lemma_shape_after_concat(p.shape, first, second, a.len() as int);
}

/// The pointer shape the remote last asked for over this terminal's grid.
#[derive(Debug)]
pub struct Pointer {
    framer: Framer<MAX_PAYLOAD>,
    shape: Shape,
}

impl View for Pointer {
    type V = PointerView;

    closed spec fn view(&self) -> PointerView {
        PointerView { framer: self.framer@, shape: self.shape }
    }
}

impl Pointer {
    /// The invariant of the framer inside.
    pub open spec fn wf(&self) -> bool {
        osc_wf(self@.framer, MAX_PAYLOAD as int)
    }

    pub fn new() -> (pointer: Pointer)
        ensures
            pointer.wf(),
            pointer@.framer == crate::osc::osc_idle(),
            pointer@.shape == Shape::Default,
    {
        Pointer { framer: Framer::new(), shape: Shape::Default }
    }

    /// Scan a chunk of shell output for a pointer shape. Safe at any chunk boundary.
    pub fn feed(&mut self, bytes: &[u8])
        requires
            old(self).wf(),
        ensures
            final(self).wf(),
            final(self)@ == pointer_run(old(self)@, bytes@),
            final(self)@.framer == osc_run(old(self)@.framer, bytes@, MAX_PAYLOAD as int).0,
            final(self)@.shape == shape_after(
                old(self)@.shape,
                osc_run(old(self)@.framer, bytes@, MAX_PAYLOAD as int).1,
            ),
    {
        let strings = self.framer.feed(bytes);
        let ghost events = osc_strings_view(strings@);
        let ghost start = self.shape;
        let mut k: usize = 0;
        while k < strings.len()
            invariant
                k <= strings@.len(),
                events == osc_strings_view(strings@),
                self.wf(),
                self@.framer == osc_run(old(self)@.framer, bytes@, MAX_PAYLOAD as int).0,
                events == osc_run(old(self)@.framer, bytes@, MAX_PAYLOAD as int).1,
                start == old(self)@.shape,
                self.shape == shape_after(start, events.take(k as int)),
            decreases strings@.len() - k,
        {
            assert(events.take(k + 1).drop_last() =~= events.take(k as int));
            assert(events.take(k + 1).last() == events[k as int]);
            match parse(strings[k].payload.as_slice()) {
                Some(found) => self.shape = found,
                None => {},
            }
            k = k + 1;
        }
        assert(events.take(events.len() as int) =~= events);
    }

    /// The shape the remote last asked for, or `Shape::Default` if none has.
    pub fn shape(&self) -> (shape: Shape)
        ensures
            shape == self@.shape,
    {
        self.shape
    }

    /// Give the pointer back, whatever the remote last asked for.
    pub fn clear(&mut self)
        ensures
            final(self)@ == (PointerView { shape: Shape::Default, ..old(self)@ }),
    {
        self.shape = Shape::Default;
    }
}

impl Default for Pointer {
    fn default() -> (pointer: Self)
        ensures
            pointer.wf(),
            pointer@.framer == crate::osc::osc_idle(),
            pointer@.shape == Shape::Default,
    {
        Self::new()
    }
}

/// A payload that names no allowed shape — a refused name, a near miss, another OSC code — leaves
/// the shape already set exactly where it was.
pub proof fn law_refused_shape_changes_nothing(shape: Shape, found: Seq<(int, Seq<u8>)>)
    requires
        forall|i: int| 0 <= i < found.len() ==> parse_shape((#[trigger] found[i]).1) is None,
    ensures
        shape_after(shape, found) == shape,
    decreases found.len(),
{
    if found.len() > 0 {
        assert forall|i: int| 0 <= i < found.drop_last().len() implies parse_shape(
            (#[trigger] found.drop_last()[i]).1,
        ) is None by {
            assert(found.drop_last()[i] == found[i]);
        }
        law_refused_shape_changes_nothing(shape, found.drop_last());
        assert(parse_shape(found[found.len() - 1].1) is None);
    }
}

} // verus!
