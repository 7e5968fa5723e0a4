//! The VT420 rectangular area operations and their neighbours that move cells the engine will
//! not: the grammar that reads them out of the stream, and the arithmetic that resolves them
//! against a page — corners, extents, copies, attribute folds, checksums and the renumbering an
//! unscroll implies.
use vstd::prelude::*;
use crate::bytes::decimal;
use crate::csi::{csi_param, csi_step, Csi, CsiView, Framer, FramerView, ESC};
use crate::query::hex_digit_of;
use std::ops::RangeInclusive;

verus! {

/// The four corners as a sequence spelled them: 1-based and inclusive, with 0 — also what an
/// omitted parameter means — standing for the edge of the page.
#[derive(Debug, Clone, Copy, Default, PartialEq, Eq)]
pub struct Corners {
    pub top: u16,
    pub left: u16,
    pub bottom: u16,
    pub right: u16,
}

/// Which way SL and SR move the page's content.
#[derive(Debug, Clone, Copy, PartialEq, Eq)]
pub enum RectDirection {
    /// `CSI Ps SP @` — content moves left, blanks fill the right edge.
    Left,
    /// `CSI Ps SP A` — content moves right, blanks fill the left edge.
    Right,
}

/// Which shape DECCARA and DECRARA act on, as DECSACE selects it.
#[derive(Debug, Clone, Copy, Default, PartialEq, Eq)]
pub enum RectExtent {
    /// The wrapped run of positions from the top-left corner to the bottom-right one; the state
    /// a terminal powers up in.
    #[default]
    Stream,
    /// The rectangle itself.
    Rectangle,
}

/// Bold, as a bit of this module's own four-bit attribute mask.
pub const BOLD: u8 = 1;
/// Underline.
pub const UNDERLINE: u8 = 2;
/// Blink.
pub const BLINK: u8 = 4;
/// Reverse video.
pub const REVERSE: u8 = 8;
/// All four at once — what the selector `0` names.
pub const ALL_ATTRIBUTES: u8 = 15;

/// What one DECCARA or DECRARA does to a cell's attributes, folded from its selector list.
#[derive(Debug, Clone, Copy, Default, PartialEq, Eq)]
pub struct AttributeChange {
    /// Attributes to turn on (DECCARA only).
    pub on: u8,
    /// Attributes to turn off (DECCARA only).
    pub off: u8,
    /// Attributes to flip (DECRARA only).
    pub flip: u8,
}

/// The attributes a cell at `current` ends up with.
pub open spec fn applied(change: AttributeChange, current: u8) -> u8 {
    ((current | change.on) & !change.off) ^ change.flip
}

pub open spec fn no_change(change: AttributeChange) -> bool {
    change.on == 0 && change.off == 0 && change.flip == 0
}

/// Whether every mask of a change stays within the four attribute bits.
pub open spec fn within_attributes(change: AttributeChange) -> bool {
    change.on & !ALL_ATTRIBUTES == 0 && change.off & !ALL_ATTRIBUTES == 0 && change.flip
        & !ALL_ATTRIBUTES == 0
}

impl AttributeChange {
    /// The attributes a cell currently at `current` should end up with.
    pub fn apply(self, current: u8) -> (result: u8)
        ensures
            result == applied(self, current),
    {
        ((current | self.on) & !self.off) ^ self.flip
    }

    /// Whether this asks for nothing at all.
    pub fn is_empty(self) -> (empty: bool)
        ensures
            empty == no_change(self),
    {
        self.on == 0 && self.off == 0 && self.flip == 0
    }
}

/// An empty change leaves every cell's attributes as they were.
pub proof fn law_empty_change_is_identity(change: AttributeChange, current: u8)
    requires
        no_change(change),
    ensures
        applied(change, current) == current,
{
    let on = change.on;
    let off = change.off;
    let flip = change.flip;
    assert(on == 0 && off == 0 && flip == 0 ==> ((current | on) & !off) ^ flip == current)
        by (bit_vector);
}

/// A change whose masks stay within the four attribute bits moves no other bit of the flag
/// word — the bits beside them, a protection mark among them, come through untouched.
pub proof fn law_change_keeps_other_bits(change: AttributeChange, current: u8)
    requires
        within_attributes(change),
    ensures
        applied(change, current) & !ALL_ATTRIBUTES == current & !ALL_ATTRIBUTES,
{
    let on = change.on;
    let off = change.off;
    let flip = change.flip;
    assert(on & !15u8 == 0 && off & !15u8 == 0 && flip & !15u8 == 0 ==> (((current | on) & !off)
        ^ flip) & !15u8 == current & !15u8) by (bit_vector);
}

/// The attribute and direction a DECCARA selector names, or `None` for one outside the set.
pub open spec fn change_selector(selector: u16) -> Option<(u8, bool)> {
    if selector == 0 {
        Some((ALL_ATTRIBUTES, false))
    } else if selector == 1 {
        Some((BOLD, true))
    } else if selector == 4 {
        Some((UNDERLINE, true))
    } else if selector == 5 {
        Some((BLINK, true))
    } else if selector == 7 {
        Some((REVERSE, true))
    } else if selector == 22 {
        Some((BOLD, false))
    } else if selector == 24 {
        Some((UNDERLINE, false))
    } else if selector == 25 {
        Some((BLINK, false))
    } else if selector == 27 {
        Some((REVERSE, false))
    } else {
        None
    }
}

/// The attribute a DECRARA selector flips, or `None` for one outside its shorter set.
pub open spec fn reversal_selector(selector: u16) -> Option<u8> {
    if selector == 0 {
        Some(ALL_ATTRIBUTES)
    } else if selector == 1 {
        Some(BOLD)
    } else if selector == 4 {
        Some(UNDERLINE)
    } else if selector == 5 {
        Some(BLINK)
    } else if selector == 7 {
        Some(REVERSE)
    } else {
        None
    }
}

/// DECCARA's selectors folded in order: each known one sets its attribute on or off and clears it
/// from the other mask, so a later selector wins; an unknown one is skipped.
pub open spec fn changes_of(selectors: Seq<u16>) -> AttributeChange
    decreases selectors.len(),
{
    if selectors.len() == 0 {
        AttributeChange { on: 0, off: 0, flip: 0 }
    } else {
        let before = changes_of(selectors.drop_last());
        match change_selector(selectors.last()) {
            Some((attribute, true)) => AttributeChange {
                on: before.on | attribute,
                off: before.off & !attribute,
                flip: before.flip,
            },
            Some((attribute, false)) => AttributeChange {
                on: before.on & !attribute,
                off: before.off | attribute,
                flip: before.flip,
            },
            None => before,
        }
    }
}

/// DECRARA's selectors folded in order: each known one flips its attribute, so a repeat cancels.
pub open spec fn reversals_of(selectors: Seq<u16>) -> AttributeChange
    decreases selectors.len(),
{
    if selectors.len() == 0 {
        AttributeChange { on: 0, off: 0, flip: 0 }
    } else {
        let before = reversals_of(selectors.drop_last());
        match reversal_selector(selectors.last()) {
            Some(attribute) => AttributeChange { flip: before.flip ^ attribute, ..before },
            None => before,
        }
    }
}

/// Fold a DECCARA's selectors into one change.
pub fn changes(selectors: &[u16]) -> (change: AttributeChange)
    ensures
        change == changes_of(selectors@),
{
    let mut change = AttributeChange { on: 0, off: 0, flip: 0 };
    let mut k: usize = 0;
    while k < selectors.len()
        invariant
            k <= selectors@.len(),
            change == changes_of(selectors@.take(k as int)),
        decreases selectors@.len() - k,
    {
        assert(selectors@.take(k + 1).drop_last() =~= selectors@.take(k as int));
        let selector = selectors[k];
        let named: Option<(u8, bool)> = if selector == 0 {
            Some((ALL_ATTRIBUTES, false))
        } else if selector == 1 {
            Some((BOLD, true))
        } else if selector == 4 {
            Some((UNDERLINE, true))
        } else if selector == 5 {
            Some((BLINK, true))
        } else if selector == 7 {
            Some((REVERSE, true))
        } else if selector == 22 {
            Some((BOLD, false))
        } else if selector == 24 {
            Some((UNDERLINE, false))
        } else if selector == 25 {
            Some((BLINK, false))
        } else if selector == 27 {
            Some((REVERSE, false))
        } else {
            None
        };
        match named {
            Some((attribute, true)) => {
                change.on = change.on | attribute;
                change.off = change.off & !attribute;
            },
            Some((attribute, false)) => {
                change.off = change.off | attribute;
                change.on = change.on & !attribute;
            },
            None => {},
        }
        k = k + 1;
    }
    assert(selectors@.take(selectors@.len() as int) =~= selectors@);
    change
}

/// Fold a DECRARA's selectors into one change.
pub fn reversals(selectors: &[u16]) -> (change: AttributeChange)
    ensures
        change == reversals_of(selectors@),
{
    let mut change = AttributeChange { on: 0, off: 0, flip: 0 };
    let mut k: usize = 0;
    while k < selectors.len()
        invariant
            k <= selectors@.len(),
            change == reversals_of(selectors@.take(k as int)),
        decreases selectors@.len() - k,
    {
        assert(selectors@.take(k + 1).drop_last() =~= selectors@.take(k as int));
        let selector = selectors[k];
        let named: Option<u8> = if selector == 0 {
            Some(ALL_ATTRIBUTES)
        } else if selector == 1 {
            Some(BOLD)
        } else if selector == 4 {
            Some(UNDERLINE)
        } else if selector == 5 {
            Some(BLINK)
        } else if selector == 7 {
            Some(REVERSE)
        } else {
            None
        };
        match named {
            Some(attribute) => {
                change.flip = change.flip ^ attribute;
            },
            None => {},
        }
        k = k + 1;
    }
    assert(selectors@.take(selectors@.len() as int) =~= selectors@);
    change
}

proof fn lemma_masks_stay_within(a: u8, b: u8)
    ensures
        a & !15u8 == 0 && b & !15u8 == 0 ==> (a | b) & !15u8 == 0 && (a & !b) & !15u8 == 0 && (a
            ^ b) & !15u8 == 0,
{
    assert(a & !15u8 == 0 && b & !15u8 == 0 ==> (a | b) & !15u8 == 0 && (a & !b) & !15u8 == 0
        && (a ^ b) & !15u8 == 0) by (bit_vector);
}

/// Whatever selectors a DECCARA or DECRARA carries, the change they fold to names only the four
/// attribute bits — never a colour, never the flag word wholesale.
pub proof fn law_selectors_name_only_attributes(selectors: Seq<u16>)
    ensures
        within_attributes(changes_of(selectors)),
        within_attributes(reversals_of(selectors)),
    decreases selectors.len(),
{
    assert(0u8 & !15u8 == 0) by (bit_vector);
    if selectors.len() > 0 {
        law_selectors_name_only_attributes(selectors.drop_last());
        let c = changes_of(selectors.drop_last());
        let r = reversals_of(selectors.drop_last());
        assert(1u8 & !15u8 == 0 && 2u8 & !15u8 == 0 && 4u8 & !15u8 == 0 && 8u8 & !15u8 == 0 && 15u8
            & !15u8 == 0) by (bit_vector);
        match change_selector(selectors.last()) {
            Some((attribute, _)) => {
                lemma_masks_stay_within(c.on, attribute);
                lemma_masks_stay_within(c.off, attribute);
            },
            None => {},
        }
        match reversal_selector(selectors.last()) {
            Some(attribute) => {
                lemma_masks_stay_within(r.flip, attribute);
            },
            None => {},
        }
    }
}

/// A resolved rectangle of cells: 0-based and inclusive on all four sides.
#[derive(Debug, Clone, Copy, PartialEq, Eq)]
pub struct Rect {
    pub top: usize,
    pub left: usize,
    pub bottom: usize,
    pub right: usize,
}

/// The columns an area covers on one row: the box's columns on every row for a rectangle; for a
/// stream, from the left corner on its first row, to the right corner on its last, and the whole
/// row between.
pub open spec fn columns_on_row(r: Rect, row: int, extent: RectExtent, cols: int) -> (int, int) {
    match extent {
        RectExtent::Rectangle => (r.left as int, r.right as int),
        RectExtent::Stream => (
            if row == r.top {
                r.left as int
            } else {
                0
            },
            if row == r.bottom {
                r.right as int
            } else if cols == 0 {
                0
            } else {
                cols - 1
            },
        ),
    }
}

impl Rect {
    /// The rows this rectangle covers, top to bottom.
    pub fn rows(&self) -> (rows: RangeInclusive<usize>)
        ensures
            rows@.start == self.top,
            rows@.end == self.bottom,
            !rows@.exhausted,
    {
        RangeInclusive::new(self.top, self.bottom)
    }

    /// The columns this rectangle covers, left to right.
    pub fn columns(&self) -> (columns: RangeInclusive<usize>)
        ensures
            columns@.start == self.left,
            columns@.end == self.right,
            !columns@.exhausted,
    {
        RangeInclusive::new(self.left, self.right)
    }

    /// The columns covered on one particular row, which is where the two extents differ.
    pub fn columns_on(&self, row: usize, extent: RectExtent, cols: usize) -> (columns: RangeInclusive<usize>)
        ensures
            (columns@.start as int, columns@.end as int) == columns_on_row(*self, row as int, extent, cols as int),
            !columns@.exhausted,
    {
        match extent {
            RectExtent::Rectangle => self.columns(),
            RectExtent::Stream => {
                let first = if row == self.top {
                    self.left
                } else {
                    0
                };
                let last = if row == self.bottom {
                    self.right
                } else if cols == 0 {
                    0
                } else {
                    cols - 1
                };
                RangeInclusive::new(first, last)
            },
        }
    }

    /// How many cells wide it is.
    pub fn width(&self) -> (width: usize)
        requires
            self.left <= self.right < usize::MAX,
        ensures
            width == self.right - self.left + 1,
    {
        self.right - self.left + 1
    }

    /// How many cells tall it is.
    pub fn height(&self) -> (height: usize)
        requires
            self.top <= self.bottom < usize::MAX,
        ensures
            height == self.bottom - self.top + 1,
    {
        self.bottom - self.top + 1
    }
}

/// One rectangular operation the stream asked for.
#[derive(Debug, Clone, Copy, PartialEq, Eq)]
pub enum RectRequest {
    /// DECERA — blank the rectangle; protection does not stop it.
    Erase(Corners),
    /// DECSERA — blank the rectangle, leaving protected cells.
    SelectiveErase(Corners),
    /// DECFRA — fill the rectangle with one character.
    Fill(char, Corners),
    /// DECCRA — copy the rectangle to a destination named by its top-left corner.
    Copy { source: Corners, top: u16, left: u16 },
    /// DECCARA and DECRARA — change or flip attributes across an area, under the extent in force
    /// when the request arrived.
    Attributes { corners: Corners, extent: RectExtent, change: AttributeChange },
    /// SL / SR — shift every row sideways by `columns`, at least one.
    Shift { direction: RectDirection, columns: u16 },
    /// UNSCROLL — scroll down `lines` lines, at least one, filling from the scrollback.
    Unscroll { lines: u16 },
    /// DECIC and DECDC — insert or delete `columns` columns, at least one, at the cursor.
    Columns { columns: u16, insert: bool },
    /// DECRQCRA — report a checksum of the rectangle, labelled `id`.
    Checksum { id: u16, corners: Corners },
}

/// One parameter by position, 0 when the sequence stopped short of it or left it empty.
pub open spec fn number(c: CsiView, index: int) -> u16 {
    match csi_param(c, index) {
        Some(v) => v,
        None => 0,
    }
}

/// Four consecutive parameters read as corners, from `first`.
pub open spec fn corners_at(c: CsiView, first: int) -> Corners {
    Corners {
        top: number(c, first),
        left: number(c, first + 1),
        bottom: number(c, first + 2),
        right: number(c, first + 3),
    }
}

/// The attribute selectors of a DECCARA or DECRARA: every parameter after the four corners.
pub open spec fn selectors_of(c: CsiView) -> Seq<u16> {
    Seq::new(
        if c.params.fields.len() > 4 {
            (c.params.fields.len() - 4) as nat
        } else {
            0
        },
        |i: int| number(c, i + 4),
    )
}

/// DECFRA's character: printable ASCII and printable Latin-1 only.
pub open spec fn fill_char_of(code: u16) -> Option<char> {
    if (32 <= code <= 126) || (160 <= code <= 255) {
        Some(code as char)
    } else {
        None
    }
}

pub open spec fn at_least_one(value: u16) -> u16 {
    if value == 0 {
        1
    } else {
        value
    }
}

/// What a finished sequence means: the extent after it, and the request it makes. Final byte,
/// marker and intermediates are matched together; DECSACE changes the extent and asks for
/// nothing; a sub-parameter rules every sequence out.
pub open spec fn classify_rect(c: CsiView, extent: RectExtent) -> (RectExtent, Option<RectRequest>) {
    let plain = c.marker is None;
    let dollar = plain && c.intermediates == seq![0x24u8];
    let star = plain && c.intermediates == seq![0x2au8];
    let space = plain && c.intermediates == seq![0x20u8];
    let plus = plain && c.intermediates == seq![0x2bu8];
    let quote = plain && c.intermediates == seq![0x27u8];
    let f = c.final_byte;
    if c.params.sub {
        (extent, None)
    } else if dollar && f == 0x7a {
        (extent, Some(RectRequest::Erase(corners_at(c, 0))))
    } else if dollar && f == 0x7b {
        (extent, Some(RectRequest::SelectiveErase(corners_at(c, 0))))
    } else if dollar && f == 0x78 {
        match fill_char_of(number(c, 0)) {
            Some(glyph) => (extent, Some(RectRequest::Fill(glyph, corners_at(c, 1)))),
            None => (extent, None),
        }
    } else if dollar && f == 0x76 {
        (
            extent,
            Some(RectRequest::Copy { source: corners_at(c, 0), top: number(c, 5), left: number(c, 6) }),
        )
    } else if dollar && f == 0x72 {
        (
            extent,
            Some(
                RectRequest::Attributes {
                    corners: corners_at(c, 0),
                    extent,
                    change: changes_of(selectors_of(c)),
                },
            ),
        )
    } else if dollar && f == 0x74 {
        (
            extent,
            Some(
                RectRequest::Attributes {
                    corners: corners_at(c, 0),
                    extent,
                    change: reversals_of(selectors_of(c)),
                },
            ),
        )
    } else if star && f == 0x79 {
        (extent, Some(RectRequest::Checksum { id: number(c, 0), corners: corners_at(c, 2) }))
    } else if space && f == 0x40 {
        (
            extent,
            Some(RectRequest::Shift { direction: RectDirection::Left, columns: at_least_one(number(c, 0)) }),
        )
    } else if space && f == 0x41 {
        (
            extent,
            Some(RectRequest::Shift { direction: RectDirection::Right, columns: at_least_one(number(c, 0)) }),
        )
    } else if plus && f == 0x54 {
        (extent, Some(RectRequest::Unscroll { lines: at_least_one(number(c, 0)) }))
    } else if quote && f == 0x7d {
        (extent, Some(RectRequest::Columns { columns: at_least_one(number(c, 0)), insert: true }))
    } else if quote && f == 0x7e {
        (extent, Some(RectRequest::Columns { columns: at_least_one(number(c, 0)), insert: false }))
    } else if star && f == 0x78 {
        let mode = number(c, 0);
        (
            if mode == 0 || mode == 1 {
                RectExtent::Stream
            } else if mode == 2 {
                RectExtent::Rectangle
            } else {
                extent
            },
            None,
        )
    } else {
        (extent, None)
    }
}

/// The scanner's state, abstractly.
pub struct RectanglesView {
    pub framer: FramerView,
    pub after_escape: bool,
    pub extent: RectExtent,
}

/// One byte through the scanner: the framer reads it, a sequence it finishes is classified under
/// the extent in force, and a full reset (`ESC c`) then puts the extent back to its power-up value.
pub open spec fn rect_step(r: RectanglesView, byte: u8) -> (RectanglesView, Option<RectRequest>) {
    let (framer, finished) = csi_step(r.framer, byte);
    let (extent, request) = match finished {
        Some(c) => classify_rect(c, r.extent),
        None => (r.extent, None),
    };
    let extent = if r.after_escape && byte == 0x63 {
        RectExtent::Stream
    } else {
        extent
    };
    (RectanglesView { framer, after_escape: byte == ESC, extent }, request)
}

/// A chunk through the scanner: the state after it, and each request with the offset one past the
/// sequence that carried it.
pub open spec fn rect_run(r: RectanglesView, bytes: Seq<u8>) -> (RectanglesView, Seq<(int, RectRequest)>)
    decreases bytes.len(),
{
    if bytes.len() == 0 {
        (r, Seq::empty())
    } else {
        let (before, found) = rect_run(r, bytes.drop_last());
        let (after, request) = rect_step(before, bytes.last());
        match request {
            Some(q) => (after, found.push((bytes.len() as int, q))),
            None => (after, found),
        }
    }
}

/// Requests moved `by` bytes later.
pub open spec fn shift_rect(found: Seq<(int, RectRequest)>, by: int) -> Seq<(int, RectRequest)> {
    found.map_values(|r: (int, RectRequest)| (r.0 + by, r.1))
}

/// Output fed in two chunks yields the requests it yields fed whole, each at its place in the
/// whole, with the extent each was stamped with: a sequence may be split anywhere.
pub proof fn law_rect_chunks(p: RectanglesView, a: Seq<u8>, b: Seq<u8>)
    ensures
        ({
            let (mid, first) = rect_run(p, a);
            let (end, second) = rect_run(mid, b);
            rect_run(p, a + b) == (end, first + shift_rect(second, a.len() as int))
        }),
    decreases b.len(),
{
    let (mid, first) = rect_run(p, a);
    if b.len() == 0 {
        assert(a + b =~= a);
        assert(first + shift_rect(Seq::<(int, RectRequest)>::empty(), a.len() as int) =~= first);
    } else {
        law_rect_chunks(p, a, b.drop_last());
        assert((a + b).drop_last() =~= a + b.drop_last());
        assert((a + b).last() == b.last());
        let (end0, second0) = rect_run(mid, b.drop_last());
        let (end, request) = rect_step(end0, b.last());
        match request {
            Some(r) => {
                let at = (b.len() + a.len()) as int;
                assert(shift_rect(second0.push((b.len() as int, r)), a.len() as int) =~= shift_rect(
                    second0,
                    a.len() as int,
                ).push((at, r)));
                assert(first + shift_rect(second0, a.len() as int).push((at, r)) =~= (first
                    + shift_rect(second0, a.len() as int)).push((at, r)));
            },
            None => {},
        }
    }
}

pub open spec fn rect_requests_view(found: Seq<(usize, RectRequest)>) -> Seq<(int, RectRequest)> {
    found.map_values(|r: (usize, RectRequest)| (r.0 as int, r.1))
}

fn number_of(csi: &Csi, index: usize) -> (value: u16)
    ensures
        value == number(csi@, index as int),
{
    match csi.param(index) {
        Some(v) => v,
        None => 0,
    }
}

fn corners_of(csi: &Csi, first: usize) -> (corners: Corners)
    requires
        first <= 2,
    ensures
        corners == corners_at(csi@, first as int),
{
    Corners {
        top: number_of(csi, first),
        left: number_of(csi, first + 1),
        bottom: number_of(csi, first + 2),
        right: number_of(csi, first + 3),
    }
}

fn selectors(csi: &Csi) -> (selectors: Vec<u16>)
    ensures
        selectors@ == selectors_of(csi@),
{
    let count = csi.param_count();
    let mut out: Vec<u16> = Vec::new();
    let mut index: usize = 4;
    while index < count
        invariant
            4 <= index,
            count == csi@.params.fields.len(),
            index <= count || (count < 4 && index == 4),
            out@ =~= Seq::new((index - 4) as nat, |i: int| number(csi@, i + 4)),
        decreases count - index,
    {
        out.push(number_of(csi, index));
        index = index + 1;
    }
    assert(out@ =~= selectors_of(csi@));
    out
}

fn fill_char(code: u16) -> (glyph: Option<char>)
    ensures
        glyph == fill_char_of(code),
{
    if (32 <= code && code <= 126) || (160 <= code && code <= 255) {
        Some((code as u8) as char)
    } else {
        None
    }
}

fn one_or_more(value: u16) -> (result: u16)
    ensures
        result == at_least_one(value),
{
    if value == 0 {
        1
    } else {
        value
    }
}

fn intermediate_is(csi: &Csi, byte: u8) -> (is: bool)
    ensures
        is == (csi@.intermediates == seq![byte]),
{
    if csi.intermediates.len() == 1 && csi.intermediates[0] == byte {
        assert(csi@.intermediates =~= seq![byte]);
        true
    } else {
        assert(csi@.intermediates != seq![byte]) by {
            if csi@.intermediates == seq![byte] {
                assert(csi@.intermediates.len() == 1);
            }
        }
        false
    }
}

/// Decide what a finished sequence means; DECSACE updates `extent` and asks for nothing.
fn classify(csi: &Csi, extent: &mut RectExtent) -> (request: Option<RectRequest>)
    ensures
        (*final(extent), request) == classify_rect(csi@, *old(extent)),
{
    if csi.sub_parameters() {
        return None;
    }
    let plain = csi.marker.is_none();
    let dollar = plain && intermediate_is(csi, 0x24);
    let star = plain && intermediate_is(csi, 0x2a);
    let space = plain && intermediate_is(csi, 0x20);
    let plus = plain && intermediate_is(csi, 0x2b);
    let quote = plain && intermediate_is(csi, 0x27);
    let f = csi.final_byte;
    if dollar && f == 0x7a {
        Some(RectRequest::Erase(corners_of(csi, 0)))
    } else if dollar && f == 0x7b {
        Some(RectRequest::SelectiveErase(corners_of(csi, 0)))
    } else if dollar && f == 0x78 {
        match fill_char(number_of(csi, 0)) {
            Some(glyph) => Some(RectRequest::Fill(glyph, corners_of(csi, 1))),
            None => None,
        }
    } else if dollar && f == 0x76 {
        Some(RectRequest::Copy { source: corners_of(csi, 0), top: number_of(csi, 5), left: number_of(csi, 6) })
    } else if dollar && f == 0x72 {
        let chosen = selectors(csi);
        Some(
            RectRequest::Attributes {
                corners: corners_of(csi, 0),
                extent: *extent,
                change: changes(chosen.as_slice()),
            },
        )
    } else if dollar && f == 0x74 {
        let chosen = selectors(csi);
        Some(
            RectRequest::Attributes {
                corners: corners_of(csi, 0),
                extent: *extent,
                change: reversals(chosen.as_slice()),
            },
        )
    } else if star && f == 0x79 {
        Some(RectRequest::Checksum { id: number_of(csi, 0), corners: corners_of(csi, 2) })
    } else if space && f == 0x40 {
        Some(RectRequest::Shift { direction: RectDirection::Left, columns: one_or_more(number_of(csi, 0)) })
    } else if space && f == 0x41 {
        Some(RectRequest::Shift { direction: RectDirection::Right, columns: one_or_more(number_of(csi, 0)) })
    } else if plus && f == 0x54 {
        Some(RectRequest::Unscroll { lines: one_or_more(number_of(csi, 0)) })
    } else if quote && f == 0x7d {
        Some(RectRequest::Columns { columns: one_or_more(number_of(csi, 0)), insert: true })
    } else if quote && f == 0x7e {
        Some(RectRequest::Columns { columns: one_or_more(number_of(csi, 0)), insert: false })
    } else if star && f == 0x78 {
        let mode = number_of(csi, 0);
        if mode == 0 || mode == 1 {
            *extent = RectExtent::Stream;
        } else if mode == 2 {
            *extent = RectExtent::Rectangle;
        }
        None
    } else {
        None
    }
}

/// The rectangular-operations scanner: the CSI framer, whether the last byte was an ESC (for a
/// full reset), and the extent DECSACE last selected.
#[derive(Debug)]
pub struct Rectangles {
    framer: Framer,
    after_escape: bool,
    extent: RectExtent,
}

impl View for Rectangles {
    type V = RectanglesView;

    closed spec fn view(&self) -> RectanglesView {
        RectanglesView { framer: self.framer@, after_escape: self.after_escape, extent: self.extent }
    }
}

impl Rectangles {
    pub closed spec fn wf(&self) -> bool {
        self.framer.wf()
    }

    pub fn new() -> (rectangles: Rectangles)
        ensures
            rectangles.wf(),
            rectangles@ == (RectanglesView {
                framer: crate::csi::fresh_sequence(crate::csi::CsiScan::Ground),
                after_escape: false,
                extent: RectExtent::Stream,
            }),
    {
        Rectangles { framer: Framer::new(), after_escape: false, extent: RectExtent::Stream }
    }

    /// The extent DECSACE has selected.
    pub fn extent(&self) -> (extent: RectExtent)
        ensures
            extent == self@.extent,
    {
        self.extent
    }

    /// Scan a chunk of output, returning what to do and where: each offset is one past the
    /// sequence's final byte. Safe at any chunk boundary.
    pub fn feed(&mut self, bytes: &[u8]) -> (requests: Vec<(usize, RectRequest)>)
        requires
            old(self).wf(),
        ensures
            final(self).wf(),
            (final(self)@, rect_requests_view(requests@)) == rect_run(old(self)@, bytes@),
    {
        let mut requests: Vec<(usize, RectRequest)> = Vec::new();
        let mut i: usize = 0;
        while i < bytes.len()
            invariant
                i <= bytes@.len(),
                self.wf(),
                (self@, rect_requests_view(requests@)) == rect_run(old(self)@, bytes@.take(i as int)),
            decreases bytes@.len() - i,
        {
            assert(bytes@.take(i + 1).drop_last() =~= bytes@.take(i as int));
            assert(bytes@.take(i + 1).last() == bytes@[i as int]);
            let byte = bytes[i];
            let ghost before = requests@;
            let finished = self.framer.step(byte);
            let request = match finished {
                Some(csi) => classify(&csi, &mut self.extent),
                None => None,
            };
            if self.after_escape && byte == 0x63 {
                self.extent = RectExtent::Stream;
            }
            self.after_escape = byte == ESC;
            match request {
                Some(r) => {
                    requests.push((i + 1, r));
                    assert(rect_requests_view(requests@) =~= rect_requests_view(before).push(
                        ((i + 1) as int, r),
                    ));
                },
                None => {},
            }
            i = i + 1;
        }
        assert(bytes@.take(bytes@.len() as int) =~= bytes@);
        requests
    }
}

/// Four corners resolved against a page: 1-based and inclusive becomes 0-based and inclusive,
/// defaults become edges, an end past the page is clamped to it; `None` for an empty page, a start
/// off the page, or crossed corners — left and right are only compared for a rectangle, or for a
/// stream confined to one row.
pub open spec fn resolved(c: Corners, extent: RectExtent, rows: int, cols: int) -> Option<Rect> {
    let top: int = if c.top == 0 {
        1
    } else {
        c.top as int
    };
    let left: int = if c.left == 0 {
        1
    } else {
        c.left as int
    };
    let bottom: int = if c.bottom == 0 || c.bottom > rows {
        rows
    } else {
        c.bottom as int
    };
    let right: int = if c.right == 0 || c.right > cols {
        cols
    } else {
        c.right as int
    };
    let columns_cross = match extent {
        RectExtent::Rectangle => left > right,
        RectExtent::Stream => top == bottom && left > right,
    };
    if rows == 0 || cols == 0 || top > rows || left > cols || top > bottom || columns_cross {
        None
    } else {
        Some(
            Rect {
                top: (top - 1) as usize,
                left: (left - 1) as usize,
                bottom: (bottom - 1) as usize,
                right: (right - 1) as usize,
            },
        )
    }
}

/// Resolve four corners against a page of this size.
pub fn from_corners(corners: Corners, extent: RectExtent, rows: usize, cols: usize) -> (rect: Option<Rect>)
    ensures
        rect == resolved(corners, extent, rows as int, cols as int),
        rect matches Some(r) ==> r.top <= r.bottom < rows && r.left < cols && r.right < cols,
        rect matches Some(r) ==> (extent == RectExtent::Rectangle ==> r.left <= r.right),
{
    if rows == 0 || cols == 0 {
        return None;
    }
    let top: usize = if corners.top == 0 {
        1
    } else {
        corners.top as usize
    };
    let left: usize = if corners.left == 0 {
        1
    } else {
        corners.left as usize
    };
    let bottom: usize = if corners.bottom == 0 || corners.bottom as usize > rows {
        rows
    } else {
        corners.bottom as usize
    };
    let right: usize = if corners.right == 0 || corners.right as usize > cols {
        cols
    } else {
        corners.right as usize
    };
    if top > rows || left > cols || top > bottom {
        return None;
    }
    let columns_cross = match extent {
        RectExtent::Rectangle => left > right,
        RectExtent::Stream => top == bottom && left > right,
    };
    if columns_cross {
        return None;
    }
    Some(Rect { top: top - 1, left: left - 1, bottom: bottom - 1, right: right - 1 })
}

/// Where a copy lands: the part of the source that fits below and right of the destination
/// corner, and that corner 0-based; `None` for an empty page or a corner off it.
pub open spec fn copy_landing(source: Rect, top: u16, left: u16, rows: int, cols: int) -> Option<(Rect, int, int)> {
    let to_row: int = if top == 0 {
        0
    } else {
        top - 1
    };
    let to_col: int = if left == 0 {
        0
    } else {
        left - 1
    };
    let height = source.bottom - source.top + 1;
    let width = source.right - source.left + 1;
    let fit_height = if height < rows - to_row {
        height
    } else {
        rows - to_row
    };
    let fit_width = if width < cols - to_col {
        width
    } else {
        cols - to_col
    };
    if rows == 0 || cols == 0 || to_row >= rows || to_col >= cols {
        None
    } else {
        Some(
            (
                Rect {
                    top: source.top,
                    left: source.left,
                    bottom: (source.top + fit_height - 1) as usize,
                    right: (source.left + fit_width - 1) as usize,
                },
                to_row,
                to_col,
            ),
        )
    }
}

/// Where a copy actually lands, trimmed to the page rather than refused.
pub fn copy_extent(source: Rect, top: u16, left: u16, rows: usize, cols: usize) -> (landing: Option<(Rect, usize, usize)>)
    requires
        source.top <= source.bottom < usize::MAX,
        source.left <= source.right < usize::MAX,
    ensures
        match landing {
            Some((r, row, col)) => copy_landing(source, top, left, rows as int, cols as int) == Some(
                (r, row as int, col as int),
            ),
            None => copy_landing(source, top, left, rows as int, cols as int) is None,
        },
        landing matches Some((r, row, col)) ==> row + (r.bottom - r.top + 1) <= rows && col + (
        r.right - r.left + 1) <= cols,
{
    if rows == 0 || cols == 0 {
        return None;
    }
    let to_row: usize = if top == 0 {
        0
    } else {
        (top - 1) as usize
    };
    let to_col: usize = if left == 0 {
        0
    } else {
        (left - 1) as usize
    };
    if to_row >= rows || to_col >= cols {
        return None;
    }
    let source_height = source.height();
    let source_width = source.width();
    let height = if source_height < rows - to_row {
        source_height
    } else {
        rows - to_row
    };
    let width = if source_width < cols - to_col {
        source_width
    } else {
        cols - to_col
    };
    let trimmed = Rect {
        top: source.top,
        left: source.left,
        bottom: source.top + height - 1,
        right: source.left + width - 1,
    };
    Some((trimmed, to_row, to_col))
}

/// What the engine has to do for one rectangular request, resolved against the page.
#[derive(Debug, Clone, Copy, PartialEq, Eq)]
pub enum RectAction {
    /// Blank the area; a selective erase leaves protected cells.
    Erase { area: Rect, selective: bool },
    /// Fill the area with one character.
    Fill { glyph: char, area: Rect },
    /// Change the attributes across the area, read under `extent`.
    Attributes { area: Rect, extent: RectExtent, change: AttributeChange },
    /// Copy the clipped `source` so that its top-left cell lands at `row`, `column`.
    Copy { source: Rect, row: usize, column: usize },
    /// Shift every row sideways by `columns`, no more than the page is wide.
    Shift { direction: RectDirection, columns: usize },
    /// Scroll down `lines` lines from the scrollback, no more than the page is tall.
    Unscroll { lines: usize },
    /// Insert or delete `columns` columns at the cursor.
    Columns { columns: usize, insert: bool },
    /// Answer with the checksum of `region`, or of nothing when there is none.
    Checksum { id: u16, region: Option<Rect> },
}

/// The smaller of a request's count and a page dimension.
pub open spec fn at_most(count: u16, limit: usize) -> usize {
    if (count as usize) < limit {
        count as usize
    } else {
        limit
    }
}

/// What a rectangular request comes to on a page of `rows` by `cols`, with origin mode set or
/// not; `None` when nothing is to be done. Origin mode refuses everything that acts on
/// coordinates, since the corners would be counted from a region that cannot be seen; a shift,
/// a column insertion or deletion and a checksum question still go through, the question
/// answered for no area. Every area that cannot be placed on the page is dropped, and an
/// attribute change that changes nothing is dropped before it is placed.
pub open spec fn rect_action_spec(request: RectRequest, origin: bool, rows: usize, cols: usize) -> Option<RectAction> {
    if origin && !(request is Checksum || request is Shift || request is Columns) {
        None
    } else {
        match request {
            RectRequest::Erase(c) => match resolved(c, RectExtent::Rectangle, rows as int, cols as int) {
                Some(area) => Some(RectAction::Erase { area, selective: false }),
                None => None,
            },
            RectRequest::SelectiveErase(c) => match resolved(c, RectExtent::Rectangle, rows as int, cols as int) {
                Some(area) => Some(RectAction::Erase { area, selective: true }),
                None => None,
            },
            RectRequest::Fill(glyph, c) => match resolved(c, RectExtent::Rectangle, rows as int, cols as int) {
                Some(area) => Some(RectAction::Fill { glyph, area }),
                None => None,
            },
            RectRequest::Attributes { corners, extent, change } => if no_change(change) {
                None
            } else {
                match resolved(corners, extent, rows as int, cols as int) {
                    Some(area) => Some(RectAction::Attributes { area, extent, change }),
                    None => None,
                }
            },
            RectRequest::Copy { source, top, left } => match resolved(
                source,
                RectExtent::Rectangle,
                rows as int,
                cols as int,
            ) {
                None => None,
                Some(area) => match copy_landing(area, top, left, rows as int, cols as int) {
                    Some((clipped, row, column)) => Some(
                        RectAction::Copy { source: clipped, row: row as usize, column: column as usize },
                    ),
                    None => None,
                },
            },
            RectRequest::Shift { direction, columns } => Some(
                RectAction::Shift { direction, columns: at_most(columns, cols) },
            ),
            RectRequest::Unscroll { lines } => Some(RectAction::Unscroll { lines: at_most(lines, rows) }),
            RectRequest::Columns { columns, insert } => Some(
                RectAction::Columns { columns: columns as usize, insert },
            ),
            RectRequest::Checksum { id, corners } => Some(
                RectAction::Checksum {
                    id,
                    region: if origin {
                        None
                    } else {
                        resolved(corners, RectExtent::Rectangle, rows as int, cols as int)
                    },
                },
            ),
        }
    }
}

/// The area an erase acts on, when it acts.
pub open spec fn erase_area(a: Option<RectAction>) -> Option<Rect> {
    match a {
        Some(RectAction::Erase { area, .. }) => Some(area),
        _ => None,
    }
}

/// Whether an action is an erase that spares protected cells; `None` when it is no erase.
pub open spec fn erase_selectivity(a: Option<RectAction>) -> Option<bool> {
    match a {
        Some(RectAction::Erase { selective, .. }) => Some(selective),
        _ => None,
    }
}

/// The character and area of a fill; `None` when the action is no fill.
pub open spec fn fill_parts(a: Option<RectAction>) -> Option<(char, Rect)> {
    match a {
        Some(RectAction::Fill { glyph, area }) => Some((glyph, area)),
        _ => None,
    }
}

/// Corners resolve to a box on the page: rows and columns within it, in order; and corners that
/// already lie on the page, in order, name exactly their own cells, counted from zero.
pub proof fn law_resolved_corners_lie_on_the_page(c: Corners, rows: int, cols: int)
    requires
        0 <= rows <= usize::MAX,
        0 <= cols <= usize::MAX,
    ensures
        resolved(c, RectExtent::Rectangle, rows, cols) matches Some(r) ==> r.top <= r.bottom < rows
            && r.left <= r.right < cols,
        1 <= c.top <= c.bottom <= rows && 1 <= c.left <= c.right <= cols ==> resolved(
            c,
            RectExtent::Rectangle,
            rows,
            cols,
        ) == Some(
            Rect {
                top: (c.top - 1) as usize,
                left: (c.left - 1) as usize,
                bottom: (c.bottom - 1) as usize,
                right: (c.right - 1) as usize,
            },
        ),
{
}

/// A plain erase never spares protected cells and a selective one always does; otherwise the two
/// act on the same area or not at all together, as does a fill, which carries its own character.
/// Without origin mode that area is the box the corners resolve to; under it none of them acts.
pub proof fn law_erases_differ_only_in_selectivity(c: Corners, glyph: char, origin: bool, rows: usize, cols: usize)
    ensures
        ({
            let plain = rect_action_spec(RectRequest::Erase(c), origin, rows, cols);
            let selective = rect_action_spec(RectRequest::SelectiveErase(c), origin, rows, cols);
            let fill = rect_action_spec(RectRequest::Fill(glyph, c), origin, rows, cols);
            &&& plain is Some ==> erase_selectivity(plain) == Some(false)
            &&& selective is Some ==> erase_selectivity(selective) == Some(true)
            &&& erase_area(plain) == erase_area(selective)
            &&& (plain is Some <==> erase_area(plain) is Some)
            &&& (selective is Some <==> erase_area(selective) is Some)
            &&& fill == match erase_area(plain) {
                Some(area) => Some(RectAction::Fill { glyph, area }),
                None => None,
            }
            &&& origin ==> plain is None && selective is None && fill is None
            &&& !origin ==> erase_area(plain) == resolved(c, RectExtent::Rectangle, rows as int, cols as int)
        }),
{
}

/// The source, row and column of a copy, when the action is one.
pub open spec fn copy_parts(a: Option<RectAction>) -> Option<(Rect, usize, usize)> {
    match a {
        Some(RectAction::Copy { source, row, column }) => Some((source, row, column)),
        _ => None,
    }
}

/// A copy reads only inside the box its source corners resolve to, starting at its top-left, and
/// writes only on the page: the part it copies lands whole within the page's rows and columns.
/// When the whole source fits at the destination, nothing is clipped and it lands at the
/// destination's corner, counted from zero.
pub proof fn law_a_copy_stays_on_the_page(source: Corners, top: u16, left: u16, rows: usize, cols: usize)
    ensures
        ({
            let a = rect_action_spec(RectRequest::Copy { source, top, left }, false, rows, cols);
            let r = resolved(source, RectExtent::Rectangle, rows as int, cols as int);
            &&& a is Some ==> r is Some && copy_parts(a) is Some
            &&& copy_parts(a) matches Some((s, row, column)) ==> {
                let whole = r->0;
                &&& s.top == whole.top && s.left == whole.left
                &&& s.top <= s.bottom <= whole.bottom && s.left <= s.right <= whole.right
                &&& row + (s.bottom - s.top) < rows && column + (s.right - s.left) < cols
            }
            &&& r matches Some(whole) ==> (1 <= top && 1 <= left && top - 1 + (whole.bottom - whole.top)
                < rows && left - 1 + (whole.right - whole.left) < cols ==> a == Some(
                RectAction::Copy { source: whole, row: (top - 1) as usize, column: (left - 1) as usize },
            ))
        }),
{
    law_resolved_corners_lie_on_the_page(source, rows as int, cols as int);
}

/// The shift of a request: its direction and the columns it moves, when it is one.
pub open spec fn shift_parts(a: Option<RectAction>) -> Option<(RectDirection, usize)> {
    match a {
        Some(RectAction::Shift { direction, columns }) => Some((direction, columns)),
        _ => None,
    }
}

/// The lines an unscroll moves, when the action is one.
pub open spec fn unscroll_lines(a: Option<RectAction>) -> Option<usize> {
    match a {
        Some(RectAction::Unscroll { lines }) => Some(lines),
        _ => None,
    }
}

/// The extent and change of an attribute action, when it is one.
pub open spec fn attribute_parts(a: Option<RectAction>) -> Option<(RectExtent, AttributeChange)> {
    match a {
        Some(RectAction::Attributes { extent, change, .. }) => Some((extent, change)),
        _ => None,
    }
}

/// The other requests keep their kind and what they carry: a checksum is always answered under its
/// own id, for the erase area of its corners or, under origin mode, for no area; a shift keeps its
/// direction and moves as many columns as asked up to the page's width; an unscroll is refused
/// under origin mode and otherwise moves as many lines as asked up to the page's height; a column insertion or deletion passes through as asked;
/// an attribute change that changes nothing does nothing, and one that does keeps its extent and
/// change; a copy is refused under origin mode and is otherwise a copy or nothing.
pub proof fn law_requests_keep_their_kind(request: RectRequest, origin: bool, rows: usize, cols: usize)
    ensures
        ({
            let a = rect_action_spec(request, origin, rows, cols);
            match request {
                RectRequest::Checksum { id, corners } => a == Some(
                    RectAction::Checksum {
                        id,
                        region: if origin {
                            None
                        } else {
                            erase_area(rect_action_spec(RectRequest::Erase(corners), false, rows, cols))
                        },
                    },
                ),
                RectRequest::Shift { direction, columns } => a is Some && (shift_parts(a) matches Some(
                    (d, n),
                ) && d == direction && n <= cols && n <= columns && (columns <= cols ==> n == columns)),
                RectRequest::Unscroll { lines } => (origin ==> a is None) && (!origin ==> a is Some && (
                unscroll_lines(a) matches Some(n) && n <= rows && n <= lines && (lines <= rows ==> n
                    == lines))),
                RectRequest::Columns { columns, insert } => a == Some(
                    RectAction::Columns { columns: columns as usize, insert },
                ),
                RectRequest::Attributes { corners, extent, change } => (origin || no_change(change) ==> a
                    is None) && (a is Some ==> attribute_parts(a) == Some((extent, change))),
                RectRequest::Copy { .. } => (origin ==> a is None) && (a is Some ==> a->0 is Copy),
                _ => true,
            }
        }),
{
    match request {
        RectRequest::Shift { direction, columns } => {
            assert(shift_parts(rect_action_spec(request, origin, rows, cols)) == Some(
                (direction, at_most(columns, cols)),
            ));
        },
        RectRequest::Unscroll { lines } => {
            if !origin {
                assert(unscroll_lines(rect_action_spec(request, origin, rows, cols)) == Some(
                    at_most(lines, rows),
                ));
            }
        },
        _ => {},
    }
}

/// Decide what one rectangular request does to a page of `rows` by `cols`, with origin mode
/// `origin`: the refusal, the corners resolved and clipped, the counts bounded by the page.
pub fn rect_action(request: RectRequest, origin: bool, rows: usize, cols: usize) -> (action: Option<RectAction>)
    ensures
        action == rect_action_spec(request, origin, rows, cols),
{
    let refused_in_origin = match request {
        RectRequest::Checksum { .. } | RectRequest::Shift { .. } | RectRequest::Columns { .. } => false,
        _ => true,
    };
    if origin && refused_in_origin {
        return None;
    }
    match request {
        RectRequest::Erase(c) => match from_corners(c, RectExtent::Rectangle, rows, cols) {
            Some(area) => Some(RectAction::Erase { area, selective: false }),
            None => None,
        },
        RectRequest::SelectiveErase(c) => match from_corners(c, RectExtent::Rectangle, rows, cols) {
            Some(area) => Some(RectAction::Erase { area, selective: true }),
            None => None,
        },
        RectRequest::Fill(glyph, c) => match from_corners(c, RectExtent::Rectangle, rows, cols) {
            Some(area) => Some(RectAction::Fill { glyph, area }),
            None => None,
        },
        RectRequest::Attributes { corners, extent, change } => {
            if change.is_empty() {
                return None;
            }
            match from_corners(corners, extent, rows, cols) {
                Some(area) => Some(RectAction::Attributes { area, extent, change }),
                None => None,
            }
        },
        RectRequest::Copy { source, top, left } => {
            let area = match from_corners(source, RectExtent::Rectangle, rows, cols) {
                Some(area) => area,
                None => {
                    return None;
                },
            };
            match copy_extent(area, top, left, rows, cols) {
                Some((clipped, row, column)) => Some(RectAction::Copy { source: clipped, row, column }),
                None => None,
            }
        },
        RectRequest::Shift { direction, columns } => {
            let count = columns as usize;
            Some(RectAction::Shift { direction, columns: if count < cols { count } else { cols } })
        },
        RectRequest::Unscroll { lines } => {
            let count = lines as usize;
            Some(RectAction::Unscroll { lines: if count < rows { count } else { rows } })
        },
        RectRequest::Columns { columns, insert } => Some(
            RectAction::Columns { columns: columns as usize, insert },
        ),
        RectRequest::Checksum { id, corners } => {
            let area = if origin {
                None
            } else {
                from_corners(corners, RectExtent::Rectangle, rows, cols)
            };
            Some(RectAction::Checksum { id, region: area })
        },
    }
}

/// One cell of a row after `columns` columns are inserted (or deleted) at `column`, inside the band
/// `left..=right`: cells before the cursor or past the band stay; inside, each takes the cell
/// `columns` to its left (or right) while that stays within `column..=right`, and a blank
/// otherwise — a column pushed past the band is gone. No more columns move than the band has
/// room for from the cursor on.
pub open spec fn shifted_cell(
    old: Seq<u32>,
    right: int,
    column: int,
    columns: int,
    insert: bool,
    blank: u32,
    i: int,
) -> u32 {
    let room = right - column + 1;
    let n = if columns < room {
        columns
    } else {
        room
    };
    if i < column || i > right {
        old[i]
    } else if insert {
        if i - n >= column {
            old[i - n]
        } else {
            blank
        }
    } else {
        if i + n <= right {
            old[i + n]
        } else {
            blank
        }
    }
}

/// A row after DECIC (`insert`) or DECDC at `column`, inside the band `left..=right`; a cursor
/// outside the band leaves the row alone.
pub open spec fn shifted_row(
    old: Seq<u32>,
    left: int,
    right: int,
    column: int,
    columns: int,
    insert: bool,
    blank: u32,
) -> Seq<u32> {
    if column < left || column > right {
        old
    } else {
        Seq::new(old.len(), |i: int| shifted_cell(old, right, column, columns, insert, blank, i))
    }
}

/// Insert or delete `columns` columns at `column` on one row of cells, inside the band
/// `left..=right`, blanking what comes in with `blank`. The row is read through a copy, since the
/// cells moved from and to overlap.
pub fn shift_row(
    row: &mut Vec<u32>,
    left: usize,
    right: usize,
    column: usize,
    columns: usize,
    insert: bool,
    blank: u32,
)
    requires
        right < old(row)@.len(),
    ensures
        final(row)@ == shifted_row(
            old(row)@,
            left as int,
            right as int,
            column as int,
            columns as int,
            insert,
            blank,
        ),
{
    if column < left || column > right {
        return;
    }
    assert(right < row@.len() && row@.len() == row.len());
    let room = right - column + 1;
    let n = if columns < room {
        columns
    } else {
        room
    };
    let source = row.clone();
    assert(source@ =~= row@);
    let ghost old_row = row@;
    let mut destination = column;
    while destination <= right
        invariant
            column <= destination <= right + 1,
            right < old_row.len(),
            right < usize::MAX,
            source@ == old_row,
            row@.len() == old_row.len(),
            n == (if columns < right - column + 1 { columns } else { (right - column + 1) as usize }),
            forall|i: int|
                0 <= i < old_row.len() ==> #[trigger] row@[i] == if column <= i < destination {
                    shifted_cell(old_row, right as int, column as int, columns as int, insert, blank, i)
                } else {
                    old_row[i]
                },
        decreases right + 1 - destination,
    {
        let value = if insert {
            if destination - column >= n {
                source[destination - n]
            } else {
                blank
            }
        } else {
            if n <= right - destination {
                source[destination + n]
            } else {
                blank
            }
        };
        row.set(destination, value);
        destination = destination + 1;
    }
    assert(row@ =~= shifted_row(
        old_row,
        left as int,
        right as int,
        column as int,
        columns as int,
        insert,
        blank,
    ));
}

/// Whether DECIC or DECDC acts at all: a scrolling region `top..=bottom` that is not crossed, and a
/// cursor at `row`, `column` inside both it and the band `left..=right`.
pub open spec fn band_shift_applies(top: int, bottom: int, left: int, right: int, row: int, column: int) -> bool {
    top <= bottom && left <= column <= right && top <= row <= bottom
}

/// The page after DECIC or DECDC: every row of the region shifted inside the band; the page left
/// alone when the cursor is outside the band or the region, or when nothing moves.
pub open spec fn shifted_band(
    page: Seq<Seq<u32>>,
    top: int,
    bottom: int,
    left: int,
    right: int,
    row: int,
    column: int,
    columns: int,
    insert: bool,
    blank: u32,
) -> Seq<Seq<u32>> {
    if !band_shift_applies(top, bottom, left, right, row, column) {
        page
    } else {
        Seq::new(
            page.len(),
            |r: int|
                if top <= r <= bottom {
                    shifted_row(page[r], left, right, column, columns, insert, blank)
                } else {
                    page[r]
                },
        )
    }
}

/// Insert or delete `columns` columns at the cursor — DECIC and DECDC — across every row of the
/// scrolling region `top..=bottom`, inside the band `left..=right`; refused when the cursor sits
/// outside either. A column pushed past the band is gone, and what arrives is `blank`.
pub fn shift_band_columns(
    page: &mut Vec<Vec<u32>>,
    top: usize,
    bottom: usize,
    left: usize,
    right: usize,
    row: usize,
    column: usize,
    columns: usize,
    insert: bool,
    blank: u32,
)
    requires
        band_shift_applies(top as int, bottom as int, left as int, right as int, row as int, column as int)
            ==> bottom < old(page)@.len() && forall|r: int|
            top <= r <= bottom ==> right < (#[trigger] old(page)@[r])@.len(),
    ensures
        cells_of(final(page)@) == shifted_band(
            cells_of(old(page)@),
            top as int,
            bottom as int,
            left as int,
            right as int,
            row as int,
            column as int,
            columns as int,
            insert,
            blank,
        ),
{
    if bottom < top || column < left || column > right || row < top || row > bottom {
        return;
    }
    let ghost before = cells_of(page@);
    assert(bottom < page@.len() && page@.len() == page.len());
    let mut r = top;
    while r <= bottom
        invariant
            top <= r <= bottom + 1,
            bottom < page@.len(),
            bottom < usize::MAX,
            page@.len() == before.len(),
            before == cells_of(old(page)@),
            forall|k: int| top <= k <= bottom ==> right < (#[trigger] old(page)@[k])@.len(),
            forall|k: int|
                0 <= k < page@.len() ==> #[trigger] page@[k]@ == if top <= k < r {
                    shifted_row(before[k], left as int, right as int, column as int, columns as int, insert, blank)
                } else {
                    before[k]
                },
        decreases bottom + 1 - r,
    {
        let mut cells = page[r].clone();
        proof {
            assert(cells@ =~= page@[r as int]@);
            assert(cells@ == before[r as int]);
            assert(right < old(page)@[r as int]@.len());
        }
        shift_row(&mut cells, left, right, column, columns, insert, blank);
        page.set(r, cells);
        r = r + 1;
    }
    assert(cells_of(page@) =~= shifted_band(
        before,
        top as int,
        bottom as int,
        left as int,
        right as int,
        row as int,
        column as int,
        columns as int,
        insert,
        blank,
    ));
}

/// Rows of cells, each by its cells.
pub open spec fn cells_of(rows: Seq<Vec<u32>>) -> Seq<Seq<u32>> {
    rows.map_values(|r: Vec<u32>| r@)
}

/// How many of `lines` the scrollback can fill, holding `history` rows.
pub open spec fn restored_count(history: int, lines: int) -> int {
    if lines < history {
        lines
    } else {
        history
    }
}

/// `n` blank rows.
pub open spec fn blank_rows(n: int, blank: Seq<u32>) -> Seq<Seq<u32>> {
    Seq::new(n as nat, |i: int| blank)
}

/// Whether an unscroll of `lines` moves anything: a page with rows and columns, and lines to move.
pub open spec fn unscroll_moves(page: Seq<Seq<u32>>, lines: int, blank: Seq<u32>) -> bool {
    lines > 0 && blank.len() > 0 && page.len() > 0
}

/// The page after UNSCROLL `lines`, the scrollback `history` oldest row first: blanks for what the
/// scrollback cannot fill, then its newest rows in their order, then the page slid down, its
/// bottom `lines` rows gone.
pub open spec fn unscrolled_page(page: Seq<Seq<u32>>, history: Seq<Seq<u32>>, lines: int, blank: Seq<u32>) -> Seq<Seq<u32>> {
    if !unscroll_moves(page, lines, blank) {
        page
    } else {
        let f = restored_count(history.len() as int, lines);
        blank_rows(lines - f, blank) + history.subrange(
            history.len() - f,
            history.len() as int,
        ) + page.subrange(0, page.len() - lines)
    }
}

/// The scrollback after the same unscroll: its newest rows, the ones moved onto the page, gone.
pub open spec fn unscrolled_history(page: Seq<Seq<u32>>, history: Seq<Seq<u32>>, lines: int, blank: Seq<u32>) -> Seq<Seq<u32>> {
    if !unscroll_moves(page, lines, blank) {
        history
    } else {
        history.subrange(0, history.len() - restored_count(history.len() as int, lines))
    }
}

/// Scroll the page down `lines` lines and fill the top from the scrollback — kitty's UNSCROLL. The
/// scrollback's newest rows are moved, not copied, onto the page above what was there, newest
/// lowest; whatever it cannot fill is blank. `lines` is already bounded by the page's height.
pub fn unscroll_rows(page: &mut Vec<Vec<u32>>, history: &mut Vec<Vec<u32>>, lines: usize, blank: &Vec<u32>)
    requires
        lines <= old(page)@.len(),
    ensures
        cells_of(final(page)@) == unscrolled_page(
            cells_of(old(page)@),
            cells_of(old(history)@),
            lines as int,
            blank@,
        ),
        cells_of(final(history)@) == unscrolled_history(
            cells_of(old(page)@),
            cells_of(old(history)@),
            lines as int,
            blank@,
        ),
{
    let rows = page.len();
    if lines == 0 || blank.len() == 0 || rows == 0 {
        return;
    }
    let ghost page0 = page@;
    let ghost history0 = history@;
    let kept = history.len();
    let restored_rows = if lines < kept {
        lines
    } else {
        kept
    };
    let mut restored = history.split_off(kept - restored_rows);
    let mut moved: Vec<Vec<u32>> = Vec::new();
    let mut k: usize = 0;
    while k < lines - restored_rows
        invariant
            k <= lines - restored_rows,
            cells_of(moved@) == blank_rows(k as int, blank@),
        decreases lines - restored_rows - k,
    {
        let row = blank.clone();
        assert(row@ =~= blank@);
        let ghost prev = moved@;
        assert(cells_of(prev).len() == prev.len());
        assert(blank_rows(k as int, blank@).len() == k);
        assert(prev.len() == k);
        moved.push(row);
        assert forall|i: int| 0 <= i < moved@.len() implies #[trigger] cells_of(moved@)[i] == blank@ by {
            assert(cells_of(moved@)[i] == moved@[i]@);
            if i < prev.len() {
                assert(moved@[i] == prev[i]);
                assert(cells_of(prev)[i] == prev[i]@);
                assert(cells_of(prev)[i] == blank_rows(k as int, blank@)[i]);
                assert(blank_rows(k as int, blank@)[i] == blank@);
            } else {
                assert(moved@[i] == row);
                assert(moved@[i]@ == blank@);
            }
        }
        assert(cells_of(moved@) =~= blank_rows(k + 1, blank@));
        k = k + 1;
    }
    let ghost blanks = moved@;
    moved.append(&mut restored);
    page.truncate(rows - lines);
    let ghost slid = page@;
    moved.append(page);
    *page = moved;
    proof {
        assert(cells_of(blanks + history0.subrange(kept - restored_rows, kept as int)) =~= cells_of(
            blanks,
        ) + cells_of(history0).subrange(kept - restored_rows, kept as int));
        assert(cells_of(page@) =~= cells_of(blanks + history0.subrange(kept - restored_rows, kept as int))
            + cells_of(slid));
        assert(cells_of(slid) =~= cells_of(page0).subrange(0, rows - lines));
        assert(cells_of(history@) =~= cells_of(history0).subrange(0, kept - restored_rows));
    }
}

/// An unscroll carries every line's text to the number its renumbering gives it: read the
/// scrollback and the page as one document, oldest line first, and each line the unscroll keeps
/// holds, afterwards, at the line `unscroll_map` sends it to, the text it held before. This is
/// what lets the prompt marks, renumbered by the same numbers, keep naming the lines they named.
pub proof fn law_unscroll_moves_text_with_its_number(
    page: Seq<Seq<u32>>,
    history: Seq<Seq<u32>>,
    lines: int,
    blank: Seq<u32>,
)
    requires
        unscroll_moves(page, lines, blank),
        lines <= page.len(),
        history.len() + page.len() <= u64::MAX,
    ensures
        ({
            let u = unscrolled(
                history.len() as int,
                page.len() as int,
                lines,
                restored_count(history.len() as int, lines),
            );
            let before = history + page;
            let after = unscrolled_history(page, history, lines, blank) + unscrolled_page(
                page,
                history,
                lines,
                blank,
            );
            forall|l: u64|
                #![trigger unscroll_map(u, l)]
                l < before.len() && unscroll_map(u, l) is Some ==> {
                    let m = unscroll_map(u, l)->0;
                    m < after.len() && after[m as int] == before[l as int]
                }
        }),
{
    let h = history.len() as int;
    let rows = page.len() as int;
    let f = restored_count(h, lines);
    let u = unscrolled(h, rows, lines, f);
    let before = history + page;
    let low = history.subrange(0, h - f);
    let blanks = blank_rows(lines - f, blank);
    let high = history.subrange(h - f, h);
    let slid = page.subrange(0, rows - lines);
    let after = unscrolled_history(page, history, lines, blank) + unscrolled_page(page, history, lines, blank);
    assert(after =~= low + blanks + high + slid);
    assert forall|l: u64| l < before.len() && #[trigger] unscroll_map(u, l) is Some implies {
        let m = unscroll_map(u, l)->0;
        m < after.len() && after[m as int] == before[l as int]
    } by {
        let li = l as int;
        if li < h - f {
            assert(after[li] == low[li]);
            assert(before[li] == history[li]);
        } else if li < h {
            let m = li + (lines - f);
            assert(unscroll_map(u, l) == Some(m as u64));
            assert(after[m] == high[li - (h - f)]);
            assert(before[li] == history[li]);
        } else {
            let m = li + (lines - f);
            assert(unscroll_map(u, l) == Some(m as u64));
            assert(after[m] == slid[li - h]);
            assert(before[li] == page[li - h]);
        }
    }
}

/// What a plain space weighs with nothing added on top: trimmed from a checksum unless it comes
/// first.
pub const BLANK: u32 = 0x20;

/// A checksum's running state, abstractly: the total so far, and whether any cell has counted.
pub struct ChecksumView {
    pub total: u32,
    pub counted: bool,
}

/// The total after one more cell: a plain space is dropped, except as the very first cell; any
/// other weight is added, wrapping at 32 bits.
pub open spec fn weighed(c: ChecksumView, value: u32) -> ChecksumView {
    if c.counted && value == BLANK {
        c
    } else {
        ChecksumView {
            total: if c.total + value > u32::MAX {
                (c.total + value - 0x1_0000_0000) as u32
            } else {
                (c.total + value) as u32
            },
            counted: true,
        }
    }
}

/// The reported number: the total modulo 2^16, negated.
pub open spec fn checksum_of(total: u32) -> u16 {
    ((0x10000 - total % 0x10000) % 0x10000) as u16
}

/// The running total behind a DECRQCRA report.
#[derive(Debug)]
pub struct Checksum {
    total: u32,
    counted: bool,
}

impl View for Checksum {
    type V = ChecksumView;

    closed spec fn view(&self) -> ChecksumView {
        ChecksumView { total: self.total, counted: self.counted }
    }
}

impl Checksum {
    pub fn new() -> (checksum: Checksum)
        ensures
            checksum@ == (ChecksumView { total: 0, counted: false }),
    {
        Checksum { total: 0, counted: false }
    }

    /// Weigh in one cell, given as its character code plus whatever its attributes added.
    pub fn cell(&mut self, value: u32)
        ensures
            final(self)@ == weighed(old(self)@, value),
    {
        if self.counted && value == BLANK {
            return ;
        }
        self.counted = true;
        self.total = self.total.wrapping_add(value);
    }

    /// The number to report: the total modulo 2^16, negated.
    pub fn finish(self) -> (checksum: u16)
        ensures
            checksum == checksum_of(self@.total),
    {
        let low = (self.total % 0x10000) as u16;
        if low == 0 {
            0
        } else {
            (0x10000 - low as u32) as u16
        }
    }
}

/// The DECCKSR report: `DCS Pid ! ~ XXXX ST`, the id in decimal, the checksum in four upper-case
/// hex digits.
pub open spec fn checksum_reply_bytes(id: u16, checksum: u16) -> Seq<u8> {
    seq![ESC, 0x50u8] + decimal(id as nat) + seq![
        0x21u8,
        0x7eu8,
        hex_digit_of((checksum / 4096) as int),
        hex_digit_of(((checksum / 256) % 16) as int),
        hex_digit_of(((checksum / 16) % 16) as int),
        hex_digit_of((checksum % 16) as int),
        ESC,
        0x5cu8,
    ]
}

fn hex_digit_byte(nibble: u16) -> (digit: u8)
    requires
        nibble < 16,
    ensures
        digit == hex_digit_of(nibble as int),
{
    if nibble < 10 {
        0x30 + nibble as u8
    } else {
        0x41 + (nibble - 10) as u8
    }
}

/// The DECCKSR report a DECRQCRA earns.
pub fn checksum_reply(id: u16, checksum: u16) -> (reply: Vec<u8>)
    ensures
        reply@ == checksum_reply_bytes(id, checksum),
{
    let mut reply: Vec<u8> = Vec::new();
    reply.push(ESC);
    reply.push(0x50);
    crate::bytes::push_decimal(&mut reply, id as u64);
    reply.push(0x21);
    reply.push(0x7e);
    reply.push(hex_digit_byte(checksum / 4096));
    reply.push(hex_digit_byte((checksum / 256) % 16));
    reply.push(hex_digit_byte((checksum / 16) % 16));
    reply.push(hex_digit_byte(checksum % 16));
    reply.push(ESC);
    reply.push(0x5c);
    assert(reply@ =~= checksum_reply_bytes(id, checksum));
    reply
}

/// Where the lines of the document go after an UNSCROLL: lines before `cut` keep their numbers,
/// lines from `cut` move down by `shift` (the blank lines inserted), and lines from
/// `discard_from` on are gone.
#[derive(Debug, Clone, Copy, PartialEq, Eq)]
pub struct Unscrolled {
    pub cut: u64,
    pub shift: u64,
    pub discard_from: u64,
}

/// Where `line` goes after an unscroll, or `None` when its content was pushed off the page.
pub open spec fn unscroll_map(u: Unscrolled, line: u64) -> Option<u64> {
    if line >= u.discard_from {
        None
    } else if line >= u.cut {
        Some((line + u.shift) as u64)
    } else {
        Some(line)
    }
}

/// The three numbers an unscroll of `lines` implies on a page of `rows` rows with `history` lines
/// of scrollback, `from_history` of which could fill the request.
pub open spec fn unscrolled(history: int, rows: int, lines: int, from_history: int) -> Unscrolled {
    Unscrolled {
        cut: (history - from_history) as u64,
        shift: (lines - from_history) as u64,
        discard_from: (history + (rows - lines)) as u64,
    }
}

/// The numbers of an unscroll describe a move that stays within `u64`.
pub open spec fn unscrolled_wf(u: Unscrolled) -> bool {
    u.discard_from + u.shift <= u64::MAX
}

impl Unscrolled {
    /// Work the three numbers out from the page as it stood before the move.
    pub fn new(history: usize, rows: usize, lines: usize, from_history: usize) -> (u: Self)
        requires
            from_history <= history,
            from_history <= lines,
            lines <= rows,
            history + rows <= u64::MAX,
        ensures
            u == unscrolled(history as int, rows as int, lines as int, from_history as int),
            unscrolled_wf(u),
    {
        let history = history as u64;
        Unscrolled {
            cut: history - from_history as u64,
            shift: (lines - from_history) as u64,
            discard_from: history + (rows - lines) as u64,
        }
    }

    /// Where `line` goes, or `None` when its content no longer exists.
    pub fn map(&self, line: u64) -> (moved: Option<u64>)
        requires
            unscrolled_wf(*self),
        ensures
            moved == unscroll_map(*self, line),
    {
        if line >= self.discard_from {
            None
        } else if line >= self.cut {
            Some(line + self.shift)
        } else {
            Some(line)
        }
    }
}

impl Default for Rectangles {
    fn default() -> (rectangles: Self)
        ensures
            rectangles.wf(),
            rectangles@ == (RectanglesView {
                framer: crate::csi::fresh_sequence(crate::csi::CsiScan::Ground),
                after_escape: false,
                extent: RectExtent::Stream,
            }),
    {
        Self::new()
    }
}

impl Default for Checksum {
    fn default() -> (checksum: Self)
        ensures
            checksum@ == (ChecksumView { total: 0, counted: false }),
    {
        Self::new()
    }
}

/// When the scrollback could fill the whole unscroll, no line that survives changes its number;
/// whatever the fill, a line above the consumed scrollback keeps its number, and a line pushed off
/// the bottom of the page is gone.
pub proof fn law_unscroll_keeps_numbers(u: Unscrolled, line: u64)
    ensures
        u.shift == 0 && line < u.discard_from ==> unscroll_map(u, line) == Some(line),
        line < u.cut && line < u.discard_from ==> unscroll_map(u, line) == Some(line),
        line >= u.discard_from ==> unscroll_map(u, line) is None,
{
}

/// The first cell of a rectangle always counts, even a plain space, and a plain space after it
/// never does: a blank page checksums as one space however many cells it has.
pub proof fn law_first_cell_counts(c: ChecksumView, value: u32)
    ensures
        !c.counted ==> weighed(c, value) == (ChecksumView { total: (if c.total + value > u32::MAX {
            (c.total + value - 0x1_0000_0000) as u32
        } else {
            (c.total + value) as u32
        }), counted: true }),
        c.counted && value == BLANK ==> weighed(c, value) == c,
{
}


} // verus!
