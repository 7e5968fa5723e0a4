//! The CSI grammar every control-sequence scanner shares: the bytes an engine reads straight
//! through, the parameter run with the engine's two bounds, and a framer that cuts finished
//! sequences out of a stream arriving in arbitrary chunks.
use vstd::prelude::*;
use crate::bytes::{all_decimal, bytes_equal, decimal_value, is_decimal};

verus! {

/// The escape byte that opens every sequence.
pub const ESC: u8 = 0x1b;

/// The most parameters a sequence may carry before the engine ignores it whole.
pub const MAX_PARAMS: usize = 32;

/// The most significant digits one parameter keeps; later digits of a runaway run are dropped.
pub const MAX_DIGITS: usize = 5;

/// The most intermediate bytes a sequence may carry before it is ignored.
pub const MAX_INTERMEDIATES: usize = 2;

/// The largest value a parameter reads as.
pub const PARAM_MAX: u16 = 65535;

/// Whether a byte is one the engine reads through without disturbing a sequence in flight: a C0
/// control other than ESC, CAN and SUB (executed where it sits), DEL, or any byte past `0x7f`.
pub open spec fn spec_passes_through(byte: u8) -> bool {
    (byte < 0x20 && byte != 0x18 && byte != 0x1a && byte != 0x1b) || byte >= 0x7f
}

/// The two bytes that cancel a sequence in flight.
pub open spec fn is_cancel(byte: u8) -> bool {
    byte == 0x18 || byte == 0x1a
}

/// An ASCII decimal digit.
pub open spec fn is_digit(byte: u8) -> bool {
    0x30 <= byte <= 0x39
}

/// A parameter separator, `;`, or the sub-parameter separator `:`.
pub open spec fn is_separator(byte: u8) -> bool {
    byte == 0x3b || byte == 0x3a
}

/// A final byte, which ends a CSI.
pub open spec fn is_final(byte: u8) -> bool {
    0x40 <= byte <= 0x7e
}

/// An intermediate byte.
pub open spec fn is_intermediate(byte: u8) -> bool {
    0x20 <= byte <= 0x2f
}

/// A parameter-class byte: digits, separators, and the four private markers `< = > ?`.
pub open spec fn is_parameter_byte(byte: u8) -> bool {
    0x30 <= byte <= 0x3f
}

/// A private marker.
pub open spec fn is_marker(byte: u8) -> bool {
    0x3c <= byte <= 0x3f
}

pub fn passes_through(byte: u8) -> (through: bool)
    ensures
        through == spec_passes_through(byte),
{
    (byte < 0x20 && byte != 0x18 && byte != 0x1a && byte != 0x1b) || byte >= 0x7f
}

/// One parameter as it is being collected: its value so far and how many digits it kept.
#[derive(Clone, Copy, PartialEq, Eq, Debug)]
pub struct Field {
    pub value: u32,
    pub digits: usize,
}

/// The bound a field's value stays under for the digits it holds.
pub open spec fn digit_limit(digits: int) -> int {
    if digits <= 0 {
        1
    } else if digits == 1 {
        10
    } else if digits == 2 {
        100
    } else if digits == 3 {
        1000
    } else if digits == 4 {
        10000
    } else {
        100000
    }
}

pub open spec fn field_wf(field: Field) -> bool {
    field.digits <= MAX_DIGITS && field.value < digit_limit(field.digits as int)
}

/// The parameter run of a sequence, abstractly: its fields and whether a `:` appeared.
pub struct ParamsView {
    pub fields: Seq<Field>,
    pub sub: bool,
    /// Whether the first parameter was closed by a `:` — a first field that is no plain number.
    pub first_sub: bool,
}

pub open spec fn params_wf(p: ParamsView) -> bool {
    &&& p.fields.len() <= MAX_PARAMS
    &&& forall|i: int| 0 <= i < p.fields.len() ==> field_wf(#[trigger] p.fields[i])
}

pub open spec fn empty_params() -> ParamsView {
    ParamsView { fields: Seq::empty(), sub: false, first_sub: false }
}

pub open spec fn blank_field() -> Field {
    Field { value: 0, digits: 0 }
}

/// One byte of a parameter run folded in, or `None` when the engine would ignore the sequence:
/// a separator past the parameter bound, or a private marker anywhere but first.
///
/// A digit past the fifth of its field is dropped, so a runaway digit run costs nothing and the
/// sequence lives.
pub open spec fn params_push(p: ParamsView, byte: u8) -> Option<ParamsView> {
    let started = if p.fields.len() == 0 {
        ParamsView { fields: seq![blank_field()], sub: p.sub, first_sub: p.first_sub }
    } else {
        p
    };
    let last = started.fields.last();
    if is_digit(byte) {
        if last.digits < MAX_DIGITS {
            Some(
                ParamsView {
                    fields: started.fields.update(
                        started.fields.len() - 1,
                        Field {
                            value: (last.value * 10 + (byte - 0x30)) as u32,
                            digits: (last.digits + 1) as usize,
                        },
                    ),
                    sub: started.sub,
                    first_sub: started.first_sub,
                },
            )
        } else {
            Some(started)
        }
    } else if is_separator(byte) {
        if started.fields.len() >= MAX_PARAMS {
            None
        } else {
            Some(
                ParamsView {
                    fields: started.fields.push(blank_field()),
                    sub: started.sub || byte == 0x3a,
                    first_sub: if started.fields.len() == 1 {
                        byte == 0x3a
                    } else {
                        started.first_sub
                    },
                },
            )
        }
    } else {
        None
    }
}

/// The value of parameter `index`, saturated to a `u16`, or `None` when the run stopped short of
/// it or left it empty.
pub open spec fn params_value(p: ParamsView, index: int) -> Option<u16> {
    if 0 <= index < p.fields.len() && p.fields[index].digits > 0 {
        Some(
            if p.fields[index].value > PARAM_MAX {
                PARAM_MAX
            } else {
                p.fields[index].value as u16
            },
        )
    } else {
        None
    }
}

/// How many digits a run of fields keeps, all told.
pub open spec fn total_digits(fields: Seq<Field>) -> nat
    decreases fields.len(),
{
    if fields.len() == 0 {
        0
    } else {
        total_digits(fields.drop_last()) + fields.last().digits as nat
    }
}

/// A parameter run being collected.
#[derive(Debug)]
pub struct Params {
    fields: Vec<Field>,
    sub: bool,
    first_sub: bool,
}

impl View for Params {
    type V = ParamsView;

    closed spec fn view(&self) -> ParamsView {
        ParamsView { fields: self.fields@, sub: self.sub, first_sub: self.first_sub }
    }
}

impl Params {
    pub fn new() -> (params: Params)
        ensures
            params@ == empty_params(),
    {
        Params { fields: Vec::new(), sub: false, first_sub: false }
    }

    /// Forget the run, ready for the next sequence.
    pub fn clear(&mut self)
        ensures
            final(self)@ == empty_params(),
    {
        self.fields.clear();
        self.sub = false;
        self.first_sub = false;
    }

    /// Whether any parameter byte has been read yet.
    pub fn started(&self) -> (started: bool)
        ensures
            started == (self@.fields.len() > 0),
    {
        self.fields.len() > 0
    }

    /// Fold one parameter byte in; `false` when the sequence is to be ignored, which leaves the
    /// run as it was.
    pub fn push(&mut self, byte: u8) -> (kept: bool)
        requires
            params_wf(old(self)@),
        ensures
            params_wf(final(self)@),
            kept == params_push(old(self)@, byte) is Some,
            kept ==> final(self)@ == params_push(old(self)@, byte)->0,
            !kept ==> final(self)@ == old(self)@,
    {
        let ghost before = self@;
        let is_sep = byte == 0x3b || byte == 0x3a;
        let is_dig = 0x30 <= byte && byte <= 0x39;
        if !is_sep && !is_dig {
            return false;
        }
        if is_sep && self.fields.len() >= MAX_PARAMS {
            return false;
        }
        if self.fields.len() == 0 {
            self.fields.push(Field { value: 0, digits: 0 });
        }
        assert(self@.fields =~= (if before.fields.len() == 0 {
            seq![blank_field()]
        } else {
            before.fields
        }));
        let last_index = self.fields.len() - 1;
        let last = self.fields[last_index];
        assert(field_wf(last));
        if is_dig {
            if last.digits < MAX_DIGITS {
                let next = Field { value: last.value * 10 + (byte - 0x30) as u32, digits: last.digits + 1 };
                self.fields.set(last_index, next);
            }
        } else {
            if self.fields.len() == 1 {
                self.first_sub = byte == 0x3a;
            }
            self.fields.push(Field { value: 0, digits: 0 });
            if byte == 0x3a {
                self.sub = true;
            }
        }
        proof {
            let p = params_push(before, byte)->0;
            assert(self@.fields =~= p.fields);
        }
        true
    }

    /// The saturated value of parameter `index`, or `None` when it is absent or empty.
    pub fn value(&self, index: usize) -> (value: Option<u16>)
        ensures
            value == params_value(self@, index as int),
    {
        if index < self.fields.len() && self.fields[index].digits > 0 {
            let raw = self.fields[index].value;
            if raw > PARAM_MAX as u32 {
                Some(PARAM_MAX)
            } else {
                Some(raw as u16)
            }
        } else {
            None
        }
    }

    /// How many parameters the run names. An empty field still counts.
    pub fn count(&self) -> (count: usize)
        ensures
            count == self@.fields.len(),
    {
        self.fields.len()
    }

    /// Whether a `:` opened a sub-parameter anywhere in the run.
    pub fn sub_parameters(&self) -> (sub: bool)
        ensures
            sub == self@.sub,
    {
        self.sub
    }

    /// Whether the first parameter was closed by a `:`, which makes it no plain number.
    pub fn first_sub_parameter(&self) -> (first_sub: bool)
        ensures
            first_sub == self@.first_sub,
    {
        self.first_sub
    }

    /// How many digits the run holds, all told: a runaway digit run keeps five a parameter.
    pub fn held_digits(&self) -> (held: usize)
        requires
            params_wf(self@),
        ensures
            held == total_digits(self@.fields),
            held <= MAX_PARAMS * MAX_DIGITS,
    {
        let mut held: usize = 0;
        let mut k: usize = 0;
        while k < self.fields.len()
            invariant
                k <= self@.fields.len(),
                params_wf(self@),
                held == total_digits(self@.fields.take(k as int)),
                held <= k * MAX_DIGITS,
            decreases self@.fields.len() - k,
        {
            assert(self@.fields.take(k + 1).drop_last() =~= self@.fields.take(k as int));
            assert(field_wf(self@.fields[k as int]));
            held = held + self.fields[k].digits;
            k = k + 1;
        }
        assert(self@.fields.take(self@.fields.len() as int) =~= self@.fields);
        held
    }
}

/// A finished control sequence: its private marker, parameters, intermediates and final byte.
#[derive(Debug)]
pub struct Csi {
    pub marker: Option<u8>,
    pub params: Params,
    pub intermediates: Vec<u8>,
    pub final_byte: u8,
}

/// A finished control sequence, abstractly.
pub struct CsiView {
    pub marker: Option<u8>,
    pub params: ParamsView,
    pub intermediates: Seq<u8>,
    pub final_byte: u8,
}

impl View for Csi {
    type V = CsiView;

    open spec fn view(&self) -> CsiView {
        CsiView {
            marker: self.marker,
            params: self.params@,
            intermediates: self.intermediates@,
            final_byte: self.final_byte,
        }
    }
}

pub open spec fn csi_param(c: CsiView, index: int) -> Option<u16> {
    params_value(c.params, index)
}

impl Csi {
    pub fn param(&self, index: usize) -> (value: Option<u16>)
        ensures
            value == csi_param(self@, index as int),
    {
        self.params.value(index)
    }

    pub fn param_count(&self) -> (count: usize)
        ensures
            count == self@.params.fields.len(),
    {
        self.params.count()
    }

    pub fn sub_parameters(&self) -> (sub: bool)
        ensures
            sub == self@.params.sub,
    {
        self.params.sub_parameters()
    }

    /// Whether the sequence carries exactly these intermediates.
    pub fn has_intermediates(&self, expected: &[u8]) -> (same: bool)
        ensures
            same == (self@.intermediates == expected@),
    {
        bytes_equal(self.intermediates.as_slice(), expected)
    }
}

/// Where the framer stands between bytes.
#[derive(Clone, Copy, PartialEq, Eq, Debug)]
pub enum CsiScan {
    /// Ordinary output; waiting for an ESC.
    Ground,
    /// Saw ESC; a CSI starts if the next byte is `[`.
    Escape,
    /// Inside `ESC [ …`, collecting the sequence until its final byte.
    Sequence,
    /// Inside a sequence the engine ignores, waiting for its final byte.
    Ignore,
}

/// The framer's whole state, abstractly.
pub struct FramerView {
    pub scan: CsiScan,
    pub marker: Option<u8>,
    pub params: ParamsView,
    pub intermediates: Seq<u8>,
}

pub open spec fn framer_wf(f: FramerView) -> bool {
    params_wf(f.params) && f.intermediates.len() <= MAX_INTERMEDIATES
}

pub open spec fn fresh_sequence(scan: CsiScan) -> FramerView {
    FramerView { scan, marker: None, params: empty_params(), intermediates: Seq::empty() }
}

pub open spec fn with_scan(f: FramerView, scan: CsiScan) -> FramerView {
    FramerView { scan, ..f }
}

/// One byte through the framer: the state after it, and the sequence it finished, if any.
pub open spec fn csi_step(f: FramerView, byte: u8) -> (FramerView, Option<CsiView>) {
    match f.scan {
        CsiScan::Ground => {
            if byte == ESC {
                (with_scan(f, CsiScan::Escape), None)
            } else {
                (f, None)
            }
        },
        CsiScan::Escape => {
            if byte == 0x5b {
                (fresh_sequence(CsiScan::Sequence), None)
            } else if byte == ESC || spec_passes_through(byte) {
                (f, None)
            } else {
                (with_scan(f, CsiScan::Ground), None)
            }
        },
        CsiScan::Sequence => {
            if is_parameter_byte(byte) {
                if f.marker is None && f.params.fields.len() == 0 && f.intermediates.len() == 0
                    && is_marker(byte) {
                    (FramerView { marker: Some(byte), ..f }, None)
                } else if f.intermediates.len() > 0 {
                    (with_scan(f, CsiScan::Ignore), None)
                } else {
                    match params_push(f.params, byte) {
                        Some(p) => (FramerView { params: p, ..f }, None),
                        None => (with_scan(f, CsiScan::Ignore), None),
                    }
                }
            } else if is_intermediate(byte) {
                if f.intermediates.len() >= MAX_INTERMEDIATES {
                    (with_scan(f, CsiScan::Ignore), None)
                } else {
                    (FramerView { intermediates: f.intermediates.push(byte), ..f }, None)
                }
            } else if is_final(byte) {
                (
                    fresh_sequence(CsiScan::Ground),
                    Some(
                        CsiView {
                            marker: f.marker,
                            params: f.params,
                            intermediates: f.intermediates,
                            final_byte: byte,
                        },
                    ),
                )
            } else if is_cancel(byte) {
                (with_scan(f, CsiScan::Ground), None)
            } else if byte == ESC {
                (with_scan(f, CsiScan::Escape), None)
            } else {
                (f, None)
            }
        },
        CsiScan::Ignore => {
            if is_final(byte) || is_cancel(byte) {
                (with_scan(f, CsiScan::Ground), None)
            } else if byte == ESC {
                (with_scan(f, CsiScan::Escape), None)
            } else {
                (f, None)
            }
        },
    }
}

/// A chunk through the framer: the state after it, and every sequence it finished, each with the
/// offset just past its final byte.
pub open spec fn csi_run(f: FramerView, bytes: Seq<u8>) -> (FramerView, Seq<(int, CsiView)>)
    decreases bytes.len(),
{
    if bytes.len() == 0 {
        (f, Seq::empty())
    } else {
        let (before, found) = csi_run(f, bytes.drop_last());
        let (after, finished) = csi_step(before, bytes.last());
        match finished {
            Some(c) => (after, found.push((bytes.len() as int, c))),
            None => (after, found),
        }
    }
}

/// The events of a run, each moved `by` bytes later.
pub open spec fn shift_csi(events: Seq<(int, CsiView)>, by: int) -> Seq<(int, CsiView)> {
    events.map_values(|e: (int, CsiView)| (e.0 + by, e.1))
}

pub proof fn lemma_csi_step_wf(f: FramerView, byte: u8)
    requires
        framer_wf(f),
    ensures
        framer_wf(csi_step(f, byte).0),
        csi_step(f, byte).1 matches Some(c) ==> params_wf(c.params) && c.intermediates.len()
            <= MAX_INTERMEDIATES,
{
    if f.scan == CsiScan::Sequence && is_parameter_byte(byte) {
        lemma_params_push_wf(f.params, byte);
    }
}

pub proof fn lemma_params_push_wf(p: ParamsView, byte: u8)
    requires
        params_wf(p),
    ensures
        params_push(p, byte) matches Some(q) ==> params_wf(q),
{
    if let Some(q) = params_push(p, byte) {
        let started = if p.fields.len() == 0 {
            ParamsView { fields: seq![blank_field()], sub: p.sub, first_sub: p.first_sub }
        } else {
            p
        };
        assert(params_wf(started));
        let last = started.fields.last();
        assert(field_wf(last));
        assert forall|i: int| 0 <= i < q.fields.len() implies field_wf(#[trigger] q.fields[i]) by {
            if i < started.fields.len() - 1 {
                assert(q.fields[i] == started.fields[i]);
            }
        }
    }
}

/// Feeding a chunk in two pieces is feeding it whole: the state carries across the cut, and the
/// sequences the second piece finishes are reported at their places in the whole chunk.
pub proof fn law_csi_chunks(f: FramerView, a: Seq<u8>, b: Seq<u8>)
    ensures
        ({
            let (mid, first) = csi_run(f, a);
            let (end, second) = csi_run(mid, b);
            csi_run(f, a + b) == (end, first + shift_csi(second, a.len() as int))
        }),
    decreases b.len(),
{
    let (mid, first) = csi_run(f, a);
    if b.len() == 0 {
        assert(a + b =~= a);
        assert(shift_csi(Seq::<(int, CsiView)>::empty(), a.len() as int) =~= Seq::<(int, CsiView)>::empty());
        assert(first + Seq::<(int, CsiView)>::empty() =~= first);
    } else {
        law_csi_chunks(f, a, b.drop_last());
        assert((a + b).drop_last() =~= a + b.drop_last());
        assert((a + b).last() == b.last());
        let (end0, second0) = csi_run(mid, b.drop_last());
        let (end, finished) = csi_step(end0, b.last());
        match finished {
            Some(c) => {
                assert(shift_csi(second0.push((b.len() as int, c)), a.len() as int) =~= shift_csi(
                    second0,
                    a.len() as int,
                ).push(((b.len() + a.len()) as int, c)));
                assert(first + shift_csi(second0, a.len() as int).push(((b.len() + a.len()) as int, c))
                    =~= (first + shift_csi(second0, a.len() as int)).push(
                    ((b.len() + a.len()) as int, c),
                ));
            },
            None => {},
        }
    }
}

/// Every sequence a chunk finishes is reported at an offset inside the chunk, just past a byte of
/// it.
pub proof fn lemma_csi_offsets(f: FramerView, bytes: Seq<u8>)
    ensures
        forall|i: int|
            0 <= i < csi_run(f, bytes).1.len() ==> 1 <= (#[trigger] csi_run(f, bytes).1[i]).0
                <= bytes.len(),
    decreases bytes.len(),
{
    if bytes.len() > 0 {
        lemma_csi_offsets(f, bytes.drop_last());
        let found = csi_run(f, bytes.drop_last()).1;
        let all = csi_run(f, bytes).1;
        assert forall|i: int| 0 <= i < all.len() implies 1 <= (#[trigger] all[i]).0 <= bytes.len() by {
            if i < found.len() {
                assert(all[i] == found[i]);
            }
        }
    }
}

/// A run of digits no longer than a field keeps spells a number under the field's bound.
pub proof fn lemma_decimal_value_bound(s: Seq<u8>)
    requires
        all_decimal(s),
        s.len() <= MAX_DIGITS,
    ensures
        decimal_value(s) < digit_limit(s.len() as int),
    decreases s.len(),
{
    if s.len() > 0 {
        assert forall|i: int| 0 <= i < s.drop_last().len() implies is_decimal(
            #[trigger] s.drop_last()[i],
        ) by {
            assert(s.drop_last()[i] == s[i]);
        }
        lemma_decimal_value_bound(s.drop_last());
        assert(is_decimal(s[s.len() - 1]));
    }
}

/// Digits read into the last field of a sequence in flight, whose digits so far are `pre`: the
/// field ends holding the number `pre` and the new digits spell together, everything else stays,
/// and nothing finishes.
pub proof fn lemma_csi_digits(f: FramerView, pre: Seq<u8>, ds: Seq<u8>)
    requires
        f.scan == CsiScan::Sequence,
        f.intermediates.len() == 0,
        f.params.fields.len() >= 1,
        f.params.fields.last() == (Field {
            value: decimal_value(pre) as u32,
            digits: pre.len() as usize,
        }),
        all_decimal(pre),
        all_decimal(ds),
        pre.len() + ds.len() <= MAX_DIGITS,
    ensures
        csi_run(f, ds).1.len() == 0,
        csi_run(f, ds).0.scan == f.scan,
        csi_run(f, ds).0.marker == f.marker,
        csi_run(f, ds).0.intermediates == f.intermediates,
        csi_run(f, ds).0.params.sub == f.params.sub,
        csi_run(f, ds).0.params.first_sub == f.params.first_sub,
        csi_run(f, ds).0.params.fields == f.params.fields.update(
            f.params.fields.len() - 1,
            Field { value: decimal_value(pre + ds) as u32, digits: (pre.len() + ds.len()) as usize },
        ),
    decreases ds.len(),
{
    let n = f.params.fields.len() - 1;
    if ds.len() == 0 {
        assert(pre + ds =~= pre);
        assert(f.params.fields.update(n, f.params.fields.last()) =~= f.params.fields);
    } else {
        let front = ds.drop_last();
        assert forall|i: int| 0 <= i < front.len() implies is_decimal(#[trigger] front[i]) by {
            assert(front[i] == ds[i]);
        }
        lemma_csi_digits(f, pre, front);
        let g = csi_run(f, front).0;
        let so_far = pre + front;
        assert forall|i: int| 0 <= i < so_far.len() implies is_decimal(#[trigger] so_far[i]) by {
            if i < pre.len() {
                assert(so_far[i] == pre[i]);
            } else {
                assert(so_far[i] == front[i - pre.len()]);
            }
        }
        lemma_decimal_value_bound(so_far);
        assert((pre + ds).drop_last() =~= so_far);
        assert((pre + ds).last() == ds.last());
        assert(is_decimal(ds[ds.len() - 1]));
        let d = ds.last();
        assert(g.params.fields.last() == (Field {
            value: decimal_value(so_far) as u32,
            digits: (pre.len() + front.len()) as usize,
        }));
        assert(!is_marker(d));
        assert(params_push(g.params, d) == Some(
            ParamsView {
                fields: g.params.fields.update(
                    n,
                    Field {
                        value: decimal_value(pre + ds) as u32,
                        digits: (pre.len() + ds.len()) as usize,
                    },
                ),
                sub: g.params.sub,
                first_sub: g.params.first_sub,
            },
        ));
        assert(g.params.fields.update(
            n,
            Field { value: decimal_value(pre + ds) as u32, digits: (pre.len() + ds.len()) as usize },
        ) =~= f.params.fields.update(
            n,
            Field { value: decimal_value(pre + ds) as u32, digits: (pre.len() + ds.len()) as usize },
        ));
    }
}

/// A sequence found in a chunk, with the offset just past its final byte.
#[derive(Debug)]
pub struct Framed {
    pub past: usize,
    pub csi: Csi,
}

pub open spec fn framed_view(f: Framed) -> (int, CsiView) {
    (f.past as int, f.csi@)
}

pub open spec fn framed_views(found: Seq<Framed>) -> Seq<(int, CsiView)> {
    found.map_values(|f: Framed| framed_view(f))
}

/// The CSI framer. Feed it every byte of a stream; it returns each sequence that finished.
#[derive(Debug)]
pub struct Framer {
    scan: CsiScan,
    marker: Option<u8>,
    params: Params,
    intermediates: Vec<u8>,
}

impl View for Framer {
    type V = FramerView;

    closed spec fn view(&self) -> FramerView {
        FramerView {
            scan: self.scan,
            marker: self.marker,
            params: self.params@,
            intermediates: self.intermediates@,
        }
    }
}

impl Framer {
    pub open spec fn wf(&self) -> bool {
        framer_wf(self@)
    }

    pub fn new() -> (framer: Framer)
        ensures
            framer@ == fresh_sequence(CsiScan::Ground),
            framer.wf(),
    {
        Framer { scan: CsiScan::Ground, marker: None, params: Params::new(), intermediates: Vec::new() }
    }

    fn begin(&mut self, scan: CsiScan)
        ensures
            final(self)@ == fresh_sequence(scan),
    {
        self.scan = scan;
        self.marker = None;
        self.params.clear();
        self.intermediates.clear();
    }

    /// One byte through the framer.
    pub fn step(&mut self, byte: u8) -> (finished: Option<Csi>)
        requires
            old(self).wf(),
        ensures
            final(self).wf(),
            final(self)@ == csi_step(old(self)@, byte).0,
            match finished {
                Some(c) => csi_step(old(self)@, byte).1 == Some(c@),
                None => csi_step(old(self)@, byte).1 is None,
            },
    {
        proof {
            lemma_csi_step_wf(self@, byte);
        }
        match self.scan {
            CsiScan::Ground => {
                if byte == ESC {
                    self.scan = CsiScan::Escape;
                }
                None
            },
            CsiScan::Escape => {
                if byte == 0x5b {
                    self.begin(CsiScan::Sequence);
                } else if byte == ESC || passes_through(byte) {
                } else {
                    self.scan = CsiScan::Ground;
                }
                None
            },
            CsiScan::Sequence => {
                if 0x30 <= byte && byte <= 0x3f {
                    if self.marker.is_none() && !self.params.started()
                        && self.intermediates.len() == 0 && byte >= 0x3c {
                        self.marker = Some(byte);
                    } else if self.intermediates.len() > 0 {
                        self.scan = CsiScan::Ignore;
                    } else if !self.params.push(byte) {
                        self.scan = CsiScan::Ignore;
                    }
                    None
                } else if 0x20 <= byte && byte <= 0x2f {
                    if self.intermediates.len() >= MAX_INTERMEDIATES {
                        self.scan = CsiScan::Ignore;
                    } else {
                        self.intermediates.push(byte);
                    }
                    None
                } else if 0x40 <= byte && byte <= 0x7e {
                    let mut params = Params::new();
                    let mut intermediates: Vec<u8> = Vec::new();
                    std::mem::swap(&mut params, &mut self.params);
                    std::mem::swap(&mut intermediates, &mut self.intermediates);
                    let marker = self.marker;
                    self.begin(CsiScan::Ground);
                    Some(Csi { marker, params, intermediates, final_byte: byte })
                } else if byte == 0x18 || byte == 0x1a {
                    self.scan = CsiScan::Ground;
                    None
                } else if byte == ESC {
                    self.scan = CsiScan::Escape;
                    None
                } else {
                    None
                }
            },
            CsiScan::Ignore => {
                if (0x40 <= byte && byte <= 0x7e) || byte == 0x18 || byte == 0x1a {
                    self.scan = CsiScan::Ground;
                } else if byte == ESC {
                    self.scan = CsiScan::Escape;
                }
                None
            },
        }
    }

    /// Feed a chunk of a stream, returning each sequence that finished in it with the offset just
    /// past its final byte. Safe at any chunk boundary: the state carries over between calls.
    pub fn feed(&mut self, bytes: &[u8]) -> (found: Vec<Framed>)
        requires
            old(self).wf(),
        ensures
            final(self).wf(),
            (final(self)@, framed_views(found@)) == csi_run(old(self)@, bytes@),
    {
        let mut found: Vec<Framed> = Vec::new();
        let mut i: usize = 0;
        while i < bytes.len()
            invariant
                i <= bytes@.len(),
                self.wf(),
                (self@, framed_views(found@)) == csi_run(old(self)@, bytes@.take(i as int)),
            decreases bytes@.len() - i,
        {
            let ghost before = found@;
            assert(bytes@.take(i + 1).drop_last() =~= bytes@.take(i as int));
            assert(bytes@.take(i + 1).last() == bytes@[i as int]);
            let finished = self.step(bytes[i]);
            match finished {
                Some(csi) => {
                    found.push(Framed { past: i + 1, csi });
                    assert(framed_views(found@) =~= framed_views(before).push(
                        framed_view(found@.last()),
                    ));
                },
                None => {},
            }
            i = i + 1;
        }
        assert(bytes@.take(bytes@.len() as int) =~= bytes@);
        found
    }
}

impl Default for Framer {
    fn default() -> (framer: Self)
        ensures
            framer@ == fresh_sequence(CsiScan::Ground),
            framer.wf(),
    {
        Self::new()
    }
}

impl Default for Params {
    fn default() -> (params: Self)
        ensures
            params@ == empty_params(),
    {
        Self::new()
    }
}

} // verus!
