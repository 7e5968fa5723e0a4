//! The remote's xterm `modifyOtherKeys` mode — resource 4 of XTMODKEYS — tracked for the key
//! encoder, and answered when a program asks what it is. Only resource 4 is held, so only resource 4
//! is answered; the other six are refused rather than invented.
use vstd::prelude::*;
use crate::bytes::{all_decimal, append, decimal_value};
use crate::csi::{
    csi_param, csi_run, csi_step, fresh_sequence, framed_views, law_csi_chunks,
    lemma_csi_digits, shift_csi, CsiScan, CsiView, Csi, Field, Framer, FramerView, ESC, MAX_DIGITS,
};

verus! {

/// The XTMODKEYS resource number for `modifyOtherKeys`.
pub const MODIFY_OTHER_KEYS: u16 = 4;

/// How aggressively the remote asked for modified "other" keys to be reported.
#[derive(Debug, Clone, Copy, PartialEq, Eq)]
pub enum ModifyOtherKeys {
    Off,
    Level1,
    Level2,
}

/// The level a `CSI > Pp ; Pv m` leaves in force: resource 4 only; 1 and 2 select the levels, a
/// larger value is clamped to level 2, and 0 or an omitted value turns the mode off.
pub open spec fn applied_level(c: CsiView, level: ModifyOtherKeys) -> ModifyOtherKeys {
    if csi_param(c, 0) != Some(MODIFY_OTHER_KEYS) {
        level
    } else {
        match csi_param(c, 1) {
            Some(v) => if v == 1 {
                ModifyOtherKeys::Level1
            } else if v >= 2 {
                ModifyOtherKeys::Level2
            } else {
                ModifyOtherKeys::Off
            },
            None => ModifyOtherKeys::Off,
        }
    }
}

pub open spec fn level_number(level: ModifyOtherKeys) -> u8 {
    match level {
        ModifyOtherKeys::Off => 0,
        ModifyOtherKeys::Level1 => 1,
        ModifyOtherKeys::Level2 => 2,
    }
}

/// The answer to a `CSI ? Pp m`: the set form `CSI > 4 ; Pv m` when the question names resource 4
/// and nothing else, and nothing otherwise.
pub open spec fn level_reply(c: CsiView, level: ModifyOtherKeys) -> Seq<u8> {
    if csi_param(c, 0) != Some(MODIFY_OTHER_KEYS) || c.params.fields.len() != 1 {
        Seq::empty()
    } else {
        seq![0x1bu8, 0x5b, 0x3e, 0x34, 0x3b, (0x30 + level_number(level)) as u8, 0x6d]
    }
}

/// What one finished sequence does: an XTMODKEYS sets the level, an XTQMODKEYS is answered from
/// the level in force where it sat, and anything else — another final byte, an intermediate, a
/// sub-parameter, another marker — is not this module's.
pub open spec fn modkeys_event(state: (ModifyOtherKeys, Seq<u8>), c: CsiView) -> (ModifyOtherKeys, Seq<u8>) {
    if c.final_byte != 0x6d || c.intermediates.len() != 0 || c.params.sub {
        state
    } else if c.marker == Some(0x3eu8) {
        (applied_level(c, state.0), state.1)
    } else if c.marker == Some(0x3fu8) {
        (state.0, state.1 + level_reply(c, state.0))
    } else {
        state
    }
}

/// The level and replies after a run of finished sequences, in stream order.
pub open spec fn modkeys_run(state: (ModifyOtherKeys, Seq<u8>), found: Seq<(int, CsiView)>) -> (ModifyOtherKeys, Seq<u8>)
    decreases found.len(),
{
    if found.len() == 0 {
        state
    } else {
        modkeys_event(modkeys_run(state, found.drop_last()), found.last().1)
    }
}

fn apply(csi: &Csi, level: ModifyOtherKeys) -> (next: ModifyOtherKeys)
    ensures
        next == applied_level(csi@, level),
{
    if csi.param(0) != Some(MODIFY_OTHER_KEYS) {
        return level;
    }
    match csi.param(1) {
        Some(1) => ModifyOtherKeys::Level1,
        Some(value) => if value >= 2 {
            ModifyOtherKeys::Level2
        } else {
            ModifyOtherKeys::Off
        },
        None => ModifyOtherKeys::Off,
    }
}

fn report(csi: &Csi, level: ModifyOtherKeys) -> (reply: Vec<u8>)
    ensures
        reply@ == level_reply(csi@, level),
{
    if csi.param(0) != Some(MODIFY_OTHER_KEYS) || csi.param_count() != 1 {
        return Vec::new();
    }
    let value: u8 = match level {
        ModifyOtherKeys::Off => 0,
        ModifyOtherKeys::Level1 => 1,
        ModifyOtherKeys::Level2 => 2,
    };
    let reply = vec![0x1b, 0x5b, 0x3e, 0x34, 0x3b, 0x30 + value, 0x6d];
    assert(reply@ =~= level_reply(csi@, level));
    reply
}

/// The tracker, abstractly.
pub struct ModKeysView {
    pub framer: FramerView,
    pub level: ModifyOtherKeys,
}

/// The tracker after a chunk, and the replies it owes for it.
pub open spec fn modkeys_chunk(m: ModKeysView, bytes: Seq<u8>) -> (ModKeysView, Seq<u8>) {
    let (framer, found) = csi_run(m.framer, bytes);
    let (level, replies) = modkeys_run((m.level, Seq::empty()), found);
    (ModKeysView { framer, level }, replies)
}

proof fn lemma_modkeys_accumulates(level: ModifyOtherKeys, acc: Seq<u8>, found: Seq<(int, CsiView)>)
    ensures
        modkeys_run((level, acc), found) == (modkeys_run((level, Seq::empty()), found).0, acc
            + modkeys_run((level, Seq::empty()), found).1),
    decreases found.len(),
{
    if found.len() == 0 {
        assert(acc + Seq::<u8>::empty() =~= acc);
    } else {
        lemma_modkeys_accumulates(level, acc, found.drop_last());
        let (l0, r0) = modkeys_run((level, Seq::empty()), found.drop_last());
        let c = found.last().1;
        if !(c.final_byte != 0x6d || c.intermediates.len() != 0 || c.params.sub) && c.marker
            != Some(0x3eu8) && c.marker == Some(0x3fu8) {
            assert(acc + r0 + level_reply(c, l0) =~= acc + (r0 + level_reply(c, l0)));
        }
    }
}

proof fn lemma_modkeys_concat(state: (ModifyOtherKeys, Seq<u8>), x: Seq<(int, CsiView)>, y: Seq<(int, CsiView)>, by: int)
    ensures
        modkeys_run(state, x + shift_csi(y, by)) == modkeys_run(modkeys_run(state, x), y),
    decreases y.len(),
{
    if y.len() == 0 {
        assert(x + shift_csi(y, by) =~= x);
    } else {
        lemma_modkeys_concat(state, x, y.drop_last(), by);
        assert((x + shift_csi(y, by)).drop_last() =~= x + shift_csi(y.drop_last(), by));
    }
}

/// Output fed in two chunks leaves the level where the same output fed whole would, and owes the
/// same replies in the same order: a question split anywhere is still answered, once.
pub proof fn law_modkeys_chunks(m: ModKeysView, a: Seq<u8>, b: Seq<u8>)
    ensures
        ({
            let (mid, first) = modkeys_chunk(m, a);
            let (end, second) = modkeys_chunk(mid, b);
            modkeys_chunk(m, a + b) == (end, first + second)
        }),
{
    law_csi_chunks(m.framer, a, b);
    let (f1, ev_a) = csi_run(m.framer, a);
    let ev_b = csi_run(f1, b).1;
    lemma_modkeys_concat((m.level, Seq::empty()), ev_a, ev_b, a.len() as int);
    let (l1, r1) = modkeys_run((m.level, Seq::empty()), ev_a);
    lemma_modkeys_accumulates(l1, r1, ev_b);
}

/// The bytes of `CSI > resource ; value m`, written in decimal digits; with no value, the `;` is
/// left out too.
pub open spec fn set_sequence(resource: Seq<u8>, value: Option<Seq<u8>>) -> Seq<u8> {
    seq![ESC, 0x5bu8, 0x3eu8] + resource + match value {
        Some(v) => seq![0x3bu8] + v,
        None => Seq::empty(),
    } + seq![0x6du8]
}

/// The level such a sequence leaves in force over `level`: a resource other than 4 leaves it;
/// for resource 4 a value of 1 selects level 1, 2 or more level 2, and 0, an empty value or
/// none at all turns the mode off.
pub open spec fn selected_level(resource: Seq<u8>, value: Option<Seq<u8>>, level: ModifyOtherKeys) -> ModifyOtherKeys {
    if decimal_value(resource) != 4 {
        level
    } else {
        match value {
            Some(v) => if v.len() > 0 && decimal_value(v) == 1 {
                ModifyOtherKeys::Level1
            } else if v.len() > 0 && decimal_value(v) >= 2 {
                ModifyOtherKeys::Level2
            } else {
                ModifyOtherKeys::Off
            },
            None => ModifyOtherKeys::Off,
        }
    }
}

/// A run that finishes nothing carries its state into what follows it.
proof fn lemma_quiet_prefix(f: FramerView, a: Seq<u8>, b: Seq<u8>)
    requires
        csi_run(f, a).1.len() == 0,
    ensures
        csi_run(f, a + b) == (
            csi_run(csi_run(f, a).0, b).0,
            shift_csi(csi_run(csi_run(f, a).0, b).1, a.len() as int),
        ),
{
    law_csi_chunks(f, a, b);
    let shifted = shift_csi(csi_run(csi_run(f, a).0, b).1, a.len() as int);
    assert(csi_run(f, a).1 + shifted =~= shifted);
}

/// One byte through the framer, as a run.
proof fn lemma_one_byte(f: FramerView, byte: u8)
    ensures
        csi_run(f, seq![byte]).0 == csi_step(f, byte).0,
        csi_step(f, byte).1 matches Some(c) ==> csi_run(f, seq![byte]).1 =~= seq![(1int, c)],
        csi_step(f, byte).1 is None ==> csi_run(f, seq![byte]).1.len() == 0,
{
    let one = seq![byte];
    assert(one.drop_last() =~= Seq::<u8>::empty());
    assert(one.last() == byte);
    assert(one.len() == 1);
    assert(csi_run(f, Seq::<u8>::empty()) == (f, Seq::<(int, CsiView)>::empty()));
    if let Some(c) = csi_step(f, byte).1 {
        assert(csi_run(f, one).1 == Seq::<(int, CsiView)>::empty().push((1int, c)));
        assert(Seq::<(int, CsiView)>::empty().push((1int, c)) =~= seq![(1int, c)]);
    }
}

/// A `CSI > resource ; value m` fed to the tracker in any state answers nothing, leaves the framer
/// back on ordinary output, and sets the level as `selected_level` says — resource 4 alone
/// moves it. Both numbers are written in at most five digits, leading zeros allowed, which covers
/// every value a parameter holds.
pub proof fn law_set_sequence_selects_level(m: ModKeysView, resource: Seq<u8>, value: Option<Seq<u8>>)
    requires
        1 <= resource.len() <= MAX_DIGITS,
        all_decimal(resource),
        value matches Some(v) ==> v.len() <= MAX_DIGITS && all_decimal(v),
    ensures
        modkeys_chunk(m, set_sequence(resource, value)) == (
            ModKeysView {
                framer: fresh_sequence(CsiScan::Ground),
                level: selected_level(resource, value, m.level),
            },
            Seq::<u8>::empty(),
        ),
{
    let head = seq![ESC, 0x5bu8, 0x3eu8];
    let mid = match value {
        Some(v) => seq![0x3bu8] + v,
        None => Seq::<u8>::empty(),
    };
    let tail = seq![0x6du8];
    // ESC from any state, then `[`, then the marker.
    lemma_one_byte(m.framer, ESC);
    let f1 = csi_step(m.framer, ESC).0;
    assert(f1.scan == CsiScan::Escape);
    lemma_one_byte(f1, 0x5bu8);
    let f2 = csi_step(f1, 0x5bu8).0;
    assert(f2 == fresh_sequence(CsiScan::Sequence));
    lemma_one_byte(f2, 0x3eu8);
    let f3 = csi_step(f2, 0x3eu8).0;
    assert(f3 == (FramerView { marker: Some(0x3eu8), ..fresh_sequence(CsiScan::Sequence) }));
    lemma_quiet_prefix(m.framer, seq![ESC], seq![0x5bu8]);
    assert(seq![ESC] + seq![0x5bu8] =~= seq![ESC, 0x5bu8]);
    lemma_quiet_prefix(m.framer, seq![ESC, 0x5bu8], seq![0x3eu8]);
    assert(seq![ESC, 0x5bu8] + seq![0x3eu8] =~= head);
    assert(csi_run(m.framer, head).0 == f3);
    assert(csi_run(m.framer, head).1.len() == 0);
    // The resource: its first digit opens the first field, the rest extend it.
    let d0 = resource[0];
    assert(crate::bytes::is_decimal(d0));
    lemma_one_byte(f3, d0);
    let f4 = csi_step(f3, d0).0;
    let first = resource.take(1);
    assert(first =~= seq![d0]);
    assert(first.drop_last() =~= Seq::<u8>::empty());
    assert(decimal_value(first) == (d0 - 0x30) as nat);
    assert(f4.params.fields =~= seq![Field { value: decimal_value(first) as u32, digits: 1 }]);
    let rest = resource.skip(1);
    assert forall|i: int| 0 <= i < first.len() implies crate::bytes::is_decimal(#[trigger] first[i]) by {
        assert(first[i] == resource[i]);
    }
    assert forall|i: int| 0 <= i < rest.len() implies crate::bytes::is_decimal(#[trigger] rest[i]) by {
        assert(rest[i] == resource[i + 1]);
    }
    lemma_csi_digits(f4, first, rest);
    assert(first + rest =~= resource);
    lemma_quiet_prefix(f3, seq![d0], rest);
    assert(seq![d0] + rest =~= resource);
    let f5 = csi_run(f3, resource).0;
    assert(csi_run(f3, resource).1.len() == 0);
    assert(f5.params.fields =~= seq![
        Field { value: decimal_value(resource) as u32, digits: resource.len() as usize },
    ]);
    assert(f5.scan == CsiScan::Sequence && f5.marker == Some(0x3eu8) && f5.intermediates.len() == 0);
    assert(!f5.params.sub && !f5.params.first_sub);
    lemma_quiet_prefix(m.framer, head, resource);
    // The value, after its `;`.
    let f7 = csi_run(f5, mid).0;
    match value {
        Some(v) => {
            lemma_one_byte(f5, 0x3bu8);
            let f6 = csi_step(f5, 0x3bu8).0;
            assert(f6.params.fields =~= f5.params.fields.push(Field { value: 0, digits: 0 }));
            assert(f6.params.fields.last() == (Field {
                value: decimal_value(Seq::<u8>::empty()) as u32,
                digits: 0,
            }));
            lemma_csi_digits(f6, Seq::<u8>::empty(), v);
            assert(Seq::<u8>::empty() + v =~= v);
            lemma_quiet_prefix(f5, seq![0x3bu8], v);
            assert(csi_run(f5, mid).1.len() == 0);
            assert(f7.params.fields =~= seq![
                Field { value: decimal_value(resource) as u32, digits: resource.len() as usize },
                Field { value: decimal_value(v) as u32, digits: v.len() as usize },
            ]);
            assert(!f7.params.sub && !f7.params.first_sub);
        },
        None => {
            assert(f7 == f5);
        },
    }
    assert(f7.scan == CsiScan::Sequence && f7.marker == Some(0x3eu8) && f7.intermediates.len() == 0);
    lemma_quiet_prefix(m.framer, head + resource, mid);
    // The final byte finishes the sequence.
    lemma_one_byte(f7, 0x6du8);
    let c = CsiView { marker: Some(0x3eu8), params: f7.params, intermediates: f7.intermediates, final_byte: 0x6du8 };
    assert(csi_step(f7, 0x6du8) == (fresh_sequence(CsiScan::Ground), Some(c)));
    law_csi_chunks(m.framer, head + resource + mid, tail);
    let events = csi_run(m.framer, head + resource + mid + tail).1;
    assert(events.len() == 1);
    assert(events.last().1 == c);
    assert(events.drop_last() =~= Seq::<(int, CsiView)>::empty());
    crate::csi::lemma_decimal_value_bound(resource);
    assert(csi_param(c, 0) == Some(
        if decimal_value(resource) > 65535 {
            65535u16
        } else {
            decimal_value(resource) as u16
        },
    ));
    if let Some(v) = value {
        crate::csi::lemma_decimal_value_bound(v);
    }
    assert(applied_level(c, m.level) == selected_level(resource, value, m.level));
    let state = (m.level, Seq::<u8>::empty());
    assert(modkeys_run(state, events.drop_last()) == state);
    assert(modkeys_run(state, events) == modkeys_event(state, c));
    assert(modkeys_event(state, c) == (selected_level(resource, value, m.level), Seq::<u8>::empty()));
    assert(csi_run(m.framer, head + resource + mid + tail).0 == fresh_sequence(CsiScan::Ground));
    assert(set_sequence(resource, value) == head + resource + mid + tail);
}

/// The `modifyOtherKeys` tracker and answerer.
#[derive(Debug)]
pub struct ModKeys {
    framer: Framer,
    level: ModifyOtherKeys,
}

impl View for ModKeys {
    type V = ModKeysView;

    closed spec fn view(&self) -> ModKeysView {
        ModKeysView { framer: self.framer@, level: self.level }
    }
}

impl ModKeys {
    pub closed spec fn wf(&self) -> bool {
        self.framer.wf()
    }

    pub fn new() -> (modkeys: ModKeys)
        ensures
            modkeys.wf(),
            modkeys@.framer == crate::csi::fresh_sequence(crate::csi::CsiScan::Ground),
            modkeys@.level == ModifyOtherKeys::Off,
    {
        ModKeys { framer: Framer::new(), level: ModifyOtherKeys::Off }
    }

    /// Scan a chunk for a `modifyOtherKeys` change or a question about one, returning the reply
    /// bytes owed — each built from the level in force where its question sat.
    pub fn feed(&mut self, bytes: &[u8]) -> (replies: Vec<u8>)
        requires
            old(self).wf(),
        ensures
            final(self).wf(),
            (final(self)@, replies@) == modkeys_chunk(old(self)@, bytes@),
            final(self)@.framer == csi_run(old(self)@.framer, bytes@).0,
            (final(self)@.level, replies@) == modkeys_run(
                (old(self)@.level, Seq::empty()),
                csi_run(old(self)@.framer, bytes@).1,
            ),
    {
        let found = self.framer.feed(bytes);
        let ghost events = framed_views(found@);
        let mut replies: Vec<u8> = Vec::new();
        let mut k: usize = 0;
        while k < found.len()
            invariant
                k <= found@.len(),
                self.wf(),
                events == framed_views(found@),
                self@.framer == csi_run(old(self)@.framer, bytes@).0,
                events == csi_run(old(self)@.framer, bytes@).1,
                (self.level, replies@) == modkeys_run(
                    (old(self)@.level, Seq::empty()),
                    events.take(k as int),
                ),
            decreases found@.len() - k,
        {
            assert(events.take(k + 1).drop_last() =~= events.take(k as int));
            assert(events.take(k + 1).last() == events[k as int]);
            let csi = &found[k].csi;
            if csi.final_byte == 0x6d && csi.intermediates.len() == 0 && !csi.sub_parameters() {
                match csi.marker {
                    Some(0x3e) => {
                        self.level = apply(csi, self.level);
                    },
                    Some(0x3f) => {
                        let reply = report(csi, self.level);
                        append(&mut replies, reply.as_slice());
                    },
                    _ => {},
                }
            }
            k = k + 1;
        }
        assert(events.take(events.len() as int) =~= events);
        replies
    }

    /// The level the remote last selected, or `Off` if it never asked.
    pub fn level(&self) -> (level: ModifyOtherKeys)
        ensures
            level == self@.level,
    {
        self.level
    }
}

impl Default for ModKeys {
    fn default() -> (modkeys: Self)
        ensures
            modkeys.wf(),
            modkeys@.framer == crate::csi::fresh_sequence(crate::csi::CsiScan::Ground),
            modkeys@.level == ModifyOtherKeys::Off,
    {
        Self::new()
    }
}

} // verus!
