//! Answers the identity queries an engine drops — XTVERSION, DECRQSS, XTGETTCAP, DA3 and
//! XTSMGRAPHICS — and amends its DA1 answer to advertise sixel graphics. The framing is the CSI
//! and DCS framers'; what is here is which question a finished sequence asked, and the replies.
use vstd::prelude::*;
use crate::bytes::{append, has_prefix, is_decimal, lemma_split_nonempty, split, split_fields, push_decimal, decimal};
use crate::csi::{csi_param, csi_run, framed_views, lemma_csi_offsets, law_csi_chunks, shift_csi, CsiView, Csi, Framer, FramerView, ESC};
use vstd::string::StringSliceAdditionalSpecFns;
use crate::dcs::{dcs_run, framed_dcs_views, lemma_dcs_offsets, law_dcs_chunks, shift_dcs, Dcs, DcsFramer, DcsFramerView, DcsView};

verus! {

/// The longest data string buffered inside a control string; past it the string is abandoned.
pub const MAX_DATA: usize = 256;

/// A DECRQSS request, reduced to the settings that can be reported.
#[derive(Debug, Clone, Copy, PartialEq, Eq)]
pub enum Decrqss {
    /// `m` — SGR.
    Sgr,
    /// `SP q` — DECSCUSR, the cursor's shape.
    CursorStyle,
    /// `" q` — DECSCA, protection.
    Protection,
    /// `r` — DECSTBM, the scrolling region.
    ScrollRegion,
    /// `s` — DECSLRM, the margins.
    Margins,
    Unsupported,
}

/// An XTSMGRAPHICS request: the item asked about and the action wanted of it.
#[derive(Debug, Clone, Copy, PartialEq, Eq)]
pub struct Graphics {
    pub item: u16,
    pub action: u16,
}

/// A completed query found in the stream.
#[derive(Debug, PartialEq, Eq)]
pub enum Query {
    /// XTVERSION, `CSI > q`.
    Version,
    /// DECRQSS, `DCS $ q <sel> ST`.
    Decrqss(Decrqss),
    /// XTGETTCAP, `DCS + q <hex>[;<hex>…] ST`: the raw hex-encoded names.
    Capabilities(Vec<Vec<u8>>),
    /// DA3, `CSI = c`.
    UnitId,
    /// XTSMGRAPHICS, `CSI ? Pi ; Pa ; Pv S`.
    Graphics(Graphics),
}

/// A query, abstractly.
pub enum QueryView {
    Version,
    Decrqss(Decrqss),
    Capabilities(Seq<Seq<u8>>),
    UnitId,
    Graphics(Graphics),
}

impl View for Query {
    type V = QueryView;

    open spec fn view(&self) -> QueryView {
        match self {
            Query::Version => QueryView::Version,
            Query::Decrqss(d) => QueryView::Decrqss(*d),
            Query::Capabilities(names) => QueryView::Capabilities(
                names@.map_values(|n: Vec<u8>| n@),
            ),
            Query::UnitId => QueryView::UnitId,
            Query::Graphics(g) => QueryView::Graphics(*g),
        }
    }
}

pub open spec fn option_query_view(q: Option<Query>) -> Option<QueryView> {
    match q {
        Some(q) => Some(q@),
        None => None,
    }
}

/// The setting a DECRQSS selector names: the queried sequence's own intermediates and final byte.
pub open spec fn decrqss_of(selector: Seq<u8>) -> Decrqss {
    if selector == seq![0x6du8] {
        Decrqss::Sgr
    } else if selector == seq![0x20u8, 0x71u8] {
        Decrqss::CursorStyle
    } else if selector == seq![0x22u8, 0x71u8] {
        Decrqss::Protection
    } else if selector == seq![0x72u8] {
        Decrqss::ScrollRegion
    } else if selector == seq![0x73u8] {
        Decrqss::Margins
    } else {
        Decrqss::Unsupported
    }
}

/// Which query a finished control string is. Both forms end in `q` and carry no parameters and
/// no marker; the intermediate, `$` or `+`, tells them apart.
pub open spec fn asked_string(d: DcsView) -> Option<QueryView> {
    if d.final_byte != 0x71 || d.marker is Some || d.params.fields.len() != 0 {
        None
    } else if d.intermediates == seq![0x24u8] {
        Some(QueryView::Decrqss(decrqss_of(d.data)))
    } else if d.intermediates == seq![0x2bu8] {
        Some(QueryView::Capabilities(split_fields(d.data, 0x3b)))
    } else {
        None
    }
}

/// Whether a sequence's parameters are the default run: none, or one zero.
pub open spec fn default_params(c: CsiView) -> bool {
    c.params.fields.len() == 0 || (c.params.fields.len() == 1 && csi_param(c, 0) == Some(0u16))
}

/// Which query a finished CSI is: marker and final byte together, no intermediates and no
/// sub-parameters.
pub open spec fn asked(c: CsiView) -> Option<QueryView> {
    if c.intermediates.len() != 0 || c.params.sub {
        None
    } else if c.marker == Some(0x3eu8) && c.final_byte == 0x71 {
        if default_params(c) {
            Some(QueryView::Version)
        } else {
            None
        }
    } else if c.marker == Some(0x3du8) && c.final_byte == 0x63 {
        if default_params(c) {
            Some(QueryView::UnitId)
        } else {
            None
        }
    } else if c.marker == Some(0x3fu8) && c.final_byte == 0x53 {
        match (csi_param(c, 0), csi_param(c, 1)) {
            (Some(item), Some(action)) => Some(QueryView::Graphics(Graphics { item, action })),
            _ => None,
        }
    } else {
        None
    }
}

/// The queries among a run of control strings, each at its offset.
pub open spec fn asked_strings(events: Seq<(int, DcsView)>) -> Seq<(int, QueryView)>
    decreases events.len(),
{
    if events.len() == 0 {
        Seq::empty()
    } else {
        let before = asked_strings(events.drop_last());
        match asked_string(events.last().1) {
            Some(q) => before.push((events.last().0, q)),
            None => before,
        }
    }
}

/// The queries among a run of finished CSIs, each at its offset.
pub open spec fn asked_csis(events: Seq<(int, CsiView)>) -> Seq<(int, QueryView)>
    decreases events.len(),
{
    if events.len() == 0 {
        Seq::empty()
    } else {
        let before = asked_csis(events.drop_last());
        match asked(events.last().1) {
            Some(q) => before.push((events.last().0, q)),
            None => before,
        }
    }
}

/// Two runs merged on their offsets, the first run's entry first where two offsets tie.
pub open spec fn merge_by_offset(a: Seq<(int, QueryView)>, b: Seq<(int, QueryView)>) -> Seq<(int, QueryView)>
    decreases a.len() + b.len(),
{
    if a.len() == 0 {
        b
    } else if b.len() == 0 {
        a
    } else if a[0].0 <= b[0].0 {
        seq![a[0]] + merge_by_offset(a.drop_first(), b)
    } else {
        seq![b[0]] + merge_by_offset(a, b.drop_first())
    }
}

pub open spec fn without_offsets(events: Seq<(int, QueryView)>) -> Seq<QueryView> {
    events.map_values(|e: (int, QueryView)| e.1)
}

/// The sniffer's state, abstractly: the two framers'.
pub struct QueriesView {
    pub framer: FramerView,
    pub strings: DcsFramerView,
}

/// A chunk through the sniffer: the state after it, and the queries that completed in it, in the
/// order the stream asked them.
pub open spec fn queries_run(q: QueriesView, bytes: Seq<u8>) -> (QueriesView, Seq<QueryView>) {
    let (framer, csis) = csi_run(q.framer, bytes);
    let (strings, dcss) = dcs_run(q.strings, bytes, MAX_DATA as int);
    (
        QueriesView { framer, strings },
        without_offsets(merge_by_offset(asked_strings(dcss), asked_csis(csis))),
    )
}

/// Queries moved `by` bytes later.
pub open spec fn shift_queries(found: Seq<(int, QueryView)>, by: int) -> Seq<(int, QueryView)> {
    found.map_values(|e: (int, QueryView)| (e.0 + by, e.1))
}

pub open spec fn offsets_within(found: Seq<(int, QueryView)>, lo: int, hi: int) -> bool {
    forall|i: int| 0 <= i < found.len() ==> lo <= (#[trigger] found[i]).0 <= hi
}

proof fn lemma_asked_csis_concat(x: Seq<(int, CsiView)>, y: Seq<(int, CsiView)>, by: int)
    ensures
        asked_csis(x + shift_csi(y, by)) == asked_csis(x) + shift_queries(asked_csis(y), by),
    decreases y.len(),
{
    if y.len() == 0 {
        assert(x + shift_csi(y, by) =~= x);
        assert(asked_csis(x) + shift_queries(Seq::empty(), by) =~= asked_csis(x));
    } else {
        lemma_asked_csis_concat(x, y.drop_last(), by);
        assert((x + shift_csi(y, by)).drop_last() =~= x + shift_csi(y.drop_last(), by));
        let before = asked_csis(y.drop_last());
        match asked(y.last().1) {
            Some(q) => {
                assert(shift_queries(before.push((y.last().0, q)), by) =~= shift_queries(before, by).push(
                    (y.last().0 + by, q),
                ));
                assert(asked_csis(x) + shift_queries(before, by).push((y.last().0 + by, q)) =~= (
                asked_csis(x) + shift_queries(before, by)).push((y.last().0 + by, q)));
            },
            None => {},
        }
    }
}

proof fn lemma_asked_strings_concat(x: Seq<(int, DcsView)>, y: Seq<(int, DcsView)>, by: int)
    ensures
        asked_strings(x + shift_dcs(y, by)) == asked_strings(x) + shift_queries(asked_strings(y), by),
    decreases y.len(),
{
    if y.len() == 0 {
        assert(x + shift_dcs(y, by) =~= x);
        assert(asked_strings(x) + shift_queries(Seq::empty(), by) =~= asked_strings(x));
    } else {
        lemma_asked_strings_concat(x, y.drop_last(), by);
        assert((x + shift_dcs(y, by)).drop_last() =~= x + shift_dcs(y.drop_last(), by));
        let before = asked_strings(y.drop_last());
        match asked_string(y.last().1) {
            Some(q) => {
                assert(shift_queries(before.push((y.last().0, q)), by) =~= shift_queries(before, by).push(
                    (y.last().0 + by, q),
                ));
                assert(asked_strings(x) + shift_queries(before, by).push((y.last().0 + by, q)) =~= (
                asked_strings(x) + shift_queries(before, by)).push((y.last().0 + by, q)));
            },
            None => {},
        }
    }
}

proof fn lemma_asked_csis_within(events: Seq<(int, CsiView)>, lo: int, hi: int)
    requires
        forall|i: int| 0 <= i < events.len() ==> lo <= (#[trigger] events[i]).0 <= hi,
    ensures
        offsets_within(asked_csis(events), lo, hi),
    decreases events.len(),
{
    if events.len() > 0 {
        assert forall|i: int| 0 <= i < events.drop_last().len() implies lo <= (
        #[trigger] events.drop_last()[i]).0 <= hi by {
            assert(events.drop_last()[i] == events[i]);
        }
        lemma_asked_csis_within(events.drop_last(), lo, hi);
        assert(lo <= events[events.len() - 1].0 <= hi);
    }
}

proof fn lemma_asked_strings_within(events: Seq<(int, DcsView)>, lo: int, hi: int)
    requires
        forall|i: int| 0 <= i < events.len() ==> lo <= (#[trigger] events[i]).0 <= hi,
    ensures
        offsets_within(asked_strings(events), lo, hi),
    decreases events.len(),
{
    if events.len() > 0 {
        assert forall|i: int| 0 <= i < events.drop_last().len() implies lo <= (
        #[trigger] events.drop_last()[i]).0 <= hi by {
            assert(events.drop_last()[i] == events[i]);
        }
        lemma_asked_strings_within(events.drop_last(), lo, hi);
        assert(lo <= events[events.len() - 1].0 <= hi);
    }
}

/// Merging two runs cut at the same offset is merging each side of the cut.
proof fn lemma_merge_split(
    a1: Seq<(int, QueryView)>,
    a2: Seq<(int, QueryView)>,
    b1: Seq<(int, QueryView)>,
    b2: Seq<(int, QueryView)>,
    n: int,
)
    requires
        forall|i: int| 0 <= i < a2.len() ==> (#[trigger] a2[i]).0 > n,
        forall|i: int| 0 <= i < b2.len() ==> (#[trigger] b2[i]).0 > n,
        forall|i: int| 0 <= i < a1.len() ==> (#[trigger] a1[i]).0 <= n,
        forall|i: int| 0 <= i < b1.len() ==> (#[trigger] b1[i]).0 <= n,
    ensures
        merge_by_offset(a1 + a2, b1 + b2) == merge_by_offset(a1, b1) + merge_by_offset(a2, b2),
    decreases a1.len() + b1.len(),
{
    if a1.len() == 0 && b1.len() == 0 {
        assert(a1 + a2 =~= a2);
        assert(b1 + b2 =~= b2);
        assert(Seq::<(int, QueryView)>::empty() + merge_by_offset(a2, b2) =~= merge_by_offset(a2, b2));
    } else if a1.len() > 0 && (b1.len() == 0 || a1[0].0 <= b1[0].0) {
        assert((a1 + a2)[0] == a1[0]);
        assert((a1 + a2).drop_first() =~= a1.drop_first() + a2);
        if b1.len() == 0 && b2.len() > 0 {
            assert((b1 + b2)[0] == b2[0]);
        }
        if b1.len() > 0 {
            assert((b1 + b2)[0] == b1[0]);
        }
        lemma_merge_split(a1.drop_first(), a2, b1, b2, n);
        if b1.len() == 0 && b2.len() == 0 {
            assert(b1 + b2 =~= Seq::<(int, QueryView)>::empty());
            assert(a1 + a2 =~= merge_by_offset(a1, b1) + merge_by_offset(a2, b2));
        } else {
            assert(seq![a1[0]] + (merge_by_offset(a1.drop_first(), b1) + merge_by_offset(a2, b2))
                =~= merge_by_offset(a1, b1) + merge_by_offset(a2, b2)) by {
                if b1.len() == 0 {
                    assert(merge_by_offset(a1, b1) == a1);
                    assert(merge_by_offset(a1.drop_first(), b1) == a1.drop_first());
                    assert(seq![a1[0]] + a1.drop_first() =~= a1);
                }
            }
        }
    } else {
        assert((b1 + b2)[0] == b1[0]);
        assert((b1 + b2).drop_first() =~= b1.drop_first() + b2);
        if a1.len() == 0 && a2.len() > 0 {
            assert((a1 + a2)[0] == a2[0]);
        }
        if a1.len() > 0 {
            assert((a1 + a2)[0] == a1[0]);
        }
        lemma_merge_split(a1, a2, b1.drop_first(), b2, n);
        if a1.len() == 0 && a2.len() == 0 {
            assert(a1 + a2 =~= Seq::<(int, QueryView)>::empty());
            assert(b1 + b2 =~= merge_by_offset(a1, b1) + merge_by_offset(a2, b2));
        } else {
            assert(seq![b1[0]] + (merge_by_offset(a1, b1.drop_first()) + merge_by_offset(a2, b2))
                =~= merge_by_offset(a1, b1) + merge_by_offset(a2, b2)) by {
                if a1.len() == 0 {
                    assert(merge_by_offset(a1, b1) == b1);
                    assert(merge_by_offset(a1, b1.drop_first()) == b1.drop_first());
                    assert(seq![b1[0]] + b1.drop_first() =~= b1);
                }
            }
        }
    }
}

/// Moving both runs by the same distance moves their merge by it and changes nothing else.
proof fn lemma_merge_shift(a: Seq<(int, QueryView)>, b: Seq<(int, QueryView)>, by: int)
    ensures
        merge_by_offset(shift_queries(a, by), shift_queries(b, by)) == shift_queries(merge_by_offset(a, b), by),
    decreases a.len() + b.len(),
{
    if a.len() == 0 {
        assert(shift_queries(a, by) =~= Seq::<(int, QueryView)>::empty());
    } else if b.len() == 0 {
        assert(shift_queries(b, by) =~= Seq::<(int, QueryView)>::empty());
    } else if a[0].0 <= b[0].0 {
        assert(shift_queries(a, by).drop_first() =~= shift_queries(a.drop_first(), by));
        lemma_merge_shift(a.drop_first(), b, by);
        assert(shift_queries(seq![a[0]] + merge_by_offset(a.drop_first(), b), by) =~= seq![
            (a[0].0 + by, a[0].1),
        ] + shift_queries(merge_by_offset(a.drop_first(), b), by));
    } else {
        assert(shift_queries(b, by).drop_first() =~= shift_queries(b.drop_first(), by));
        lemma_merge_shift(a, b.drop_first(), by);
        assert(shift_queries(seq![b[0]] + merge_by_offset(a, b.drop_first()), by) =~= seq![
            (b[0].0 + by, b[0].1),
        ] + shift_queries(merge_by_offset(a, b.drop_first()), by));
    }
}

/// Output fed in two chunks asks the questions it asks fed whole, in the same order: a query split
/// anywhere is answered on the chunk that completes it, and no answer moves past another.
pub proof fn law_queries_chunks(q: QueriesView, a: Seq<u8>, b: Seq<u8>)
    ensures
        ({
            let (mid, first) = queries_run(q, a);
            let (end, second) = queries_run(mid, b);
            queries_run(q, a + b) == (end, first + second)
        }),
{
    let n = a.len() as int;
    let cap = MAX_DATA as int;
    law_csi_chunks(q.framer, a, b);
    law_dcs_chunks(q.strings, a, b, cap);
    let (f1, c1) = csi_run(q.framer, a);
    let (d1, s1) = dcs_run(q.strings, a, cap);
    let c2 = csi_run(f1, b).1;
    let s2 = dcs_run(d1, b, cap).1;
    lemma_asked_csis_concat(c1, c2, n);
    lemma_asked_strings_concat(s1, s2, n);
    lemma_csi_offsets(q.framer, a);
    lemma_dcs_offsets(q.strings, a, cap);
    lemma_csi_offsets(f1, b);
    lemma_dcs_offsets(d1, b, cap);
    lemma_asked_csis_within(c1, 1, n);
    lemma_asked_strings_within(s1, 1, n);
    lemma_asked_csis_within(c2, 1, b.len() as int);
    lemma_asked_strings_within(s2, 1, b.len() as int);
    let qa1 = asked_strings(s1);
    let qb1 = asked_csis(c1);
    let qa2 = shift_queries(asked_strings(s2), n);
    let qb2 = shift_queries(asked_csis(c2), n);
    assert forall|i: int| 0 <= i < qa2.len() implies (#[trigger] qa2[i]).0 > n by {
        assert(1 <= asked_strings(s2)[i].0);
    }
    assert forall|i: int| 0 <= i < qb2.len() implies (#[trigger] qb2[i]).0 > n by {
        assert(1 <= asked_csis(c2)[i].0);
    }
    assert forall|i: int| 0 <= i < qa1.len() implies (#[trigger] qa1[i]).0 <= n by {
        assert(qa1[i].0 <= n);
    }
    assert forall|i: int| 0 <= i < qb1.len() implies (#[trigger] qb1[i]).0 <= n by {
        assert(qb1[i].0 <= n);
    }
    lemma_merge_split(qa1, qa2, qb1, qb2, n);
    lemma_merge_shift(asked_strings(s2), asked_csis(c2), n);
    let m1 = merge_by_offset(qa1, qb1);
    let m2 = merge_by_offset(asked_strings(s2), asked_csis(c2));
    assert(without_offsets(m1 + shift_queries(m2, n)) =~= without_offsets(m1) + without_offsets(m2));
}

fn decrqss_selector(selector: &[u8]) -> (setting: Decrqss)
    ensures
        setting == decrqss_of(selector@),
{
    let n = selector.len();
    if n == 1 && selector[0] == 0x6d {
        assert(selector@ =~= seq![0x6du8]);
        Decrqss::Sgr
    } else if n == 2 && selector[0] == 0x20 && selector[1] == 0x71 {
        assert(selector@ =~= seq![0x20u8, 0x71u8]);
        Decrqss::CursorStyle
    } else if n == 2 && selector[0] == 0x22 && selector[1] == 0x71 {
        assert(selector@ =~= seq![0x22u8, 0x71u8]);
        Decrqss::Protection
    } else if n == 1 && selector[0] == 0x72 {
        assert(selector@ =~= seq![0x72u8]);
        Decrqss::ScrollRegion
    } else if n == 1 && selector[0] == 0x73 {
        assert(selector@ =~= seq![0x73u8]);
        Decrqss::Margins
    } else {
        Decrqss::Unsupported
    }
}

fn asked_string_of(dcs: &Dcs) -> (query: Option<Query>)
    ensures
        option_query_view(query) == asked_string(dcs@),
{
    if dcs.final_byte != 0x71 || dcs.marker.is_some() || dcs.param_count() != 0 {
        return None;
    }
    let one = dcs.intermediates.len() == 1;
    if one && dcs.intermediates[0] == 0x24 {
        assert(dcs@.intermediates =~= seq![0x24u8]);
        Some(Query::Decrqss(decrqss_selector(dcs.data.as_slice())))
    } else if one && dcs.intermediates[0] == 0x2b {
        assert(dcs@.intermediates =~= seq![0x2bu8]);
        let names = split(dcs.data.as_slice(), 0x3b);
        Some(Query::Capabilities(names))
    } else {
        assert(dcs@.intermediates != seq![0x24u8]);
        assert(dcs@.intermediates != seq![0x2bu8]);
        None
    }
}

fn is_default(csi: &Csi) -> (default: bool)
    ensures
        default == default_params(csi@),
{
    let count = csi.param_count();
    count == 0 || (count == 1 && csi.param(0) == Some(0u16))
}

fn asked_of(csi: &Csi) -> (query: Option<Query>)
    ensures
        option_query_view(query) == asked(csi@),
{
    if csi.intermediates.len() != 0 || csi.sub_parameters() {
        return None;
    }
    if csi.marker == Some(0x3e) && csi.final_byte == 0x71 {
        if is_default(csi) {
            Some(Query::Version)
        } else {
            None
        }
    } else if csi.marker == Some(0x3d) && csi.final_byte == 0x63 {
        if is_default(csi) {
            Some(Query::UnitId)
        } else {
            None
        }
    } else if csi.marker == Some(0x3f) && csi.final_byte == 0x53 {
        match (csi.param(0), csi.param(1)) {
            (Some(item), Some(action)) => Some(Query::Graphics(Graphics { item, action })),
            _ => None,
        }
    } else {
        None
    }
}

pub open spec fn found_view(found: Seq<(usize, Query)>) -> Seq<(int, QueryView)> {
    found.map_values(|e: (usize, Query)| (e.0 as int, e.1@))
}

/// The identity-query sniffer: the CSI framer for the three private CSI forms, the control-string
/// framer for the two DCS forms.
#[derive(Debug)]
pub struct Queries {
    framer: Framer,
    strings: DcsFramer<MAX_DATA>,
}

impl View for Queries {
    type V = QueriesView;

    closed spec fn view(&self) -> QueriesView {
        QueriesView { framer: self.framer@, strings: self.strings@ }
    }
}

impl Queries {
    pub closed spec fn wf(&self) -> bool {
        self.framer.wf() && self.strings.wf()
    }

    pub fn new() -> (queries: Queries)
        ensures
            queries.wf(),
            queries@ == (QueriesView {
                framer: crate::csi::fresh_sequence(crate::csi::CsiScan::Ground),
                strings: crate::dcs::dcs_fresh(crate::dcs::DcsScan::Ground),
            }),
    {
        Queries { framer: Framer::new(), strings: DcsFramer::new() }
    }

    /// Scan a chunk of output and return the queries that completed in it, in the order the stream
    /// asked them. Safe at any chunk boundary.
    pub fn feed(&mut self, bytes: &[u8]) -> (queries: Vec<Query>)
        requires
            old(self).wf(),
        ensures
            final(self).wf(),
            (final(self)@, queries@.map_values(|q: Query| q@)) == queries_run(old(self)@, bytes@),
    {
        let ghost start = self@;
        let strings = self.strings.feed(bytes);
        let csis = self.framer.feed(bytes);
        let ghost dcs_events = framed_dcs_views(strings@);
        let ghost csi_events = framed_views(csis@);
        let mut from_strings: Vec<(usize, Query)> = Vec::new();
        let mut k: usize = 0;
        while k < strings.len()
            invariant
                k <= strings@.len(),
                dcs_events == framed_dcs_views(strings@),
                found_view(from_strings@) == asked_strings(dcs_events.take(k as int)),
            decreases strings@.len() - k,
        {
            assert(dcs_events.take(k + 1).drop_last() =~= dcs_events.take(k as int));
            let ghost before = from_strings@;
            match asked_string_of(&strings[k].dcs) {
                Some(q) => {
                    from_strings.push((strings[k].past, q));
                    assert(found_view(from_strings@) =~= found_view(before).push(
                        (strings@[k as int].past as int, q@),
                    ));
                },
                None => {},
            }
            k = k + 1;
        }
        assert(dcs_events.take(dcs_events.len() as int) =~= dcs_events);
        let mut from_csis: Vec<(usize, Query)> = Vec::new();
        let mut k: usize = 0;
        while k < csis.len()
            invariant
                k <= csis@.len(),
                csi_events == framed_views(csis@),
                found_view(from_csis@) == asked_csis(csi_events.take(k as int)),
            decreases csis@.len() - k,
        {
            assert(csi_events.take(k + 1).drop_last() =~= csi_events.take(k as int));
            let ghost before = from_csis@;
            match asked_of(&csis[k].csi) {
                Some(q) => {
                    from_csis.push((csis[k].past, q));
                    assert(found_view(from_csis@) =~= found_view(before).push(
                        (csis@[k as int].past as int, q@),
                    ));
                },
                None => {},
            }
            k = k + 1;
        }
        assert(csi_events.take(csi_events.len() as int) =~= csi_events);
        let ghost whole = merge_by_offset(found_view(from_strings@), found_view(from_csis@));
        let mut queries: Vec<Query> = Vec::new();
        let ghost mut taken: Seq<(int, QueryView)> = Seq::empty();
        while from_strings.len() > 0 || from_csis.len() > 0
            invariant
                taken + merge_by_offset(found_view(from_strings@), found_view(from_csis@)) == whole,
                queries@.map_values(|q: Query| q@) == without_offsets(taken),
            decreases from_strings@.len() + from_csis@.len(),
        {
            let ghost a = found_view(from_strings@);
            let ghost b = found_view(from_csis@);
            let ghost before = queries@;
            let first = from_csis.len() == 0 || (from_strings.len() > 0 && from_strings[0].0
                <= from_csis[0].0);
            let ghost picked: (int, QueryView);
            if first {
                let entry = from_strings.remove(0);
                assert(found_view(from_strings@) =~= a.drop_first());
                proof {
                    picked = a[0];
                }
                assert(entry.1@ == picked.1);
                queries.push(entry.1);
            } else {
                let entry = from_csis.remove(0);
                assert(found_view(from_csis@) =~= b.drop_first());
                proof {
                    picked = b[0];
                }
                assert(entry.1@ == picked.1);
                queries.push(entry.1);
            }
            proof {
                let rest = merge_by_offset(found_view(from_strings@), found_view(from_csis@));
                assert(merge_by_offset(a, b) == seq![picked] + rest);
                assert(taken.push(picked) + rest =~= taken + (seq![picked] + rest));
                taken = taken.push(picked);
            }
            assert(queries@ == before.push(queries@.last()));
            assert(queries@.map_values(|q: Query| q@) =~= before.map_values(|q: Query| q@).push(
                picked.1,
            ));
            assert(queries@.map_values(|q: Query| q@) =~= without_offsets(taken));
        }
        assert(taken =~= whole);
        queries
    }
}

/// String terminator, `ESC \`.
pub open spec fn st() -> Seq<u8> {
    seq![ESC, 0x5cu8]
}

/// The XTSMGRAPHICS reply, `CSI ? Pi ; Ps ; Pv S`: a set is refused with status 3 and the fixed
/// value, every other action succeeds with it, and an item other than the colour registers (1) or
/// the sixel geometry (2) is answered unknown (status 1).
pub open spec fn graphics_reply_bytes(request: Graphics, registers: u16, width: u16, height: u16) -> Seq<u8> {
    let status: nat = if request.action == 3 {
        3
    } else {
        0
    };
    let open = seq![ESC, 0x5bu8, 0x3fu8];
    if request.item == 1 {
        open + seq![0x31u8, 0x3bu8] + decimal(status) + seq![0x3bu8] + decimal(registers as nat) + seq![
            0x53u8,
        ]
    } else if request.item == 2 {
        open + seq![0x32u8, 0x3bu8] + decimal(status) + seq![0x3bu8] + decimal(width as nat) + seq![
            0x3bu8,
        ] + decimal(height as nat) + seq![0x53u8]
    } else {
        open + decimal(request.item as nat) + seq![0x3bu8, 0x31u8, 0x53u8]
    }
}

/// The XTSMGRAPHICS reply for a request, given the fixed colour-register count and the largest
/// image, `(width, height)`.
pub fn graphics_reply(request: &Graphics, registers: u16, geometry: (u16, u16)) -> (reply: Vec<u8>)
    ensures
        reply@ == graphics_reply_bytes(*request, registers, geometry.0, geometry.1),
{
    let status: u64 = if request.action == 3 {
        3
    } else {
        0
    };
    let (width, height) = geometry;
    let mut reply: Vec<u8> = Vec::new();
    reply.push(ESC);
    reply.push(0x5b);
    reply.push(0x3f);
    if request.item == 1 {
        reply.push(0x31);
        reply.push(0x3b);
        push_decimal(&mut reply, status);
        reply.push(0x3b);
        push_decimal(&mut reply, registers as u64);
        reply.push(0x53);
    } else if request.item == 2 {
        reply.push(0x32);
        reply.push(0x3b);
        push_decimal(&mut reply, status);
        reply.push(0x3b);
        push_decimal(&mut reply, width as u64);
        reply.push(0x3b);
        push_decimal(&mut reply, height as u64);
        reply.push(0x53);
    } else {
        push_decimal(&mut reply, request.item as u64);
        reply.push(0x3b);
        reply.push(0x31);
        reply.push(0x53);
    }
    assert(reply@ =~= graphics_reply_bytes(*request, registers, width, height));
    reply
}

/// How a DA1 reply opens, `ESC [ ?`.
pub open spec fn da1_prefix() -> Seq<u8> {
    seq![ESC, 0x5bu8, 0x3fu8]
}

pub open spec fn is_da1_param_byte(byte: u8) -> bool {
    is_decimal(byte) || byte == 0x3b
}

/// How many digits and semicolons `s` starts with.
pub open spec fn leading_params(s: Seq<u8>) -> nat
    decreases s.len(),
{
    if s.len() > 0 && is_da1_param_byte(s[0]) {
        1 + leading_params(s.drop_first())
    } else {
        0
    }
}

/// The offset of a DA1's closing `c` in what follows its `CSI ?`: only digits and semicolons may
/// come before it. `None` when what follows is not a DA1.
pub open spec fn da1_params_end(s: Seq<u8>) -> Option<int> {
    let n = leading_params(s) as int;
    if n < s.len() && s[n] == 0x63 {
        Some(n)
    } else {
        None
    }
}

/// Whether a DA1 parameter run already lists attribute 4.
pub open spec fn names_sixel(params: Seq<u8>) -> bool {
    split_fields(params, 0x3b).contains(seq![0x34u8])
}

/// A run of replies with `;4` added to every DA1 among them that does not already list it; every
/// other byte passes through as it was.
#[verifier::opaque]
pub open spec fn sixel_amended(s: Seq<u8>) -> Seq<u8>
    decreases s.len(),
{
    if s.len() == 0 {
        Seq::empty()
    } else if has_prefix(s, da1_prefix()) && da1_params_end(s.skip(3)) is Some {
        let end = da1_params_end(s.skip(3))->0;
        let params = s.subrange(3, 3 + end);
        da1_prefix() + params + (if names_sixel(params) {
            Seq::empty()
        } else {
            seq![0x3bu8, 0x34u8]
        }) + seq![0x63u8] + sixel_amended(s.skip(3 + end + 1))
    } else {
        seq![s[0]] + sixel_amended(s.skip(1))
    }
}

proof fn lemma_leading_step(s: Seq<u8>, j: int)
    requires
        0 <= j <= s.len(),
    ensures
        j < s.len() && is_da1_param_byte(s[j]) ==> leading_params(s.skip(j)) == 1 + leading_params(
            s.skip(j + 1),
        ),
        !(j < s.len() && is_da1_param_byte(s[j])) ==> leading_params(s.skip(j)) == 0,
{
    if j < s.len() {
        assert(s.skip(j).drop_first() =~= s.skip(j + 1));
        assert(s.skip(j)[0] == s[j]);
    }
}

fn lists_sixel(params: &[u8]) -> (found: bool)
    ensures
        found == names_sixel(params@),
{
    let fields = split(params, 0x3b);
    let ghost views = fields@.map_values(|f: Vec<u8>| f@);
    let mut k: usize = 0;
    while k < fields.len()
        invariant
            k <= fields@.len(),
            views == fields@.map_values(|f: Vec<u8>| f@),
            views == split_fields(params@, 0x3b),
            forall|i: int| 0 <= i < k ==> views[i] != seq![0x34u8],
        decreases fields@.len() - k,
    {
        if fields[k].len() == 1 && fields[k][0] == 0x34 {
            assert(views[k as int] =~= seq![0x34u8]);
            return true;
        }
        assert(views[k as int] != seq![0x34u8]) by {
            if views[k as int] == seq![0x34u8] {
                assert(views[k as int].len() == 1);
            }
        }
        k = k + 1;
    }
    false
}

/// Where the DA1 that starts at `index` closes, if one does: the offset of its `c`.
fn da1_at(reply: &[u8], index: usize) -> (close: Option<usize>)
    requires
        index < reply@.len(),
    ensures
        ({
            let s = reply@.skip(index as int);
            match close {
                Some(j) => has_prefix(s, da1_prefix()) && index + 3 <= j < reply@.len()
                    && da1_params_end(s.skip(3)) == Some(j - index - 3),
                None => !(has_prefix(s, da1_prefix()) && da1_params_end(s.skip(3)) is Some),
            }
        }),
{
    let n = reply.len();
    let ghost s = reply@.skip(index as int);
    if n - index < 3 || reply[index] != ESC || reply[index + 1] != 0x5b || reply[index + 2] != 0x3f {
        assert(!has_prefix(s, da1_prefix())) by {
            if has_prefix(s, da1_prefix()) {
                assert(s.subrange(0, 3)[0] == s[0]);
                assert(s.subrange(0, 3)[1] == s[1]);
                assert(s.subrange(0, 3)[2] == s[2]);
            }
        }
        return None;
    }
    assert(s.subrange(0, 3) =~= da1_prefix());
    assert(s.skip(3) =~= reply@.skip(index + 3));
    let mut j: usize = index + 3;
    while j < n && ((0x30 <= reply[j] && reply[j] <= 0x39) || reply[j] == 0x3b)
        invariant
            index + 3 <= j <= n,
            n == reply@.len(),
            leading_params(reply@.skip(index + 3)) == (j - index - 3) + leading_params(
                reply@.skip(j as int),
            ),
        decreases n - j,
    {
        proof {
            lemma_leading_step(reply@, j as int);
        }
        j = j + 1;
    }
    proof {
        lemma_leading_step(reply@, j as int);
    }
    if j < n && reply[j] == 0x63 {
        assert(s.skip(3)[(j - index - 3) as int] == reply@[j as int]);
        Some(j)
    } else {
        None
    }
}

proof fn lemma_amended_da1(r: Seq<u8>, index: int, j: int)
    requires
        0 <= index,
        index + 3 <= j < r.len(),
        has_prefix(r.skip(index), da1_prefix()),
        da1_params_end(r.skip(index).skip(3)) == Some(j - index - 3),
    ensures
        ({
            let params = r.subrange(index + 3, j);
            sixel_amended(r.skip(index)) == da1_prefix() + params + (if names_sixel(params) {
                Seq::empty()
            } else {
                seq![0x3bu8, 0x34u8]
            }) + seq![0x63u8] + sixel_amended(r.skip(j + 1))
        }),
{
    reveal(sixel_amended);
    let s = r.skip(index);
    let end = j - index - 3;
    assert(s.subrange(3, 3 + end) =~= r.subrange(index + 3, j));
    assert(s.skip(3 + end + 1) =~= r.skip(j + 1));
}

proof fn lemma_amended_plain(r: Seq<u8>, index: int)
    requires
        0 <= index < r.len(),
        !(has_prefix(r.skip(index), da1_prefix()) && da1_params_end(r.skip(index).skip(3)) is Some),
    ensures
        sixel_amended(r.skip(index)) == seq![r[index]] + sixel_amended(r.skip(index + 1)),
{
    reveal(sixel_amended);
    assert(r.skip(index).skip(1) =~= r.skip(index + 1));
}

/// Add the sixel capability, attribute 4, to every DA1 answer in a run of replies the engine
/// wrote; a DA1 that already lists it, and every other reply, is passed through untouched.
pub fn with_sixel_attribute(reply: Vec<u8>) -> (amended: Vec<u8>)
    ensures
        amended@ == sixel_amended(reply@),
{
    let mut out: Vec<u8> = Vec::new();
    let n = reply.len();
    let mut index: usize = 0;
    assert(reply@.skip(0) =~= reply@);
    while index < n
        invariant
            index <= n,
            n == reply@.len(),
            out@ + sixel_amended(reply@.skip(index as int)) == sixel_amended(reply@),
        decreases n - index,
    {
        let ghost before = out@;
        match da1_at(reply.as_slice(), index) {
            Some(j) => {
                let params = &reply[index + 3..j];
                proof {
                    lemma_amended_da1(reply@, index as int, j as int);
                }
                assert(params@ =~= reply@.subrange(index + 3, j as int));
                let listed = lists_sixel(params);
                out.push(ESC);
                out.push(0x5b);
                out.push(0x3f);
                append(&mut out, params);
                if !listed {
                    out.push(0x3b);
                    out.push(0x34);
                }
                out.push(0x63);
                let ghost chunk = da1_prefix() + params@ + (if names_sixel(params@) {
                    Seq::empty()
                } else {
                    seq![0x3bu8, 0x34u8]
                }) + seq![0x63u8];
                assert(out@ =~= before + chunk);
                assert(out@ + sixel_amended(reply@.skip(j + 1)) =~= before + (chunk + sixel_amended(
                    reply@.skip(j + 1),
                )));
                index = j + 1;
            },
            None => {
                proof {
                    lemma_amended_plain(reply@, index as int);
                }
                out.push(reply[index]);
                assert(out@ =~= before + seq![reply@[index as int]]);
                assert(out@ + sixel_amended(reply@.skip(index + 1)) =~= before + (seq![
                    reply@[index as int],
                ] + sixel_amended(reply@.skip(index + 1))));
                index = index + 1;
            },
        }
    }
    assert(reply@.skip(n as int) =~= Seq::<u8>::empty());
    assert(sixel_amended(Seq::<u8>::empty()) =~= Seq::<u8>::empty()) by {
        reveal(sixel_amended);
    }
    assert(out@ + Seq::<u8>::empty() =~= out@);
    out
}

/// `DCS <a> | <id> ST`, the frame both identity replies share.
pub open spec fn identity_reply(lead: u8, id: Seq<u8>) -> Seq<u8> {
    seq![ESC, 0x50u8, lead, 0x7cu8] + id + st()
}

fn framed_identity(lead: u8, id: &str) -> (reply: Vec<u8>)
    ensures
        reply@ == identity_reply(lead, id.spec_bytes()),
{
    let mut reply: Vec<u8> = Vec::new();
    reply.push(ESC);
    reply.push(0x50);
    reply.push(lead);
    reply.push(0x7c);
    append(&mut reply, id.as_bytes());
    reply.push(ESC);
    reply.push(0x5c);
    assert(reply@ =~= identity_reply(lead, id.spec_bytes()));
    reply
}

/// The XTVERSION reply for an identity string: `DCS > | <id> ST`.
pub fn version_reply(id: &str) -> (reply: Vec<u8>)
    ensures
        reply@ == identity_reply(0x3e, id.spec_bytes()),
{
    framed_identity(0x3e, id)
}

/// The DA3 reply, DECRPTUI: `DCS ! | <unit id> ST`.
pub fn da3_reply(unit_id: &str) -> (reply: Vec<u8>)
    ensures
        reply@ == identity_reply(0x21, unit_id.spec_bytes()),
{
    framed_identity(0x21, unit_id)
}

/// The valid DECRQSS reply: `DCS 1 $ r <params> <selector> ST`.
pub open spec fn decrqss_reply_bytes(params: Seq<u8>, selector: Seq<u8>) -> Seq<u8> {
    seq![ESC, 0x50u8, 0x31u8, 0x24u8, 0x72u8] + params + selector + st()
}

/// The valid DECRQSS reply, echoing the selector's intermediates and final byte after the value.
pub fn decrqss_reply(params: &str, selector: &str) -> (reply: Vec<u8>)
    ensures
        reply@ == decrqss_reply_bytes(params.spec_bytes(), selector.spec_bytes()),
{
    let mut reply: Vec<u8> = Vec::new();
    reply.push(ESC);
    reply.push(0x50);
    reply.push(0x31);
    reply.push(0x24);
    reply.push(0x72);
    append(&mut reply, params.as_bytes());
    append(&mut reply, selector.as_bytes());
    reply.push(ESC);
    reply.push(0x5c);
    assert(reply@ =~= decrqss_reply_bytes(params.spec_bytes(), selector.spec_bytes()));
    reply
}

/// The invalid DECRQSS reply: `DCS 0 $ r ST`.
pub fn decrqss_unsupported_reply() -> (reply: Vec<u8>)
    ensures
        reply@ == seq![ESC, 0x50u8, 0x30u8, 0x24u8, 0x72u8] + st(),
{
    let reply = vec![ESC, 0x50, 0x30, 0x24, 0x72, ESC, 0x5c];
    assert(reply@ =~= seq![ESC, 0x50u8, 0x30u8, 0x24u8, 0x72u8] + st());
    reply
}

/// The value of one ASCII-hex digit, either case.
pub open spec fn hex_value(byte: u8) -> Option<u8> {
    if 0x30 <= byte <= 0x39 {
        Some((byte - 0x30) as u8)
    } else if 0x61 <= byte <= 0x66 {
        Some((byte - 0x61 + 10) as u8)
    } else if 0x41 <= byte <= 0x46 {
        Some((byte - 0x41 + 10) as u8)
    } else {
        None
    }
}

/// An ASCII-hex string decoded, or `None` when it is empty, of odd length, or holds a non-hex
/// byte.
pub open spec fn hex_decoded(hex: Seq<u8>) -> Option<Seq<u8>> {
    if hex.len() == 0 || hex.len() % 2 != 0 || exists|i: int| 0 <= i < hex.len() && (#[trigger] hex_value(hex[i])) is None {
        None
    } else {
        Some(
            Seq::new(
                (hex.len() / 2) as nat,
                |k: int| (hex_value(hex[2 * k])->0 * 16 + hex_value(hex[2 * k + 1])->0) as u8,
            ),
        )
    }
}

/// The upper-case ASCII-hex digit for a nibble.
pub open spec fn hex_digit_of(nibble: int) -> u8 {
    if nibble < 10 {
        (0x30 + nibble) as u8
    } else {
        (0x41 + nibble - 10) as u8
    }
}

/// Bytes as upper-case ASCII hex, two digits each.
pub open spec fn hex_encoded(bytes: Seq<u8>) -> Seq<u8>
    decreases bytes.len(),
{
    if bytes.len() == 0 {
        Seq::empty()
    } else {
        hex_encoded(bytes.drop_last()) + seq![
            hex_digit_of((bytes.last() / 16) as int),
            hex_digit_of((bytes.last() % 16) as int),
        ]
    }
}

fn hex_digit(byte: u8) -> (value: Option<u8>)
    ensures
        value == hex_value(byte),
{
    if 0x30 <= byte && byte <= 0x39 {
        Some(byte - 0x30)
    } else if 0x61 <= byte && byte <= 0x66 {
        Some(byte - 0x61 + 10)
    } else if 0x41 <= byte && byte <= 0x46 {
        Some(byte - 0x41 + 10)
    } else {
        None
    }
}

fn hex_decode(hex: &[u8]) -> (decoded: Option<Vec<u8>>)
    ensures
        match decoded {
            Some(d) => hex_decoded(hex@) == Some(d@),
            None => hex_decoded(hex@) is None,
        },
{
    let n = hex.len();
    if n == 0 || n % 2 != 0 {
        return None;
    }
    let mut out: Vec<u8> = Vec::new();
    let mut k: usize = 0;
    while k < n / 2
        invariant
            n == hex@.len(),
            n % 2 == 0,
            k <= n / 2,
            forall|i: int| 0 <= i < 2 * k ==> (#[trigger] hex_value(hex@[i])) is Some,
            out@ =~= Seq::new(
                k as nat,
                |m: int| (hex_value(hex@[2 * m])->0 * 16 + hex_value(hex@[2 * m + 1])->0) as u8,
            ),
        decreases n / 2 - k,
    {
        let high = hex_digit(hex[2 * k]);
        let low = hex_digit(hex[2 * k + 1]);
        match (high, low) {
            (Some(h), Some(l)) => {
                out.push(h * 16 + l);
            },
            _ => {
                assert(hex_value(hex@[2 * k as int]) is None || hex_value(hex@[2 * k + 1]) is None);
                return None;
            },
        }
        k = k + 1;
    }
    Some(out)
}

fn hex_encode(bytes: &[u8]) -> (encoded: Vec<u8>)
    ensures
        encoded@ == hex_encoded(bytes@),
{
    let mut out: Vec<u8> = Vec::new();
    let mut k: usize = 0;
    while k < bytes.len()
        invariant
            k <= bytes@.len(),
            out@ == hex_encoded(bytes@.take(k as int)),
        decreases bytes@.len() - k,
    {
        assert(bytes@.take(k + 1).drop_last() =~= bytes@.take(k as int));
        let byte = bytes[k];
        let high = byte / 16;
        let low = byte % 16;
        out.push(if high < 10 {
            0x30 + high
        } else {
            0x41 + high - 10
        });
        out.push(if low < 10 {
            0x30 + low
        } else {
            0x41 + low - 10
        });
        assert(out@ =~= hex_encoded(bytes@.take(k + 1)));
        k = k + 1;
    }
    assert(bytes@.take(bytes@.len() as int) =~= bytes@);
    out
}

/// The value reported for a capability name: the terminal name for `TN`, the colour count for
/// `Co` and `colors`, the bits per channel for `RGB`; `None` for any other name.
pub open spec fn known_capability(name: Seq<u8>) -> Option<Seq<u8>> {
    if name == seq![0x54u8, 0x4eu8] {
        Some(
            seq![
                0x78u8, 0x74u8, 0x65u8, 0x72u8, 0x6du8, 0x2du8, 0x32u8, 0x35u8, 0x36u8, 0x63u8,
                0x6fu8, 0x6cu8, 0x6fu8, 0x72u8,
            ],
        )
    } else if name == seq![0x43u8, 0x6fu8] || name == seq![0x63u8, 0x6fu8, 0x6cu8, 0x6fu8, 0x72u8, 0x73u8] {
        Some(seq![0x32u8, 0x35u8, 0x36u8])
    } else if name == seq![0x52u8, 0x47u8, 0x42u8] {
        Some(seq![0x38u8])
    } else {
        None
    }
}

fn capability(name: &[u8]) -> (value: Option<Vec<u8>>)
    ensures
        match value {
            Some(v) => known_capability(name@) == Some(v@),
            None => known_capability(name@) is None,
        },
{
    let tn: [u8; 2] = [0x54, 0x4e];
    let co: [u8; 2] = [0x43, 0x6f];
    let colors: [u8; 6] = [0x63, 0x6f, 0x6c, 0x6f, 0x72, 0x73];
    let rgb: [u8; 3] = [0x52, 0x47, 0x42];
    assert(tn@ =~= seq![0x54u8, 0x4eu8]);
    assert(co@ =~= seq![0x43u8, 0x6fu8]);
    assert(colors@ =~= seq![0x63u8, 0x6fu8, 0x6cu8, 0x6fu8, 0x72u8, 0x73u8]);
    assert(rgb@ =~= seq![0x52u8, 0x47u8, 0x42u8]);
    if crate::bytes::bytes_equal(name, &tn) {
        let v = vec![0x78, 0x74, 0x65, 0x72, 0x6d, 0x2d, 0x32, 0x35, 0x36, 0x63, 0x6f, 0x6c, 0x6f, 0x72];
        assert(v@ =~= known_capability(name@)->0);
        Some(v)
    } else if crate::bytes::bytes_equal(name, &co) || crate::bytes::bytes_equal(name, &colors) {
        let v = vec![0x32, 0x35, 0x36];
        assert(v@ =~= known_capability(name@)->0);
        Some(v)
    } else if crate::bytes::bytes_equal(name, &rgb) {
        let v = vec![0x38];
        assert(v@ =~= known_capability(name@)->0);
        Some(v)
    } else {
        None
    }
}

/// The XTGETTCAP answer for one hex-encoded name: `DCS 1 + r <NAME>=<VALUE> ST` for a known
/// capability, both sides in upper-case hex; `DCS 0 + r <name> ST`, echoing the name as asked,
/// for any other name or unreadable hex.
pub open spec fn capability_answer(name: Seq<u8>) -> Seq<u8> {
    let unknown = seq![ESC, 0x50u8, 0x30u8, 0x2bu8, 0x72u8] + name + st();
    match hex_decoded(name) {
        Some(decoded) => match known_capability(decoded) {
            Some(value) => seq![ESC, 0x50u8, 0x31u8, 0x2bu8, 0x72u8] + hex_encoded(decoded) + seq![
                0x3du8,
            ] + hex_encoded(value) + st(),
            None => unknown,
        },
        None => unknown,
    }
}

/// The answers to a list of names, in order.
pub open spec fn gettcap_reply_bytes(names: Seq<Seq<u8>>) -> Seq<u8>
    decreases names.len(),
{
    if names.len() == 0 {
        Seq::empty()
    } else {
        gettcap_reply_bytes(names.drop_last()) + capability_answer(names.last())
    }
}

fn answer_capability(reply: &mut Vec<u8>, name: &[u8])
    ensures
        final(reply)@ == old(reply)@ + capability_answer(name@),
{
    let ghost start = reply@;
    match hex_decode(name) {
        Some(decoded) => match capability(decoded.as_slice()) {
            Some(value) => {
                reply.push(ESC);
                reply.push(0x50);
                reply.push(0x31);
                reply.push(0x2b);
                reply.push(0x72);
                let name_hex = hex_encode(decoded.as_slice());
                append(reply, name_hex.as_slice());
                reply.push(0x3d);
                let value_hex = hex_encode(value.as_slice());
                append(reply, value_hex.as_slice());
                reply.push(ESC);
                reply.push(0x5c);
                assert(reply@ =~= start + capability_answer(name@));
                return ;
            },
            None => {},
        },
        None => {},
    }
    reply.push(ESC);
    reply.push(0x50);
    reply.push(0x30);
    reply.push(0x2b);
    reply.push(0x72);
    append(reply, name);
    reply.push(ESC);
    reply.push(0x5c);
    assert(reply@ =~= start + capability_answer(name@));
}

/// The XTGETTCAP reply for a list of hex-encoded capability names, each answered on its own.
pub fn gettcap_reply(names: &[Vec<u8>]) -> (reply: Vec<u8>)
    ensures
        reply@ == gettcap_reply_bytes(names@.map_values(|n: Vec<u8>| n@)),
{
    let ghost views = names@.map_values(|n: Vec<u8>| n@);
    let mut reply: Vec<u8> = Vec::new();
    let mut k: usize = 0;
    while k < names.len()
        invariant
            k <= names@.len(),
            views == names@.map_values(|n: Vec<u8>| n@),
            reply@ == gettcap_reply_bytes(views.take(k as int)),
        decreases names@.len() - k,
    {
        assert(views.take(k + 1).drop_last() =~= views.take(k as int));
        assert(views[k as int] == names@[k as int]@);
        answer_capability(&mut reply, names[k].as_slice());
        k = k + 1;
    }
    assert(views.take(views.len() as int) =~= views);
    reply
}

impl Default for Queries {
    fn default() -> (queries: Self)
        ensures
            queries.wf(),
            queries@ == (QueriesView {
                framer: crate::csi::fresh_sequence(crate::csi::CsiScan::Ground),
                strings: crate::dcs::dcs_fresh(crate::dcs::DcsScan::Ground),
            }),
    {
        Self::new()
    }
}

proof fn lemma_hex_encoded_at(bytes: Seq<u8>)
    ensures
        hex_encoded(bytes).len() == 2 * bytes.len(),
        forall|k: int|
            0 <= k < bytes.len() ==> (#[trigger] hex_encoded(bytes)[2 * k]) == hex_digit_of(
                (bytes[k] / 16) as int,
            ) && hex_encoded(bytes)[2 * k + 1] == hex_digit_of((bytes[k] % 16) as int),
    decreases bytes.len(),
{
    if bytes.len() > 0 {
        let shorter = bytes.drop_last();
        lemma_hex_encoded_at(shorter);
        let e = hex_encoded(bytes);
        assert forall|k: int| 0 <= k < bytes.len() implies (#[trigger] e[2 * k]) == hex_digit_of(
            (bytes[k] / 16) as int,
        ) && e[2 * k + 1] == hex_digit_of((bytes[k] % 16) as int) by {
            if k < shorter.len() {
                assert(e[2 * k] == hex_encoded(shorter)[2 * k]);
                assert(e[2 * k + 1] == hex_encoded(shorter)[2 * k + 1]);
                assert(shorter[k] == bytes[k]);
            }
        }
    }
}

proof fn lemma_hex_digit_reads_back(nibble: int)
    requires
        0 <= nibble < 16,
    ensures
        hex_value(hex_digit_of(nibble)) == Some(nibble as u8),
{
}

/// What is encoded as hex decodes back to the same bytes: the names an answer spells out are the
/// names that were asked for.
pub proof fn law_hex_round_trip(bytes: Seq<u8>)
    requires
        bytes.len() > 0,
    ensures
        hex_decoded(hex_encoded(bytes)) == Some(bytes),
{
    lemma_hex_encoded_at(bytes);
    let e = hex_encoded(bytes);
    assert forall|i: int| 0 <= i < e.len() implies (#[trigger] hex_value(e[i])) is Some by {
        let k = i / 2;
        assert(0 <= k < bytes.len());
        assert(e[2 * k] == hex_digit_of((bytes[k] / 16) as int));
        assert(e[2 * k + 1] == hex_digit_of((bytes[k] % 16) as int));
        if i % 2 == 0 {
            assert(i == 2 * k);
            lemma_hex_digit_reads_back((bytes[k] / 16) as int);
        } else {
            assert(i == 2 * k + 1);
            lemma_hex_digit_reads_back((bytes[k] % 16) as int);
        }
    }
    let decoded = Seq::new(
        (e.len() / 2) as nat,
        |k: int| (hex_value(e[2 * k])->0 * 16 + hex_value(e[2 * k + 1])->0) as u8,
    );
    assert forall|k: int| 0 <= k < bytes.len() implies decoded[k] == bytes[k] by {
        assert(e[2 * k] == hex_digit_of((bytes[k] / 16) as int));
        lemma_hex_digit_reads_back((bytes[k] / 16) as int);
        lemma_hex_digit_reads_back((bytes[k] % 16) as int);
    }
    assert(decoded =~= bytes);
}

/// A run of replies holding no DA1 — no `ESC [ ?` opening anywhere in it — comes back exactly as
/// it went in.
pub proof fn law_replies_without_da1_pass_through(s: Seq<u8>)
    requires
        forall|i: int| 0 <= i < s.len() ==> !has_prefix(#[trigger] s.skip(i), da1_prefix()),
    ensures
        sixel_amended(s) == s,
    decreases s.len(),
{
    reveal(sixel_amended);
    if s.len() > 0 {
        assert(s.skip(0) =~= s);
        assert forall|i: int| 0 <= i < s.skip(1).len() implies !has_prefix(
            #[trigger] s.skip(1).skip(i),
            da1_prefix(),
        ) by {
            assert(s.skip(1).skip(i) =~= s.skip(i + 1));
        }
        law_replies_without_da1_pass_through(s.skip(1));
        assert(seq![s[0]] + s.skip(1) =~= s);
    }
}

proof fn lemma_csi_run_ascending(f: FramerView, bytes: Seq<u8>)
    ensures
        forall|i: int, j: int|
            0 <= i < j < csi_run(f, bytes).1.len() ==> csi_run(f, bytes).1[i].0 < csi_run(f, bytes).1[j].0,
    decreases bytes.len(),
{
    if bytes.len() > 0 {
        lemma_csi_run_ascending(f, bytes.drop_last());
        lemma_csi_offsets(f, bytes.drop_last());
        let found = csi_run(f, bytes.drop_last()).1;
        let all = csi_run(f, bytes).1;
        assert forall|i: int, j: int| 0 <= i < j < all.len() implies all[i].0 < all[j].0 by {
            assert(all[i] == found[i]);
            if j < found.len() {
                assert(all[j] == found[j]);
            }
        }
    }
}

proof fn lemma_dcs_run_ascending(f: DcsFramerView, bytes: Seq<u8>, cap: int)
    ensures
        forall|i: int, j: int|
            0 <= i < j < dcs_run(f, bytes, cap).1.len() ==> dcs_run(f, bytes, cap).1[i].0 < dcs_run(
                f,
                bytes,
                cap,
            ).1[j].0,
    decreases bytes.len(),
{
    if bytes.len() > 0 {
        lemma_dcs_run_ascending(f, bytes.drop_last(), cap);
        lemma_dcs_offsets(f, bytes.drop_last(), cap);
        let found = dcs_run(f, bytes.drop_last(), cap).1;
        let all = dcs_run(f, bytes, cap).1;
        assert forall|i: int, j: int| 0 <= i < j < all.len() implies all[i].0 < all[j].0 by {
            assert(all[i] == found[i]);
            if j < found.len() {
                assert(all[j] == found[j]);
            }
        }
    }
}

pub open spec fn ascending_queries(s: Seq<(int, QueryView)>) -> bool {
    forall|i: int, j: int| 0 <= i <= j < s.len() ==> s[i].0 <= s[j].0
}

proof fn lemma_asked_csis_keep_order(events: Seq<(int, CsiView)>)
    requires
        forall|i: int, j: int| 0 <= i < j < events.len() ==> events[i].0 < events[j].0,
    ensures
        ascending_queries(asked_csis(events)),
        forall|i: int| 0 <= i < asked_csis(events).len() ==> exists|k: int|
            0 <= k < events.len() && events[k].0 == (#[trigger] asked_csis(events)[i]).0,
    decreases events.len(),
{
    if events.len() > 0 {
        let shorter = events.drop_last();
        assert forall|i: int, j: int| 0 <= i < j < shorter.len() implies shorter[i].0 < shorter[j].0 by {
            assert(shorter[i] == events[i]);
            assert(shorter[j] == events[j]);
        }
        lemma_asked_csis_keep_order(shorter);
        let before = asked_csis(shorter);
        let all = asked_csis(events);
        assert forall|i: int| 0 <= i < all.len() implies exists|k: int|
            0 <= k < events.len() && events[k].0 == (#[trigger] all[i]).0 by {
            if i < before.len() {
                assert(all[i] == before[i]);
                let k = choose|k: int| 0 <= k < shorter.len() && shorter[k].0 == before[i].0;
                assert(events[k] == shorter[k]);
            } else {
                assert(events[events.len() - 1].0 == all[i].0);
            }
        }
        assert forall|i: int, j: int| 0 <= i <= j < all.len() implies all[i].0 <= all[j].0 by {
            if j < before.len() {
                assert(all[i] == before[i]);
                assert(all[j] == before[j]);
            } else if i < before.len() {
                assert(all[i] == before[i]);
                let k = choose|k: int| 0 <= k < shorter.len() && shorter[k].0 == before[i].0;
                assert(events[k] == shorter[k]);
            }
        }
    }
}

proof fn lemma_asked_strings_keep_order(events: Seq<(int, DcsView)>)
    requires
        forall|i: int, j: int| 0 <= i < j < events.len() ==> events[i].0 < events[j].0,
    ensures
        ascending_queries(asked_strings(events)),
        forall|i: int| 0 <= i < asked_strings(events).len() ==> exists|k: int|
            0 <= k < events.len() && events[k].0 == (#[trigger] asked_strings(events)[i]).0,
    decreases events.len(),
{
    if events.len() > 0 {
        let shorter = events.drop_last();
        assert forall|i: int, j: int| 0 <= i < j < shorter.len() implies shorter[i].0 < shorter[j].0 by {
            assert(shorter[i] == events[i]);
            assert(shorter[j] == events[j]);
        }
        lemma_asked_strings_keep_order(shorter);
        let before = asked_strings(shorter);
        let all = asked_strings(events);
        assert forall|i: int| 0 <= i < all.len() implies exists|k: int|
            0 <= k < events.len() && events[k].0 == (#[trigger] all[i]).0 by {
            if i < before.len() {
                assert(all[i] == before[i]);
                let k = choose|k: int| 0 <= k < shorter.len() && shorter[k].0 == before[i].0;
                assert(events[k] == shorter[k]);
            } else {
                assert(events[events.len() - 1].0 == all[i].0);
            }
        }
        assert forall|i: int, j: int| 0 <= i <= j < all.len() implies all[i].0 <= all[j].0 by {
            if j < before.len() {
                assert(all[i] == before[i]);
                assert(all[j] == before[j]);
            } else if i < before.len() {
                assert(all[i] == before[i]);
                let k = choose|k: int| 0 <= k < shorter.len() && shorter[k].0 == before[i].0;
                assert(events[k] == shorter[k]);
            }
        }
    }
}

proof fn lemma_merge_ascending(a: Seq<(int, QueryView)>, b: Seq<(int, QueryView)>)
    requires
        ascending_queries(a),
        ascending_queries(b),
    ensures
        ascending_queries(merge_by_offset(a, b)),
        merge_by_offset(a, b).len() == a.len() + b.len(),
        a.len() > 0 && b.len() > 0 ==> merge_by_offset(a, b)[0].0 == (if a[0].0 <= b[0].0 {
            a[0].0
        } else {
            b[0].0
        }),
        a.len() > 0 && b.len() == 0 ==> merge_by_offset(a, b)[0].0 == a[0].0,
        a.len() == 0 && b.len() > 0 ==> merge_by_offset(a, b)[0].0 == b[0].0,
    decreases a.len() + b.len(),
{
    if a.len() > 0 && b.len() > 0 {
        if a[0].0 <= b[0].0 {
            let rest = a.drop_first();
            assert forall|i: int, j: int| 0 <= i <= j < rest.len() implies rest[i].0 <= rest[j].0 by {
                assert(rest[i] == a[i + 1]);
                assert(rest[j] == a[j + 1]);
            }
            lemma_merge_ascending(rest, b);
            let m = merge_by_offset(rest, b);
            let r = seq![a[0]] + m;
            assert forall|i: int, j: int| 0 <= i <= j < r.len() implies r[i].0 <= r[j].0 by {
                if i == 0 && j > 0 {
                    assert(r[j] == m[j - 1]);
                    assert(m[0].0 <= m[j - 1].0);
                    if rest.len() > 0 {
                        assert(rest[0] == a[1]);
                    }
                } else if i > 0 {
                    assert(r[i] == m[i - 1]);
                    assert(r[j] == m[j - 1]);
                }
            }
        } else {
            let rest = b.drop_first();
            assert forall|i: int, j: int| 0 <= i <= j < rest.len() implies rest[i].0 <= rest[j].0 by {
                assert(rest[i] == b[i + 1]);
                assert(rest[j] == b[j + 1]);
            }
            lemma_merge_ascending(a, rest);
            let m = merge_by_offset(a, rest);
            let r = seq![b[0]] + m;
            assert forall|i: int, j: int| 0 <= i <= j < r.len() implies r[i].0 <= r[j].0 by {
                if i == 0 && j > 0 {
                    assert(r[j] == m[j - 1]);
                    assert(m[0].0 <= m[j - 1].0);
                    if rest.len() > 0 {
                        assert(rest[0] == b[1]);
                    }
                } else if i > 0 {
                    assert(r[i] == m[i - 1]);
                    assert(r[j] == m[j - 1]);
                }
            }
        }
    }
}

/// The queries a chunk asked are answered in the order the stream asked them, whichever of the
/// two grammars each came in: the merged offsets never go backwards.
pub proof fn law_queries_in_stream_order(q: QueriesView, bytes: Seq<u8>)
    ensures
        ascending_queries(
            merge_by_offset(
                asked_strings(dcs_run(q.strings, bytes, MAX_DATA as int).1),
                asked_csis(csi_run(q.framer, bytes).1),
            ),
        ),
{
    lemma_csi_run_ascending(q.framer, bytes);
    lemma_dcs_run_ascending(q.strings, bytes, MAX_DATA as int);
    lemma_asked_csis_keep_order(csi_run(q.framer, bytes).1);
    lemma_asked_strings_keep_order(dcs_run(q.strings, bytes, MAX_DATA as int).1);
    lemma_merge_ascending(
        asked_strings(dcs_run(q.strings, bytes, MAX_DATA as int).1),
        asked_csis(csi_run(q.framer, bytes).1),
    );
}

proof fn lemma_amended_plain_start(x: Seq<u8>)
    requires
        x.len() > 0,
        x[0] != ESC,
    ensures
        sixel_amended(x) == seq![x[0]] + sixel_amended(x.skip(1)),
{
    reveal(sixel_amended);
    assert(!has_prefix(x, da1_prefix())) by {
        if has_prefix(x, da1_prefix()) {
            assert(x.subrange(0, 3)[0] == x[0]);
        }
    }
}

/// Amending never shortens a run, and keeps its first three bytes — so whether it opens a DA1
/// is the same before and after.
proof fn lemma_amended_keeps_head(x: Seq<u8>)
    ensures
        sixel_amended(x).len() >= x.len(),
        x.len() < 3 ==> sixel_amended(x) == x,
        x.len() >= 3 ==> sixel_amended(x).subrange(0, 3) == x.subrange(0, 3),
        x.len() > 0 ==> sixel_amended(x)[0] == x[0],
        has_prefix(sixel_amended(x), da1_prefix()) == has_prefix(x, da1_prefix()),
    decreases x.len(),
{
    reveal(sixel_amended);
    if x.len() == 0 {
    } else if has_prefix(x, da1_prefix()) && da1_params_end(x.skip(3)) is Some {
        let end = da1_params_end(x.skip(3))->0;
        lemma_amended_keeps_head(x.skip(3 + end + 1));
        let params = x.subrange(3, 3 + end);
        let t = sixel_amended(x);
        assert(t.subrange(0, 3) =~= da1_prefix());
        assert(x.subrange(0, 3) =~= da1_prefix());
    } else {
        lemma_amended_keeps_head(x.skip(1));
        let t = sixel_amended(x);
        let u = sixel_amended(x.skip(1));
        assert(t == seq![x[0]] + u);
        if x.len() < 3 {
            assert(x.skip(1).len() < 3);
            assert(seq![x[0]] + x.skip(1) =~= x);
        } else {
            if x.skip(1).len() >= 3 {
                assert(u.subrange(0, 3) == x.skip(1).subrange(0, 3));
                assert(u[0] == x[1] && u[1] == x[2]) by {
                    assert(u.subrange(0, 3)[0] == u[0]);
                    assert(u.subrange(0, 3)[1] == u[1]);
                    assert(x.skip(1).subrange(0, 3)[0] == x[1]);
                    assert(x.skip(1).subrange(0, 3)[1] == x[2]);
                }
            } else {
                assert(u == x.skip(1));
            }
            assert(t.subrange(0, 3) =~= x.subrange(0, 3));
        }
        if has_prefix(t, da1_prefix()) {
            assert(x.len() >= 3 ==> t.subrange(0, 3) == x.subrange(0, 3));
        }
    }
}

pub open spec fn all_da1_params(p: Seq<u8>) -> bool {
    forall|i: int| 0 <= i < p.len() ==> is_da1_param_byte(#[trigger] p[i])
}

proof fn lemma_params_pass_through(p: Seq<u8>, y: Seq<u8>)
    requires
        all_da1_params(p),
    ensures
        sixel_amended(p + y) == p + sixel_amended(y),
        leading_params(p + y) == p.len() + leading_params(y),
    decreases p.len(),
{
    if p.len() == 0 {
        assert(p + y =~= y);
        assert(p + sixel_amended(y) =~= sixel_amended(y));
    } else {
        let rest = p.drop_first();
        assert(all_da1_params(rest)) by {
            assert forall|i: int| 0 <= i < rest.len() implies is_da1_param_byte(#[trigger] rest[i]) by {
                assert(rest[i] == p[i + 1]);
            }
        }
        lemma_params_pass_through(rest, y);
        assert(is_da1_param_byte(p[0]));
        assert((p + y)[0] == p[0]);
        assert((p + y).skip(1) =~= rest + y);
        assert((p + y).drop_first() =~= rest + y);
        lemma_amended_plain_start(p + y);
        assert(seq![p[0]] + (rest + sixel_amended(y)) =~= p + sixel_amended(y));
    }
}

proof fn lemma_added_sixel_is_named(p: Seq<u8>)
    ensures
        names_sixel(p + seq![0x3bu8, 0x34u8]),
{
    let q = p + seq![0x3bu8, 0x34u8];
    assert(q.drop_last() =~= p.push(0x3bu8));
    assert(q.drop_last().drop_last() =~= p);
    lemma_split_nonempty(p, 0x3b);
    let fields = split_fields(q, 0x3b);
    let before = split_fields(p.push(0x3bu8), 0x3b);
    assert(before == split_fields(p, 0x3b).push(Seq::empty()));
    assert(fields == before.update(before.len() - 1, before.last().push(0x34u8)));
    assert(fields[fields.len() - 1] =~= seq![0x34u8]);
}

/// Amending a run of replies twice is amending it once: a DA1 that already lists attribute 4 —
/// including one this amended — is passed through, so the sixel capability is said once.
#[verifier::spinoff_prover]
#[verifier::rlimit(40)]
pub proof fn law_sixel_said_once(s: Seq<u8>)
    ensures
        sixel_amended(sixel_amended(s)) == sixel_amended(s),
    decreases s.len(),
{
    reveal(sixel_amended);
    let t = sixel_amended(s);
    if s.len() == 0 {
    } else if has_prefix(s, da1_prefix()) && da1_params_end(s.skip(3)) is Some {
        let end = da1_params_end(s.skip(3))->0;
        let params = s.subrange(3, 3 + end);
        let rest = s.skip(3 + end + 1);
        law_sixel_said_once(rest);
        lemma_leading_params_run(s.skip(3));
        let named = if names_sixel(params) {
            params
        } else {
            params + seq![0x3bu8, 0x34u8]
        };
        if !names_sixel(params) {
            lemma_added_sixel_is_named(params);
        }
        assert(all_da1_params(params)) by {
            assert forall|i: int| 0 <= i < params.len() implies is_da1_param_byte(#[trigger] params[i]) by {
                assert(params[i] == s.skip(3)[i]);
            }
        }
        assert(all_da1_params(named)) by {
            assert forall|i: int| 0 <= i < named.len() implies is_da1_param_byte(#[trigger] named[i]) by {
                if i < params.len() {
                    assert(named[i] == params[i]);
                }
            }
        }
        let tail = seq![0x63u8] + sixel_amended(rest);
        assert(t =~= da1_prefix() + (named + tail));
        assert(t.skip(3) =~= named + tail);
        lemma_params_pass_through(named, tail);
        assert(leading_params(tail) == 0);
        assert(da1_params_end(t.skip(3)) == Some(named.len() as int)) by {
            assert(t.skip(3)[named.len() as int] == 0x63);
        }
        assert(t.subrange(0, 3) =~= da1_prefix());
        assert(t.subrange(3, 3 + named.len() as int) =~= named);
        assert(t.skip(3 + named.len() as int + 1) =~= sixel_amended(rest));
    } else {
        let s1 = s.skip(1);
        law_sixel_said_once(s1);
        lemma_amended_keeps_head(s);
        lemma_amended_keeps_head(s1);
        assert(t == seq![s[0]] + sixel_amended(s1));
        assert(t.skip(1) =~= sixel_amended(s1));
        if has_prefix(s, da1_prefix()) {
            assert(s.subrange(0, 3) =~= da1_prefix());
            let n = leading_params(s.skip(3)) as int;
            lemma_leading_params_run(s.skip(3));
            let p = s.subrange(3, 3 + n);
            let y = s.skip(3 + n);
            assert(all_da1_params(p)) by {
                assert forall|i: int| 0 <= i < p.len() implies is_da1_param_byte(#[trigger] p[i]) by {
                    assert(p[i] == s.skip(3)[i]);
                }
            }
            assert(s.skip(3) =~= p + y);
            lemma_params_pass_through(p, y);
            assert(s1[0] == 0x5b);
            lemma_amended_plain_start(s1);
            assert(s1.skip(1)[0] == 0x3f);
            lemma_amended_plain_start(s1.skip(1));
            assert(s1.skip(1).skip(1) =~= p + y);
            assert(t.skip(3) =~= p + sixel_amended(y));
            lemma_params_pass_through(p, sixel_amended(y));
            lemma_amended_keeps_head(y);
            if y.len() > 0 {
                assert(!is_da1_param_byte(y[0])) by {
                    assert(y[0] == s.skip(3)[n as int]);
                }
                assert(leading_params(y) == 0);
                assert(leading_params(sixel_amended(y)) == 0);
                assert(t.skip(3)[n as int] == y[0]);
            } else {
                assert(sixel_amended(y) =~= Seq::<u8>::empty());
            }
            assert(da1_params_end(t.skip(3)) is None);
        }
    }
}

proof fn lemma_leading_params_run(x: Seq<u8>)
    ensures
        leading_params(x) <= x.len(),
        forall|i: int| 0 <= i < leading_params(x) ==> is_da1_param_byte(#[trigger] x[i]),
        leading_params(x) < x.len() ==> !is_da1_param_byte(x[leading_params(x) as int]),
    decreases x.len(),
{
    if x.len() > 0 && is_da1_param_byte(x[0]) {
        lemma_leading_params_run(x.drop_first());
        assert forall|i: int| 0 <= i < leading_params(x) implies is_da1_param_byte(#[trigger] x[i]) by {
            if i > 0 {
                assert(x[i] == x.drop_first()[i - 1]);
            }
        }
        if leading_params(x) < x.len() {
            assert(x[leading_params(x) as int] == x.drop_first()[leading_params(x.drop_first()) as int]);
        }
    }
}

} // verus!
