//! The table of tracked flows.

use crate::packet::{
    frame_flow, tcp_from_packet, Connection, ConnectionView, FlowId, LinkType, SegmentView,
    TcpSegment,
};
use crate::sni::{parse_sni, sni};
use crate::stat::{Stat, StatView};
use vstd::prelude::*;
use vstd::string::*;

verus! {

/// The mathematical content of a tracked flow.
pub struct FlowView {
    pub id: FlowId,
    pub stat: StatView,
}

/// The position of the flow `id` in `flows`: the first one, if there are
/// more.
pub open spec fn index_of(flows: Seq<FlowView>, id: FlowId) -> Option<int>
    decreases flows.len(),
{
    if flows.len() == 0 {
        None
    } else {
        match index_of(flows.drop_last(), id) {
            Some(i) => Some(i),
            None => if flows.last().id == id {
                Some(flows.len() - 1)
            } else {
                None
            },
        }
    }
}

/// The record of the flow `id`, if it is tracked.
pub open spec fn lookup(flows: Seq<FlowView>, id: FlowId) -> Option<StatView> {
    match index_of(flows, id) {
        Some(i) => Some(flows[i].stat),
        None => None,
    }
}

/// No flow occurs twice.
pub open spec fn distinct(flows: Seq<FlowView>) -> bool {
    forall|i: int, j: int| 0 <= i < j < flows.len() ==> flows[i].id != flows[j].id
}

/// Whether a segment of `n` payload bytes of the flow of `conn` can be
/// counted without exceeding a machine word.
pub open spec fn room_for(flows: Seq<FlowView>, conn: ConnectionView, n: nat) -> bool {
    match lookup(flows, conn.key()) {
        Some(stat) => stat.has_room(n, conn.is_sent),
        None => true,
    }
}

/// Whether the payload of a captured frame can be counted for its flow
/// without exceeding a machine word. A frame that cannot be read, and one
/// of a flow that is not tracked, count nothing.
pub open spec fn room_for_frame(flows: Seq<FlowView>, frame: Seq<u8>, linktype: LinkType) -> bool {
    match frame_flow(frame, linktype) {
        Some((conn, seg)) => room_for(flows, conn, seg.payload.len()),
        None => true,
    }
}

/// Whether `n` more bytes can be counted for any flow in any direction.
pub open spec fn room_for_all(flows: Seq<FlowView>, n: nat) -> bool {
    forall|i: int|
        0 <= i < flows.len() ==> (#[trigger] flows[i]).stat.has_room(n, true)
            && flows[i].stat.has_room(n, false)
}

/// The table after a segment of `n` payload bytes of `conn`, with FIN or
/// RST if `last`, where `host` is the server name found in the payload.
///
/// A tracked flow counts the segment. An untracked flow becomes tracked if
/// the segment travels from the client, has a payload, and that payload
/// announces a server name. Nothing else changes.
pub open spec fn observed(
    flows: Seq<FlowView>,
    conn: ConnectionView,
    n: nat,
    last: bool,
    host: Option<Seq<char>>,
) -> Seq<FlowView> {
    match index_of(flows, conn.key()) {
        Some(i) => flows.update(
            i,
            FlowView { id: flows[i].id, stat: flows[i].stat.after_packet(n, conn.is_sent, last) },
        ),
        None => if conn.is_sent && n > 0 && host is Some {
            flows.push(FlowView { id: conn.key(), stat: StatView::new(host.unwrap(), n) })
        } else {
            flows
        },
    }
}

/// What a segment makes of the record of its own flow: a tracked flow
/// counts it, and an untracked one becomes tracked exactly if the segment
/// travels from the client, has a payload, and a server name was found in
/// it.
pub open spec fn counted(
    stat: Option<StatView>,
    is_sent: bool,
    n: nat,
    last: bool,
    host: Option<Seq<char>>,
) -> Option<StatView> {
    match stat {
        Some(stat) => Some(stat.after_packet(n, is_sent, last)),
        None => if is_sent && n > 0 && host is Some {
            Some(StatView::new(host.unwrap(), n))
        } else {
            None
        },
    }
}

/// The record of the flow `id` after a segment of `conn`: the segment
/// changes the record of its own flow alone.
pub open spec fn lookup_observed(
    flows: Seq<FlowView>,
    conn: ConnectionView,
    n: nat,
    last: bool,
    host: Option<Seq<char>>,
    id: FlowId,
) -> Option<StatView> {
    if id == conn.key() {
        counted(lookup(flows, id), conn.is_sent, n, last, host)
    } else {
        lookup(flows, id)
    }
}

/// The record of the flow `id` after a captured frame.
pub open spec fn lookup_after_frame(
    flows: Seq<FlowView>,
    frame: Seq<u8>,
    linktype: LinkType,
    id: FlowId,
) -> Option<StatView> {
    match frame_flow(frame, linktype) {
        Some((conn, seg)) => lookup_observed(
            flows,
            conn,
            seg.payload.len(),
            seg.fin || seg.rst,
            sni(seg.payload),
            id,
        ),
        None => lookup(flows, id),
    }
}

/// The table after a TCP segment of `conn`.
pub open spec fn after_segment(flows: Seq<FlowView>, conn: ConnectionView, seg: SegmentView) -> Seq<
    FlowView,
> {
    observed(flows, conn, seg.payload.len(), seg.fin || seg.rst, sni(seg.payload))
}

/// The table after a captured frame: a frame that cannot be read changes
/// nothing.
pub open spec fn after_frame(flows: Seq<FlowView>, frame: Seq<u8>, linktype: LinkType) -> Seq<
    FlowView,
> {
    match frame_flow(frame, linktype) {
        Some((conn, seg)) => after_segment(flows, conn, seg),
        None => flows,
    }
}

/// The table at the start of the next epoch: closing flows are gone, the
/// others have their epoch counters cleared and their stall count brought
/// up to date.
pub open spec fn epoch_end(flows: Seq<FlowView>) -> Seq<FlowView>
    decreases flows.len(),
{
    if flows.len() == 0 {
        Seq::empty()
    } else {
        let flow = flows.last();
        let rest = epoch_end(flows.drop_last());
        if flow.stat.closing {
            rest
        } else {
            rest.push(FlowView { id: flow.id, stat: flow.stat.after_epoch() })
        }
    }
}

/// What the end of an epoch makes of the record of one flow: a closing
/// flow is no longer tracked, every other tracked flow is still tracked
/// with its record brought to the next epoch, and no flow becomes tracked.
pub open spec fn carried_over(stat: Option<StatView>) -> Option<StatView> {
    match stat {
        Some(stat) => if stat.closing {
            None
        } else {
            Some(stat.after_epoch())
        },
        None => None,
    }
}

/// Whether the stall count of every flow can still grow.
pub open spec fn can_stall(flows: Seq<FlowView>) -> bool {
    forall|i: int| 0 <= i < flows.len() ==> (#[trigger] flows[i]).stat.stall_count < usize::MAX
}

/// `index_of` gives the first position that holds `id`.
pub proof fn lemma_index_of(flows: Seq<FlowView>, id: FlowId)
    ensures
        match index_of(flows, id) {
            Some(i) => 0 <= i < flows.len() && flows[i].id == id && forall|j: int|
                0 <= j < i ==> flows[j].id != id,
            None => forall|j: int| 0 <= j < flows.len() ==> flows[j].id != id,
        },
    decreases flows.len(),
{
    if flows.len() > 0 {
        let front = flows.drop_last();
        lemma_index_of(front, id);
        assert(forall|j: int| 0 <= j < front.len() ==> front[j] == flows[j]);
        match index_of(front, id) {
            Some(i) => {},
            None => {
                assert forall|j: int| 0 <= j < flows.len() - 1 implies flows[j].id != id by {
                    assert(front[j].id != id);
                }
            },
        }
    }
}

/// A position that holds `id`, before which none does, is what `index_of`
/// gives.
pub proof fn lemma_index_of_first(flows: Seq<FlowView>, id: FlowId, i: int)
    requires
        0 <= i < flows.len(),
        flows[i].id == id,
        forall|j: int| 0 <= j < i ==> flows[j].id != id,
    ensures
        index_of(flows, id) == Some(i),
{
    lemma_index_of(flows, id);
}

/// The end of an epoch, flow by flow: see [`carried_over`].
pub proof fn lemma_epoch_end_lookup(flows: Seq<FlowView>, id: FlowId)
    requires
        distinct(flows),
    ensures
        lookup(epoch_end(flows), id) == carried_over(lookup(flows, id)),
    decreases flows.len(),
{
    if flows.len() > 0 {
        let front = flows.drop_last();
        let flow = flows.last();
        assert(distinct(front)) by {
            assert(forall|j: int| 0 <= j < front.len() ==> front[j] == flows[j]);
        }
        lemma_epoch_end_lookup(front, id);
        lemma_index_of(front, id);
        lemma_index_of(epoch_end(front), id);
        if flow.id == id {
            assert(index_of(front, id) is None) by {
                if index_of(front, id) is Some {
                    let i = index_of(front, id).unwrap();
                    assert(front[i] == flows[i]);
                    assert(flows[i].id != flows[flows.len() - 1].id);
                }
            }
        }
        if !flow.stat.closing {
            let next = FlowView { id: flow.id, stat: flow.stat.after_epoch() };
            assert(epoch_end(front).push(next).drop_last() == epoch_end(front));
        }
    }
}

/// Where the flows of two tables agree position by position, `index_of`
/// agrees.
proof fn lemma_index_of_same_ids(a: Seq<FlowView>, b: Seq<FlowView>, id: FlowId)
    requires
        a.len() == b.len(),
        forall|i: int| 0 <= i < a.len() ==> a[i].id == b[i].id,
    ensures
        index_of(a, id) == index_of(b, id),
{
    lemma_index_of(a, id);
    lemma_index_of(b, id);
    match index_of(a, id) {
        Some(i) => {
            lemma_index_of_first(b, id, i);
        },
        None => {
            if index_of(b, id) is Some {
                let j = index_of(b, id).unwrap();
                assert(a[j].id == id);
            }
        },
    }
}

/// A segment, flow by flow: see [`lookup_observed`].
pub proof fn lemma_observed_lookup(
    flows: Seq<FlowView>,
    conn: ConnectionView,
    n: nat,
    last: bool,
    host: Option<Seq<char>>,
    id: FlowId,
)
    ensures
        lookup(observed(flows, conn, n, last, host), id) == lookup_observed(
            flows,
            conn,
            n,
            last,
            host,
            id,
        ),
{
    let after = observed(flows, conn, n, last, host);
    lemma_index_of(flows, conn.key());
    lemma_index_of(flows, id);
    match index_of(flows, conn.key()) {
        Some(i) => {
            lemma_index_of_same_ids(flows, after, id);
        },
        None => {
            if conn.is_sent && n > 0 && host is Some {
                assert(after.drop_last() == flows);
            }
        },
    }
}

/// A record comes into being exactly when a segment of an untracked flow
/// travels from the client, has a payload, and that payload announces a
/// server name; it then starts from the length of that payload.
pub proof fn lemma_record_created_iff(flows: Seq<FlowView>, conn: ConnectionView, seg: SegmentView)
    requires
        lookup(flows, conn.key()) is None,
    ensures
        lookup(after_segment(flows, conn, seg), conn.key()) is Some <==> conn.is_sent
            && seg.payload.len() > 0 && sni(seg.payload) is Some,
        lookup(after_segment(flows, conn, seg), conn.key()) is Some ==> lookup(
            after_segment(flows, conn, seg),
            conn.key(),
        ) == Some(StatView::new(sni(seg.payload).unwrap(), seg.payload.len())),
{
    lemma_observed_lookup(
        flows,
        conn,
        seg.payload.len(),
        seg.fin || seg.rst,
        sni(seg.payload),
        conn.key(),
    );
}

/// The totals of a tracked flow never go down: not by a segment, whatever
/// flow it belongs to, and not by the end of an epoch, which leaves them as
/// they are and clears the epoch counters.
pub proof fn lemma_totals_never_decrease(
    flows: Seq<FlowView>,
    conn: ConnectionView,
    seg: SegmentView,
    id: FlowId,
)
    requires
        distinct(flows),
        lookup(flows, id) is Some,
    ensures
        lookup(after_segment(flows, conn, seg), id) is Some,
        lookup(after_segment(flows, conn, seg), id).unwrap().total_sent >= lookup(
            flows,
            id,
        ).unwrap().total_sent,
        lookup(after_segment(flows, conn, seg), id).unwrap().total_received >= lookup(
            flows,
            id,
        ).unwrap().total_received,
        lookup(epoch_end(flows), id) is Some ==> {
            let next = lookup(epoch_end(flows), id).unwrap();
            &&& next.total_sent == lookup(flows, id).unwrap().total_sent
            &&& next.total_received == lookup(flows, id).unwrap().total_received
            &&& next.sent == 0
            &&& next.received == 0
        },
{
    lemma_observed_lookup(flows, conn, seg.payload.len(), seg.fin || seg.rst, sni(seg.payload), id);
    lemma_epoch_end_lookup(flows, id);
}

/// A flow that is closing stays so under every segment, and is no longer
/// tracked after the end of the epoch. The end of an epoch starts to track
/// nothing, and neither does a segment that travels to the client, that has
/// no payload, or in whose payload no server name is found.
pub proof fn lemma_closing_flow_leaves(
    flows: Seq<FlowView>,
    conn: ConnectionView,
    seg: SegmentView,
    id: FlowId,
)
    requires
        distinct(flows),
    ensures
        lookup(flows, id) is Some && lookup(flows, id).unwrap().closing ==> {
            &&& lookup(after_segment(flows, conn, seg), id) is Some
            &&& lookup(after_segment(flows, conn, seg), id).unwrap().closing
            &&& lookup(epoch_end(flows), id) is None
        },
        lookup(flows, id) is Some && id == conn.key() && (seg.fin || seg.rst) ==> lookup(
            after_segment(flows, conn, seg),
            id,
        ).unwrap().closing,
        lookup(flows, id) is None ==> lookup(epoch_end(flows), id) is None,
        lookup(flows, id) is None && (!conn.is_sent || seg.payload.len() == 0 || sni(seg.payload)
            is None) ==> lookup(after_segment(flows, conn, seg), id) is None,
{
    lemma_observed_lookup(flows, conn, seg.payload.len(), seg.fin || seg.rst, sni(seg.payload), id);
    lemma_epoch_end_lookup(flows, id);
}

/// A flow that has been idle for long stays tracked over the end of an
/// epoch as long as it is not closing; an epoch with traffic on it brings
/// its stall count back to zero, and an epoch without adds one to it.
pub proof fn lemma_idle_flow_stays(flows: Seq<FlowView>, id: FlowId)
    requires
        distinct(flows),
        lookup(flows, id) is Some,
        !lookup(flows, id).unwrap().closing,
    ensures
        lookup(epoch_end(flows), id) is Some,
        lookup(epoch_end(flows), id).unwrap().stall_count == if lookup(flows, id).unwrap().idle() {
            lookup(flows, id).unwrap().stall_count + 1
        } else {
            0
        },
{
    lemma_epoch_end_lookup(flows, id);
}

/// A table without a flow twice stays so under every segment.
pub proof fn lemma_distinct_preserved(
    flows: Seq<FlowView>,
    conn: ConnectionView,
    n: nat,
    last: bool,
    host: Option<Seq<char>>,
)
    requires
        distinct(flows),
    ensures
        distinct(observed(flows, conn, n, last, host)),
{
    lemma_index_of(flows, conn.key());
}

/// Room for the length of a frame on every flow, in both directions, is
/// room for its payload on its own flow.
pub proof fn lemma_room_for_all_suffices(
    flows: Seq<FlowView>,
    n: nat,
    frame: Seq<u8>,
    linktype: LinkType,
)
    requires
        room_for_all(flows, n),
        frame.len() <= n,
    ensures
        room_for_frame(flows, frame, linktype),
{
    match frame_flow(frame, linktype) {
        Some((conn, seg)) => {
            lemma_index_of(flows, conn.key());
        },
        None => {},
    }
}

/// Two sequences that agree from two positions on agree at those positions
/// and from the next ones on.
proof fn lemma_skip_next(a: Seq<FlowView>, i: int, b: Seq<FlowView>, j: int)
    requires
        0 <= i < a.len(),
        0 <= j <= b.len(),
        a.skip(i) == b.skip(j),
    ensures
        j < b.len(),
        a[i] == b[j],
        a.skip(i + 1) == b.skip(j + 1),
{
    assert(a.skip(i).len() == b.skip(j).len());
    assert(a[i] == a.skip(i)[0]);
    assert(a.skip(i + 1) =~= a.skip(i).skip(1));
    assert(b.skip(j + 1) =~= b.skip(j).skip(1));
}

#[derive(Debug)]
struct Flow {
    id: FlowId,
    stat: Stat,
}

/// The tracked flows, each with its counters, in the order in which they
/// were first seen.
#[derive(Debug)]
pub struct FlowTable {
    flows: Vec<Flow>,
}

impl View for FlowTable {
    type V = Seq<FlowView>;

    closed spec fn view(&self) -> Seq<FlowView> {
        Seq::new(
            self.flows@.len(),
            |i: int| FlowView { id: self.flows@[i].id, stat: self.flows@[i].stat@ },
        )
    }
}

impl FlowTable {
    /// No flow occurs twice, and every record is well-formed.
    pub open spec fn wf(&self) -> bool {
        &&& distinct(self@)
        &&& forall|i: int| 0 <= i < self@.len() ==> (#[trigger] self@[i]).stat.wf()
    }

    /// A table without flows.
    pub fn new() -> (table: FlowTable)
        ensures
            table@ == Seq::<FlowView>::empty(),
            table.wf(),
    {
        let table = FlowTable { flows: Vec::new() };
        assert(table@ =~= Seq::<FlowView>::empty());
        table
    }

    /// The number of tracked flows.
    pub fn len(&self) -> (n: usize)
        ensures
            n == self@.len(),
    {
        self.flows.len()
    }

    /// The identity of the flow at position `i`.
    pub fn id_at(&self, i: usize) -> (id: FlowId)
        requires
            i < self@.len(),
        ensures
            id == self@[i as int].id,
    {
        self.flows[i].id
    }

    /// The record of the flow at position `i`.
    pub fn stat_at(&self, i: usize) -> (stat: &Stat)
        requires
            i < self@.len(),
        ensures
            stat@ == self@[i as int].stat,
    {
        &self.flows[i].stat
    }

    /// The position of a flow.
    pub fn position(&self, id: FlowId) -> (r: Option<usize>)
        ensures
            match r {
                Some(i) => index_of(self@, id) == Some(i as int),
                None => index_of(self@, id) is None,
            },
    {
        let mut i: usize = 0;
        while i < self.flows.len()
            invariant
                i <= self.flows.len(),
                forall|j: int| 0 <= j < i ==> self@[j].id != id,
            decreases self.flows.len() - i,
        {
            if self.flows[i].id == id {
                proof {
                    lemma_index_of_first(self@, id, i as int);
                }
                return Some(i);
            }
            i += 1;
        }
        proof {
            lemma_index_of(self@, id);
        }
        None
    }

    /// The record of the flow that `conn` belongs to.
    pub fn get(&self, conn: &Connection) -> (r: Option<&Stat>)
        ensures
            match r {
                Some(stat) => lookup(self@, conn@.key()) == Some(stat@),
                None => lookup(self@, conn@.key()) is None,
            },
    {
        match self.position(conn.key()) {
            Some(i) => {
                proof {
                    lemma_index_of(self@, conn@.key());
                }
                Some(&self.flows[i].stat)
            },
            None => None,
        }
    }

    /// Whether [`FlowTable::observe`] and [`FlowTable::update`] may be
    /// called for a segment of `conn` with `n` payload bytes.
    pub fn has_room_for(&self, conn: &Connection, n: usize) -> (ok: bool)
        ensures
            ok == room_for(self@, conn@, n as nat),
    {
        match self.get(conn) {
            Some(stat) => stat.has_room(n, conn.is_sent()),
            None => true,
        }
    }

    /// Whether `n` more bytes can be counted for any flow in any
    /// direction. If so, [`FlowTable::process`] may be called for every
    /// frame of up to `n` bytes: see [`lemma_room_for_all_suffices`].
    pub fn has_room(&self, n: usize) -> (ok: bool)
        ensures
            ok == room_for_all(self@, n as nat),
    {
        let mut i: usize = 0;
        while i < self.flows.len()
            invariant
                i <= self.flows.len(),
                forall|j: int|
                    0 <= j < i ==> (#[trigger] self@[j]).stat.has_room(n as nat, true)
                        && self@[j].stat.has_room(n as nat, false),
            decreases self.flows.len() - i,
        {
            let stat = &self.flows[i].stat;
            if !stat.has_room(n, true) || !stat.has_room(n, false) {
                assert(!(self@[i as int].stat.has_room(n as nat, true) && self@[i as int].stat.has_room(
                    n as nat,
                    false,
                )));
                return false;
            }
            i += 1;
        }
        true
    }

    /// Applies a segment of `n` payload bytes of `conn`, with FIN or RST if
    /// `last`, where `host` is the server name found in its payload.
    pub fn observe(&mut self, conn: &Connection, n: usize, last: bool, host: Option<&str>)
        requires
            old(self).wf(),
            room_for(old(self)@, conn@, n as nat),
        ensures
            final(self).wf(),
            final(self)@ == observed(
                old(self)@,
                conn@,
                n as nat,
                last,
                match host {
                    Some(name) => Some(name@),
                    None => None,
                },
            ),
            forall|id: FlowId| #[trigger]
                lookup(final(self)@, id) == lookup_observed(
                    old(self)@,
                    conn@,
                    n as nat,
                    last,
                    match host {
                        Some(name) => Some(name@),
                        None => None,
                    },
                    id,
                ),
    {
        let ghost name = match host {
            Some(name) => Some(name@),
            None => None,
        };
        proof {
            assert forall|id: FlowId| #[trigger]
                lookup(observed(self@, conn@, n as nat, last, name), id) == lookup_observed(
                    self@,
                    conn@,
                    n as nat,
                    last,
                    name,
                    id,
                ) by {
                lemma_observed_lookup(self@, conn@, n as nat, last, name, id);
            }
        }
        match self.position(conn.key()) {
            Some(i) => {
                proof {
                    lemma_index_of(self@, conn@.key());
                }
                self.count_at(i, n, conn.is_sent(), last);
            },
            None => {
                if conn.is_sent() && n > 0 {
                    match host {
                        Some(name) => {
                            self.track(conn.key(), name, n);
                        },
                        None => {},
                    }
                }
            },
        }
    }

    /// Counts a segment for the flow at position `i`.
    fn count_at(&mut self, i: usize, n: usize, is_sent: bool, last: bool)
        requires
            old(self).wf(),
            i < old(self)@.len(),
            old(self)@[i as int].stat.has_room(n as nat, is_sent),
        ensures
            final(self).wf(),
            final(self)@ == old(self)@.update(
                i as int,
                FlowView {
                    id: old(self)@[i as int].id,
                    stat: old(self)@[i as int].stat.after_packet(n as nat, is_sent, last),
                },
            ),
    {
        assert(self@[i as int].stat.wf());
        self.flows[i].stat.incr(n, is_sent, last);
        assert(self@ =~= old(self)@.update(
            i as int,
            FlowView {
                id: old(self)@[i as int].id,
                stat: old(self)@[i as int].stat.after_packet(n as nat, is_sent, last),
            },
        ));
    }

    /// Starts to track a flow that is not tracked yet.
    fn track(&mut self, id: FlowId, host: &str, hello_len: usize)
        requires
            old(self).wf(),
            index_of(old(self)@, id) is None,
        ensures
            final(self).wf(),
            final(self)@ == old(self)@.push(
                FlowView { id, stat: StatView::new(host@, hello_len as nat) },
            ),
    {
        proof {
            lemma_index_of(self@, id);
        }
        let stat = Stat::new(String::from_str(host), hello_len);
        self.flows.push(Flow { id, stat });
        assert(self@ =~= old(self)@.push(
            FlowView { id, stat: StatView::new(host@, hello_len as nat) },
        ));
    }

    /// Applies a TCP segment of `conn`: a tracked flow counts it, and an
    /// untracked flow is searched for a server name if the segment travels
    /// from the client and has a payload.
    pub fn update(&mut self, conn: &Connection, seg: &TcpSegment)
        requires
            old(self).wf(),
            room_for(old(self)@, conn@, seg@.payload.len()),
        ensures
            final(self).wf(),
            final(self)@ == after_segment(old(self)@, conn@, seg@),
            forall|id: FlowId| #[trigger]
                lookup(final(self)@, id) == lookup_observed(
                    old(self)@,
                    conn@,
                    seg@.payload.len(),
                    seg@.fin || seg@.rst,
                    sni(seg@.payload),
                    id,
                ),
    {
        proof {
            assert forall|id: FlowId| #[trigger]
                lookup(after_segment(self@, conn@, seg@), id) == lookup_observed(
                    self@,
                    conn@,
                    seg@.payload.len(),
                    seg@.fin || seg@.rst,
                    sni(seg@.payload),
                    id,
                ) by {
                lemma_observed_lookup(
                    self@,
                    conn@,
                    seg@.payload.len(),
                    seg@.fin || seg@.rst,
                    sni(seg@.payload),
                    id,
                );
            }
        }
        let data = seg.payload();
        match self.position(conn.key()) {
            Some(i) => {
                proof {
                    lemma_index_of(self@, conn@.key());
                }
                self.count_at(i, data.len(), conn.is_sent(), seg.fin() || seg.rst());
            },
            None => {
                if conn.is_sent() && data.len() > 0 {
                    match parse_sni(data) {
                        Some(name) => {
                            self.track(conn.key(), name, data.len());
                        },
                        None => {},
                    }
                }
            },
        }
    }

    /// Whether [`FlowTable::process`] may be called for a frame.
    pub fn can_process(&self, packet: &[u8], linktype: LinkType) -> (ok: bool)
        ensures
            ok == room_for_frame(self@, packet@, linktype),
    {
        match tcp_from_packet(packet, linktype) {
            Some((conn, seg)) => self.has_room_for(&conn, seg.payload().len()),
            None => true,
        }
    }

    /// Applies a captured frame; one that cannot be read is dropped.
    pub fn process(&mut self, packet: &[u8], linktype: LinkType)
        requires
            old(self).wf(),
            room_for_frame(old(self)@, packet@, linktype),
        ensures
            final(self).wf(),
            final(self)@ == after_frame(old(self)@, packet@, linktype),
            forall|id: FlowId| #[trigger]
                lookup(final(self)@, id) == lookup_after_frame(old(self)@, packet@, linktype, id),
    {
        match tcp_from_packet(packet, linktype) {
            Some((conn, seg)) => {
                self.update(&conn, &seg);
            },
            None => {},
        }
    }

    /// Whether [`FlowTable::end_epoch`] may be called.
    pub fn can_end_epoch(&self) -> (ok: bool)
        ensures
            ok == can_stall(self@),
    {
        let mut i: usize = 0;
        while i < self.flows.len()
            invariant
                i <= self.flows.len(),
                forall|j: int| 0 <= j < i ==> (#[trigger] self@[j]).stat.stall_count < usize::MAX,
            decreases self.flows.len() - i,
        {
            if self.flows[i].stat.stall_count() == usize::MAX {
                assert(!(self@[i as int].stat.stall_count < usize::MAX));
                return false;
            }
            i += 1;
        }
        true
    }

    /// Ends the epoch: forgets the closing flows, and clears the epoch
    /// counters of the others.
    pub fn end_epoch(&mut self)
        requires
            old(self).wf(),
            can_stall(old(self)@),
        ensures
            final(self).wf(),
            final(self)@ == epoch_end(old(self)@),
            forall|id: FlowId| #[trigger]
                lookup(final(self)@, id) == carried_over(lookup(old(self)@, id)),
    {
        let mut i: usize = 0;
        let ghost mut done: int = 0;
        assert(self@.take(0) =~= epoch_end(old(self)@.take(0)));
        assert(self@.skip(0) =~= old(self)@.skip(0));
        while i < self.flows.len()
            invariant
                i <= self.flows.len(),
                0 <= done <= old(self)@.len(),
                self@.len() - i == old(self)@.len() - done,
                self@.take(i as int) == epoch_end(old(self)@.take(done)),
                self@.skip(i as int) == old(self)@.skip(done),
                self.wf(),
                can_stall(old(self)@),
            decreases self.flows.len() - i,
        {
            let ghost before = self@;
            let ghost seen = old(self)@.take(done + 1);
            proof {
                lemma_skip_next(before, i as int, old(self)@, done);
                assert(seen.drop_last() == old(self)@.take(done));
            }
            if self.flows[i].stat.closing() {
                self.flows.remove(i);
                assert(self@ =~= before.remove(i as int));
                assert(self@.take(i as int) =~= before.take(i as int));
                assert(self@.skip(i as int) =~= before.skip(i + 1));
            } else {
                self.flows[i].stat.end_epoch();
                assert(self@ =~= before.update(
                    i as int,
                    FlowView { id: before[i as int].id, stat: before[i as int].stat.after_epoch() },
                ));
                assert(self@.take(i + 1) =~= before.take(i as int).push(self@[i as int]));
                assert(self@.skip(i + 1) =~= before.skip(i + 1));
                i += 1;
            }
            proof {
                done = done + 1;
            }
        }
        proof {
            assert(self@.take(i as int) == self@);
            assert(old(self)@.take(done) == old(self)@);
            assert forall|id: FlowId| #[trigger]
                lookup(self@, id) == carried_over(lookup(old(self)@, id)) by {
                lemma_epoch_end_lookup(old(self)@, id);
            }
        }
    }
}

} // verus!
