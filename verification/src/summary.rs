//! The per-hostname summary of the flow table.

use crate::order::{
    lemma_lex_asymmetric, lemma_lex_irreflexive, lemma_lex_transitive, lemma_text_total, str_lt,
    text_lt,
};
use crate::stat::{Stat, StatView, STALL_LIMIT};
use crate::packet::FlowId;
use crate::table::{can_stall, carried_over, epoch_end, lookup, FlowTable, FlowView};
use vstd::prelude::*;
use vstd::string::*;

verus! {

/// The mathematical content of a [`Row`].
pub struct RowView {
    pub hostname: Seq<char>,
    /// Number of flows to that host.
    pub count: nat,
    pub sent: nat,
    pub received: nat,
    pub total_sent: nat,
    pub total_received: nat,
}

impl RowView {
    /// The row of a host without flows.
    pub open spec fn empty(hostname: Seq<char>) -> RowView {
        RowView { hostname, count: 0, sent: 0, received: 0, total_sent: 0, total_received: 0 }
    }

    /// The row with one more flow.
    pub open spec fn plus(self, stat: StatView) -> RowView {
        RowView {
            hostname: self.hostname,
            count: self.count + 1,
            sent: self.sent + stat.sent,
            received: self.received + stat.received,
            total_sent: self.total_sent + stat.total_sent,
            total_received: self.total_received + stat.total_received,
        }
    }

    /// Whether the sums fit a machine word.
    pub open spec fn fits(self) -> bool {
        self.total_sent <= usize::MAX && self.total_received <= usize::MAX
    }
}

/// Whether `flow` counts for the row of `host`: it is a flow to that host,
/// and it has not been idle for too long.
pub open spec fn shown(flow: FlowView, host: Seq<char>) -> bool {
    flow.stat.visible() && flow.stat.hostname == host
}

/// The number and the summed counters of the flows that count for `host`.
pub open spec fn host_totals(flows: Seq<FlowView>, host: Seq<char>) -> RowView
    decreases flows.len(),
{
    if flows.len() == 0 {
        RowView::empty(host)
    } else if shown(flows.last(), host) {
        host_totals(flows.drop_last(), host).plus(flows.last().stat)
    } else {
        host_totals(flows.drop_last(), host)
    }
}

/// Whether the sums of every host fit a machine word.
pub open spec fn totals_fit(flows: Seq<FlowView>) -> bool {
    forall|host: Seq<char>| (#[trigger] host_totals(flows, host)).fits()
}

/// Whether one of `rows` is the row of `host`.
pub open spec fn has_row(rows: Seq<RowView>, host: Seq<char>) -> bool {
    exists|i: int| 0 <= i < rows.len() && (#[trigger] rows[i]).hostname == host
}

/// The order of rows: more received in the epoch comes first, and among
/// equals the host name decides.
pub open spec fn precedes(a: RowView, b: RowView) -> bool {
    a.received > b.received || (a.received == b.received && text_lt(a.hostname, b.hostname))
}

/// Every row comes before the ones after it.
pub open spec fn ordered(rows: Seq<RowView>) -> bool {
    forall|i: int, j: int| 0 <= i < j < rows.len() ==> precedes(rows[i], rows[j])
}

/// Every row sums the flows that count for its host, and there is at least
/// one such flow.
pub open spec fn rows_sum(rows: Seq<RowView>, flows: Seq<FlowView>) -> bool {
    forall|i: int|
        0 <= i < rows.len() ==> (#[trigger] rows[i]).count >= 1 && rows[i] == host_totals(
            flows,
            rows[i].hostname,
        )
}

/// Every flow that has not been idle for too long has a row.
pub open spec fn rows_cover(rows: Seq<RowView>, flows: Seq<FlowView>) -> bool {
    forall|k: int|
        0 <= k < flows.len() && (#[trigger] flows[k]).stat.visible() ==> has_row(
            rows,
            flows[k].stat.hostname,
        )
}

/// No two rows are of the same host.
pub open spec fn distinct_hosts(rows: Seq<RowView>) -> bool {
    forall|i: int, j: int| 0 <= i < j < rows.len() ==> rows[i].hostname != rows[j].hostname
}

/// `rows` is the summary of `flows`: one row for each host with a flow that
/// counts, with the sums of those flows, in order.
pub open spec fn is_summary(rows: Seq<RowView>, flows: Seq<FlowView>) -> bool {
    &&& rows_sum(rows, flows)
    &&& rows_cover(rows, flows)
    &&& ordered(rows)
}

/// One line of the summary.
#[derive(Debug)]
pub struct Row {
    pub hostname: String,
    pub count: usize,
    pub sent: usize,
    pub received: usize,
    pub total_sent: usize,
    pub total_received: usize,
}

impl View for Row {
    type V = RowView;

    open spec fn view(&self) -> RowView {
        RowView {
            hostname: self.hostname@,
            count: self.count as nat,
            sent: self.sent as nat,
            received: self.received as nat,
            total_sent: self.total_sent as nat,
            total_received: self.total_received as nat,
        }
    }
}

impl DeepView for Row {
    type V = RowView;

    open spec fn deep_view(&self) -> RowView {
        self@
    }
}

/// The sums over the first `k + 1` flows, from those over the first `k`.
pub proof fn lemma_totals_step(flows: Seq<FlowView>, k: int, host: Seq<char>)
    requires
        0 <= k < flows.len(),
    ensures
        host_totals(flows.take(k + 1), host) == if shown(flows[k], host) {
            host_totals(flows.take(k), host).plus(flows[k].stat)
        } else {
            host_totals(flows.take(k), host)
        },
{
    assert(flows.take(k + 1).drop_last() == flows.take(k));
}

/// The sums over a part of the table from its start are at most those over
/// the whole, no row has more flows than there are, and the sums of an
/// epoch are at most the sums since the start.
pub proof fn lemma_totals_bounds(flows: Seq<FlowView>, k: int, host: Seq<char>)
    requires
        0 <= k <= flows.len(),
        forall|i: int| 0 <= i < flows.len() ==> (#[trigger] flows[i]).stat.wf(),
    ensures
        host_totals(flows.take(k), host).count <= k,
        host_totals(flows.take(k), host).sent <= host_totals(flows.take(k), host).total_sent,
        host_totals(flows.take(k), host).received <= host_totals(
            flows.take(k),
            host,
        ).total_received,
        host_totals(flows.take(k), host).total_sent <= host_totals(flows, host).total_sent,
        host_totals(flows.take(k), host).total_received <= host_totals(
            flows,
            host,
        ).total_received,
    decreases flows.len() - k, k,
{
    if k > 0 {
        lemma_totals_prefix_inner(flows, k, host);
    }
    if k < flows.len() {
        lemma_totals_bounds(flows, k + 1, host);
        lemma_totals_step(flows, k, host);
    } else {
        assert(flows.take(k) == flows);
    }
}

/// The part of [`lemma_totals_bounds`] that looks at the flows before `k`.
proof fn lemma_totals_prefix_inner(flows: Seq<FlowView>, k: int, host: Seq<char>)
    requires
        0 <= k <= flows.len(),
        forall|i: int| 0 <= i < flows.len() ==> (#[trigger] flows[i]).stat.wf(),
    ensures
        host_totals(flows.take(k), host).count <= k,
        host_totals(flows.take(k), host).sent <= host_totals(flows.take(k), host).total_sent,
        host_totals(flows.take(k), host).received <= host_totals(
            flows.take(k),
            host,
        ).total_received,
    decreases k,
{
    if k > 0 {
        lemma_totals_prefix_inner(flows, k - 1, host);
        lemma_totals_step(flows, k - 1, host);
        assert(flows[k - 1].stat.wf());
    }
}

/// A host without a flow that counts has the empty row.
pub proof fn lemma_totals_empty(flows: Seq<FlowView>, host: Seq<char>)
    requires
        forall|j: int| 0 <= j < flows.len() ==> !shown(#[trigger] flows[j], host),
    ensures
        host_totals(flows, host) == RowView::empty(host),
    decreases flows.len(),
{
    if flows.len() > 0 {
        let front = flows.drop_last();
        assert(forall|j: int| 0 <= j < front.len() ==> front[j] == flows[j]);
        lemma_totals_empty(front, host);
    }
}

impl Row {
    /// The row of a host with one flow.
    fn start(stat: &Stat) -> (row: Row)
        ensures
            row@ == RowView::empty(stat@.hostname).plus(stat@),
    {
        Row {
            hostname: String::from_str(stat.hostname()),
            count: 1,
            sent: stat.sent(),
            received: stat.received(),
            total_sent: stat.total_sent(),
            total_received: stat.total_received(),
        }
    }

    /// Adds a flow to the row.
    fn add(&mut self, stat: &Stat)
        requires
            old(self)@.plus(stat@).fits(),
            old(self)@.plus(stat@).sent <= old(self)@.plus(stat@).total_sent,
            old(self)@.plus(stat@).received <= old(self)@.plus(stat@).total_received,
            old(self)@.count < usize::MAX,
        ensures
            final(self)@ == old(self)@.plus(stat@),
    {
        self.count += 1;
        self.sent += stat.sent();
        self.received += stat.received();
        self.total_sent += stat.total_sent();
        self.total_received += stat.total_received();
    }
}

/// The position of the row of `host`.
fn find_row(rows: &Vec<Row>, host: &str) -> (r: Option<usize>)
    ensures
        match r {
            Some(i) => i < rows.len() && rows[i as int]@.hostname == host@,
            None => !has_row(rows.deep_view(), host@),
        },
{
    let mut i: usize = 0;
    while i < rows.len()
        invariant
            i <= rows.len(),
            forall|j: int| 0 <= j < i ==> rows.deep_view()[j].hostname != host@,
        decreases rows.len() - i,
    {
        if str_eq(rows[i].hostname.as_str(), host) {
            return Some(i);
        }
        assert(rows.deep_view()[i as int] == rows[i as int]@);
        i += 1;
    }
    None
}

/// Whether two texts are the same.
fn str_eq(a: &str, b: &str) -> (r: bool)
    ensures
        r == (a@ == b@),
{
    proof {
        if a@ != b@ {
            lemma_text_total(a@, b@);
        } else {
            lemma_lex_irreflexive(vstd::utf8::encode_utf8(a@));
        }
    }
    !str_lt(a, b) && !str_lt(b, a)
}

/// Rows that cover the first `k` flows, and to which at most rows were
/// added so that the next flow has one if it counts, cover the first
/// `k + 1` flows.
proof fn lemma_cover_step(
    before: Seq<RowView>,
    after: Seq<RowView>,
    flows: Seq<FlowView>,
    k: int,
)
    requires
        0 <= k < flows.len(),
        rows_cover(before, flows.take(k)),
        before.len() <= after.len(),
        forall|i: int|
            0 <= i < before.len() ==> (#[trigger] after[i]).hostname == before[i].hostname,
        flows[k].stat.visible() ==> has_row(after, flows[k].stat.hostname),
    ensures
        rows_cover(after, flows.take(k + 1)),
{
    let next = flows.take(k + 1);
    assert forall|j: int| 0 <= j < next.len() && (#[trigger] next[j]).stat.visible() implies has_row(
        after,
        next[j].stat.hostname,
    ) by {
        if j < k {
            assert(flows.take(k)[j] == next[j]);
            let i = choose|i: int|
                0 <= i < before.len() && (#[trigger] before[i]).hostname == next[j].stat.hostname;
            assert(after[i].hostname == next[j].stat.hostname);
        }
    }
}

/// Rows that sum and cover the flows show that the sums of every host fit
/// a machine word, if their own counters do.
proof fn lemma_rows_show_fit(rows: Seq<RowView>, flows: Seq<FlowView>)
    requires
        rows_sum(rows, flows),
        rows_cover(rows, flows),
        forall|i: int| 0 <= i < rows.len() ==> (#[trigger] rows[i]).fits(),
    ensures
        totals_fit(flows),
{
    assert forall|host: Seq<char>| (#[trigger] host_totals(flows, host)).fits() by {
        if has_row(rows, host) {
            let i = choose|i: int| 0 <= i < rows.len() && (#[trigger] rows[i]).hostname == host;
            assert(rows[i].fits());
        } else {
            assert forall|j: int| 0 <= j < flows.len() implies !shown(#[trigger] flows[j], host) by {
                if shown(flows[j], host) {
                    assert(has_row(rows, flows[j].stat.hostname));
                }
            }
            lemma_totals_empty(flows, host);
        }
    }
}

/// One row for each host with a flow that counts, in the order in which
/// the hosts first occur in the table; nothing if the sums of a host exceed
/// a machine word.
fn group(table: &FlowTable) -> (r: Option<Vec<Row>>)
    requires
        table.wf(),
    ensures
        match r {
            Some(rows) => {
                &&& totals_fit(table@)
                &&& rows_sum(rows.deep_view(), table@)
                &&& rows_cover(rows.deep_view(), table@)
                &&& distinct_hosts(rows.deep_view())
            },
            None => !totals_fit(table@),
        },
{
    let mut rows: Vec<Row> = Vec::new();
    let mut k: usize = 0;
    let ghost flows = table@;
    while k < table.len()
        invariant
            k <= flows.len(),
            flows == table@,
            table.wf(),
            rows_sum(rows.deep_view(), flows.take(k as int)),
            rows_cover(rows.deep_view(), flows.take(k as int)),
            distinct_hosts(rows.deep_view()),
        decreases flows.len() - k,
    {
        let stat = table.stat_at(k);
        let ghost before = rows.deep_view();
        let ghost host = stat@.hostname;
        proof {
            assert forall|i: int| 0 <= i < before.len() implies host_totals(
                flows.take(k + 1),
                before[i].hostname,
            ) == if before[i].hostname == host && stat@.visible() {
                before[i].plus(stat@)
            } else {
                before[i]
            } by {
                lemma_totals_step(flows, k as int, before[i].hostname);
            }
        }
        if stat.stall_count() < STALL_LIMIT {
            match find_row(&rows, stat.hostname()) {
                Some(r) => {
                    proof {
                        assert(before[r as int] == rows[r as int]@);
                        lemma_totals_bounds(flows, k + 1, host);
                        lemma_totals_bounds(flows, k as int, host);
                    }
                    if stat.total_sent() > usize::MAX - rows[r].total_sent || stat.total_received()
                        > usize::MAX - rows[r].total_received {
                        assert(!host_totals(flows, host).fits());
                        return None;
                    }
                    rows[r].add(stat);
                    proof {
                        assert(rows.deep_view() =~= before.update(
                            r as int,
                            before[r as int].plus(stat@),
                        ));
                        assert(rows.deep_view()[r as int].hostname == host);
                    }
                },
                None => {
                    proof {
                        assert forall|j: int| 0 <= j < k implies !shown(
                            #[trigger] flows.take(k as int)[j],
                            host,
                        ) by {
                            if shown(flows.take(k as int)[j], host) {
                                assert(has_row(before, flows.take(k as int)[j].stat.hostname));
                            }
                        }
                        lemma_totals_empty(flows.take(k as int), host);
                        lemma_totals_step(flows, k as int, host);
                    }
                    rows.push(Row::start(stat));
                    proof {
                        let after = rows.deep_view();
                        assert(after =~= before.push(RowView::empty(host).plus(stat@)));
                        assert(after[before.len() as int].hostname == host);
                        assert forall|i: int, j: int|
                            0 <= i < j < after.len() implies after[i].hostname
                            != after[j].hostname by {
                            if j == before.len() {
                                assert(before[i].hostname != host);
                            }
                        }
                    }
                },
            }
        }
        proof {
            lemma_cover_step(before, rows.deep_view(), flows, k as int);
        }
        k += 1;
    }
    proof {
        assert(flows.take(k as int) == flows);
        assert forall|i: int| 0 <= i < rows.len() implies (#[trigger] rows.deep_view()[i]).fits() by {
            assert(rows.deep_view()[i] == rows[i]@);
        }
        lemma_rows_show_fit(rows.deep_view(), flows);
    }
    Some(rows)
}

/// Whether the sums of every host fit a machine word, so that
/// [`summarize`] and [`update_stats`] may be called as far as the sums go.
pub fn can_summarize(table: &FlowTable) -> (ok: bool)
    requires
        table.wf(),
    ensures
        ok == totals_fit(table@),
{
    group(table).is_some()
}

/// The order of rows passes on.
pub proof fn lemma_precedes_transitive(a: RowView, b: RowView, c: RowView)
    requires
        precedes(a, b),
        precedes(b, c),
    ensures
        precedes(a, c),
{
    if a.received == b.received && b.received == c.received {
        lemma_lex_transitive(
            vstd::utf8::encode_utf8(a.hostname),
            vstd::utf8::encode_utf8(b.hostname),
            vstd::utf8::encode_utf8(c.hostname),
        );
    }
}

/// Of two rows of different hosts one comes before the other.
pub proof fn lemma_precedes_total(a: RowView, b: RowView)
    requires
        a.hostname != b.hostname,
    ensures
        precedes(a, b) || precedes(b, a),
{
    lemma_text_total(a.hostname, b.hostname);
}

/// In an ordered summary no row received more in the epoch than the first.
pub proof fn lemma_first_row_busiest(rows: Seq<RowView>, i: int)
    requires
        ordered(rows),
        0 <= i < rows.len(),
    ensures
        rows[0].received >= rows[i].received,
{
    if i > 0 {
        assert(precedes(rows[0], rows[i]));
    }
}

/// No row comes before itself, and of two rows at most one comes before
/// the other.
pub proof fn lemma_precedes_asymmetric(a: RowView, b: RowView)
    requires
        precedes(a, b),
    ensures
        !precedes(b, a),
        a != b,
{
    if a.received == b.received {
        lemma_lex_asymmetric(
            vstd::utf8::encode_utf8(a.hostname),
            vstd::utf8::encode_utf8(b.hostname),
        );
        lemma_lex_irreflexive(vstd::utf8::encode_utf8(a.hostname));
    }
}

/// Every row of a summary is of a host with a flow that counts.
pub proof fn lemma_row_has_flow(rows: Seq<RowView>, flows: Seq<FlowView>, i: int)
    requires
        rows_sum(rows, flows),
        0 <= i < rows.len(),
    ensures
        exists|k: int| 0 <= k < flows.len() && shown(#[trigger] flows[k], rows[i].hostname),
{
    if forall|k: int| 0 <= k < flows.len() ==> !shown(#[trigger] flows[k], rows[i].hostname) {
        lemma_totals_empty(flows, rows[i].hostname);
        assert(rows[i].count >= 1);
    }
}

/// A host all of whose flows have been idle for too long has no row.
pub proof fn lemma_hidden_host_has_no_row(
    rows: Seq<RowView>,
    flows: Seq<FlowView>,
    host: Seq<char>,
)
    requires
        is_summary(rows, flows),
        forall|k: int|
            0 <= k < flows.len() && (#[trigger] flows[k]).stat.hostname == host
                ==> !flows[k].stat.visible(),
    ensures
        !has_row(rows, host),
{
    if has_row(rows, host) {
        let i = choose|i: int| 0 <= i < rows.len() && (#[trigger] rows[i]).hostname == host;
        lemma_row_has_flow(rows, flows, i);
    }
}

/// The row of a host with a flow that counts is in the summary, once, with
/// the number and the sums of all such flows of that host.
pub proof fn lemma_host_has_one_row(
    rows: Seq<RowView>,
    flows: Seq<FlowView>,
    k: int,
) -> (i: int)
    requires
        is_summary(rows, flows),
        0 <= k < flows.len(),
        flows[k].stat.visible(),
    ensures
        0 <= i < rows.len(),
        rows[i] == host_totals(flows, flows[k].stat.hostname),
        forall|j: int| 0 <= j < rows.len() && j != i ==> rows[j].hostname != rows[i].hostname,
{
    let host = flows[k].stat.hostname;
    assert(has_row(rows, host));
    let i = choose|i: int| 0 <= i < rows.len() && (#[trigger] rows[i]).hostname == host;
    assert forall|j: int| 0 <= j < rows.len() && j != i implies rows[j].hostname
        != rows[i].hostname by {
        if rows[j].hostname == rows[i].hostname {
            assert(rows[j] == rows[i]);
            if j < i {
                lemma_precedes_asymmetric(rows[j], rows[i]);
            } else {
                lemma_precedes_asymmetric(rows[i], rows[j]);
            }
        }
    }
    i
}

/// Two ordered sequences of the same rows are equal.
proof fn lemma_ordered_equal(a: Seq<RowView>, b: Seq<RowView>)
    requires
        ordered(a),
        ordered(b),
        forall|i: int| 0 <= i < a.len() ==> b.contains(#[trigger] a[i]),
        forall|j: int| 0 <= j < b.len() ==> a.contains(#[trigger] b[j]),
    ensures
        a == b,
    decreases a.len(),
{
    if a.len() == 0 {
        if b.len() > 0 {
            assert(a.contains(b[0]));
        }
        assert(a =~= b);
    } else {
        assert(b.contains(a[0]));
        let j = choose|j: int| 0 <= j < b.len() && b[j] == a[0];
        assert(a.contains(b[0]));
        let i = choose|i: int| 0 <= i < a.len() && a[i] == b[0];
        if j > 0 {
            assert(precedes(b[0], b[j]));
            lemma_precedes_asymmetric(b[0], b[j]);
            if i > 0 {
                assert(precedes(a[0], a[i]));
            }
        }
        assert(a[0] == b[0]);
        let at = a.drop_first();
        let bt = b.drop_first();
        assert forall|x: int| 0 <= x < at.len() implies bt.contains(#[trigger] at[x]) by {
            assert(at[x] == a[x + 1]);
            assert(b.contains(a[x + 1]));
            let y = choose|y: int| 0 <= y < b.len() && b[y] == a[x + 1];
            assert(precedes(a[0], a[x + 1]));
            lemma_precedes_asymmetric(a[0], a[x + 1]);
            assert(y > 0);
            assert(bt[y - 1] == at[x]);
        }
        assert forall|y: int| 0 <= y < bt.len() implies at.contains(#[trigger] bt[y]) by {
            assert(bt[y] == b[y + 1]);
            assert(a.contains(b[y + 1]));
            let x = choose|x: int| 0 <= x < a.len() && a[x] == b[y + 1];
            assert(precedes(b[0], b[y + 1]));
            lemma_precedes_asymmetric(b[0], b[y + 1]);
            assert(x > 0);
            assert(at[x - 1] == bt[y]);
        }
        assert(ordered(at)) by {
            assert forall|x: int, y: int| 0 <= x < y < at.len() implies precedes(at[x], at[y]) by {
                assert(precedes(a[x + 1], a[y + 1]));
            }
        }
        assert(ordered(bt)) by {
            assert forall|x: int, y: int| 0 <= x < y < bt.len() implies precedes(bt[x], bt[y]) by {
                assert(precedes(b[x + 1], b[y + 1]));
            }
        }
        lemma_ordered_equal(at, bt);
        assert(a =~= seq![a[0]] + at);
        assert(b =~= seq![b[0]] + bt);
    }
}

/// A table has one summary only.
pub proof fn lemma_summary_unique(a: Seq<RowView>, b: Seq<RowView>, flows: Seq<FlowView>)
    requires
        is_summary(a, flows),
        is_summary(b, flows),
    ensures
        a == b,
{
    assert forall|i: int| 0 <= i < a.len() implies b.contains(#[trigger] a[i]) by {
        lemma_row_has_flow(a, flows, i);
        let k = choose|k: int| 0 <= k < flows.len() && shown(#[trigger] flows[k], a[i].hostname);
        assert(has_row(b, flows[k].stat.hostname));
        let j = choose|j: int| 0 <= j < b.len() && (#[trigger] b[j]).hostname == a[i].hostname;
        assert(b[j] == a[i]);
    }
    assert forall|j: int| 0 <= j < b.len() implies a.contains(#[trigger] b[j]) by {
        lemma_row_has_flow(b, flows, j);
        let k = choose|k: int| 0 <= k < flows.len() && shown(#[trigger] flows[k], b[j].hostname);
        assert(has_row(a, flows[k].stat.hostname));
        let i = choose|i: int| 0 <= i < a.len() && (#[trigger] a[i]).hostname == b[j].hostname;
        assert(a[i] == b[j]);
    }
    lemma_ordered_equal(a, b);
}

/// A row that is put behind all that come before it and in front of the
/// first that it comes before leaves the rows in order.
proof fn lemma_insert_ordered(rows: Seq<RowView>, pos: int, row: RowView)
    requires
        ordered(rows),
        0 <= pos <= rows.len(),
        forall|q: int| 0 <= q < pos ==> precedes(#[trigger] rows[q], row),
        pos < rows.len() ==> precedes(row, rows[pos]),
    ensures
        ordered(rows.insert(pos, row)),
{
    let after = rows.insert(pos, row);
    assert forall|i: int, j: int| 0 <= i < j < after.len() implies precedes(
        after[i],
        after[j],
    ) by {
        if j == pos {
            assert(after[i] == rows[i]);
        } else if i == pos {
            assert(after[j] == rows[j - 1]);
            if j - 1 > pos {
                assert(precedes(rows[pos], rows[j - 1]));
                lemma_precedes_transitive(row, rows[pos], rows[j - 1]);
            }
        } else if i < pos && j > pos {
            assert(after[i] == rows[i]);
            assert(after[j] == rows[j - 1]);
            assert(precedes(rows[i], rows[j - 1]));
        } else if j < pos {
            assert(after[i] == rows[i]);
            assert(after[j] == rows[j]);
        } else {
            assert(after[i] == rows[i - 1]);
            assert(after[j] == rows[j - 1]);
            assert(precedes(rows[i - 1], rows[j - 1]));
        }
    }
}

/// Whether `a` comes before `b`.
fn row_precedes(a: &Row, b: &Row) -> (r: bool)
    ensures
        r == precedes(a@, b@),
{
    a.received > b.received || (a.received == b.received && str_lt(
        a.hostname.as_str(),
        b.hostname.as_str(),
    ))
}

/// The same rows in order.
fn sort(rows: Vec<Row>) -> (sorted: Vec<Row>)
    requires
        distinct_hosts(rows.deep_view()),
    ensures
        ordered(sorted.deep_view()),
        forall|i: int|
            0 <= i < sorted.len() ==> rows.deep_view().contains(#[trigger] sorted.deep_view()[i]),
        forall|j: int|
            0 <= j < rows.len() ==> sorted.deep_view().contains(#[trigger] rows.deep_view()[j]),
{
    let ghost all = rows.deep_view();
    let mut pending = rows;
    let mut sorted: Vec<Row> = Vec::new();
    assert forall|i: int| 0 <= i < all.len() implies all.contains(#[trigger] all[i]) by {}
    while pending.len() > 0
        invariant
            ordered(sorted.deep_view()),
            distinct_hosts(pending.deep_view()),
            forall|i: int, j: int|
                0 <= i < pending.len() && 0 <= j < sorted.len() ==> pending.deep_view()[i].hostname
                    != sorted.deep_view()[j].hostname,
            forall|i: int|
                0 <= i < pending.len() ==> all.contains(#[trigger] pending.deep_view()[i]),
            forall|j: int| 0 <= j < sorted.len() ==> all.contains(#[trigger] sorted.deep_view()[j]),
            forall|k: int|
                0 <= k < all.len() ==> pending.deep_view().contains(#[trigger] all[k])
                    || sorted.deep_view().contains(all[k]),
        decreases pending.len(),
    {
        let ghost pv = pending.deep_view();
        let ghost sv = sorted.deep_view();
        let row = pending.pop().unwrap();
        assert(row@ == pv.last());
        assert(pending.deep_view() =~= pv.drop_last());
        let mut pos: usize = 0;
        while pos < sorted.len() && !row_precedes(&row, &sorted[pos])
            invariant
                pos <= sorted.len(),
                sv == sorted.deep_view(),
                row@ == pv.last(),
                pv.len() > 0,
                forall|j: int| 0 <= j < sv.len() ==> pv.last().hostname != (#[trigger] sv[j]).hostname,
                forall|q: int| 0 <= q < pos ==> precedes(#[trigger] sv[q], row@),
            decreases sorted.len() - pos,
        {
            proof {
                assert(sv[pos as int] == sorted[pos as int]@);
                lemma_precedes_total(row@, sv[pos as int]);
            }
            pos += 1;
        }
        proof {
            if pos < sorted.len() {
                assert(sv[pos as int] == sorted[pos as int]@);
            }
            lemma_insert_ordered(sv, pos as int, row@);
        }
        sorted.insert(pos, row);
        proof {
            let sv2 = sorted.deep_view();
            let pv2 = pending.deep_view();
            assert(sv2 =~= sv.insert(pos as int, pv.last()));
            assert forall|i: int, j: int| 0 <= i < pv2.len() && 0 <= j < sv2.len() implies pv2[i].hostname
                != sv2[j].hostname by {
                assert(pv2[i] == pv[i]);
                if j < pos {
                    assert(sv2[j] == sv[j]);
                } else if j > pos {
                    assert(sv2[j] == sv[j - 1]);
                }
            }
            assert forall|j: int| 0 <= j < sv2.len() implies all.contains(#[trigger] sv2[j]) by {
                if j < pos {
                    assert(sv2[j] == sv[j]);
                } else if j > pos {
                    assert(sv2[j] == sv[j - 1]);
                } else {
                    assert(sv2[j] == pv[pv.len() - 1]);
                }
            }
            assert forall|i: int| 0 <= i < pv2.len() implies all.contains(#[trigger] pv2[i]) by {
                assert(pv2[i] == pv[i]);
            }
            assert forall|k: int| 0 <= k < all.len() implies pv2.contains(#[trigger] all[k])
                || sv2.contains(all[k]) by {
                if pv.contains(all[k]) {
                    let i = choose|i: int| 0 <= i < pv.len() && pv[i] == all[k];
                    if i < pv.len() - 1 {
                        assert(pv2[i] == all[k]);
                    } else {
                        assert(sv2[pos as int] == all[k]);
                    }
                } else {
                    let j = choose|j: int| 0 <= j < sv.len() && sv[j] == all[k];
                    if j < pos {
                        assert(sv2[j] == all[k]);
                    } else {
                        assert(sv2[j + 1] == all[k]);
                    }
                }
            }
            assert forall|i: int, j: int| 0 <= i < j < pv2.len() implies pv2[i].hostname
                != pv2[j].hostname by {
                assert(pv2[i] == pv[i] && pv2[j] == pv[j]);
            }
        }
    }
    assert forall|j: int| 0 <= j < all.len() implies sorted.deep_view().contains(
        #[trigger] all[j],
    ) by {
        if pending.deep_view().contains(all[j]) {
            let i = choose|i: int| 0 <= i < pending.deep_view().len() && pending.deep_view()[i] == all[j];
        }
    }
    sorted
}

/// The summary of the table: for each host the number and the summed
/// counters of its flows that have not been idle for too long, the host
/// that received most in the epoch first.
pub fn summarize(table: &FlowTable) -> (rows: Vec<Row>)
    requires
        table.wf(),
        totals_fit(table@),
    ensures
        is_summary(rows.deep_view(), table@),
{
    let groups = group(table).unwrap();
    let ghost gv = groups.deep_view();
    let rows = sort(groups);
    proof {
        let rv = rows.deep_view();
        let flows = table@;
        assert forall|i: int| 0 <= i < rv.len() implies (#[trigger] rv[i]).count >= 1 && rv[i]
            == host_totals(flows, rv[i].hostname) by {
            assert(gv.contains(rv[i]));
            let j = choose|j: int| 0 <= j < gv.len() && gv[j] == rv[i];
            assert(gv[j].count >= 1);
        }
        assert forall|k: int| 0 <= k < flows.len() && (#[trigger] flows[k]).stat.visible() implies has_row(
            rv,
            flows[k].stat.hostname,
        ) by {
            assert(has_row(gv, flows[k].stat.hostname));
            let j = choose|j: int| 0 <= j < gv.len() && (#[trigger] gv[j]).hostname == flows[k].stat.hostname;
            assert(rv.contains(gv[j]));
            let i = choose|i: int| 0 <= i < rv.len() && rv[i] == gv[j];
            assert(rv[i].hostname == flows[k].stat.hostname);
        }
    }
    rows
}

/// The summary of the epoch that ends, and the table made ready for the
/// next one.
pub fn update_stats(table: &mut FlowTable) -> (rows: Vec<Row>)
    requires
        old(table).wf(),
        totals_fit(old(table)@),
        can_stall(old(table)@),
    ensures
        is_summary(rows.deep_view(), old(table)@),
        final(table).wf(),
        final(table)@ == epoch_end(old(table)@),
        forall|id: FlowId| #[trigger]
            lookup(final(table)@, id) == carried_over(lookup(old(table)@, id)),
{
    let rows = summarize(table);
    table.end_epoch();
    rows
}

} // verus!
