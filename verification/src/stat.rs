//! Per-flow byte counters.

use vstd::prelude::*;

verus! {

/// Number of consecutive idle epochs from which a flow is no longer shown.
pub const STALL_LIMIT: usize = 10;

/// The mathematical content of a [`Stat`].
pub struct StatView {
    pub hostname: Seq<char>,
    /// Bytes sent by the client in the current epoch.
    pub sent: nat,
    /// Bytes received by the client in the current epoch.
    pub received: nat,
    /// Bytes sent by the client since the flow was first seen.
    pub total_sent: nat,
    /// Bytes received by the client since the flow was first seen.
    pub total_received: nat,
    /// Whether a FIN or RST was seen in either direction.
    pub closing: bool,
    /// Number of consecutive epochs without traffic.
    pub stall_count: nat,
}

impl StatView {
    /// The record of a flow whose first request payload had `hello_len` bytes.
    pub open spec fn new(hostname: Seq<char>, hello_len: nat) -> StatView {
        StatView {
            hostname,
            sent: hello_len,
            received: 0,
            total_sent: hello_len,
            total_received: 0,
            closing: false,
            stall_count: 0,
        }
    }

    /// The record after a segment of `n` payload bytes, travelling from the
    /// client if `is_sent`, and carrying FIN or RST if `last`.
    pub open spec fn after_packet(self, n: nat, is_sent: bool, last: bool) -> StatView {
        if is_sent {
            StatView {
                sent: self.sent + n,
                total_sent: self.total_sent + n,
                closing: self.closing || last,
                ..self
            }
        } else {
            StatView {
                received: self.received + n,
                total_received: self.total_received + n,
                closing: self.closing || last,
                ..self
            }
        }
    }

    /// Whether the epoch that is about to end saw no traffic on the flow.
    pub open spec fn idle(self) -> bool {
        self.sent == 0 && self.received == 0
    }

    /// The record at the start of the next epoch.
    pub open spec fn after_epoch(self) -> StatView {
        StatView {
            sent: 0,
            received: 0,
            stall_count: if self.idle() { self.stall_count + 1 } else { 0 },
            ..self
        }
    }

    /// Whether the flow is shown in the summary.
    pub open spec fn visible(self) -> bool {
        self.stall_count < STALL_LIMIT
    }

    /// Epoch counters never exceed the totals, and every counter fits a
    /// machine word.
    pub open spec fn wf(self) -> bool {
        &&& self.sent <= self.total_sent
        &&& self.received <= self.total_received
        &&& self.total_sent <= usize::MAX
        &&& self.total_received <= usize::MAX
        &&& self.stall_count <= usize::MAX
    }

    /// Whether a segment of `n` payload bytes can be counted without
    /// exceeding a machine word.
    pub open spec fn has_room(self, n: nat, is_sent: bool) -> bool {
        if is_sent {
            self.total_sent + n <= usize::MAX
        } else {
            self.total_received + n <= usize::MAX
        }
    }
}

/// Counters of one tracked flow.
#[derive(Debug)]
pub struct Stat {
    hostname: String,
    sent: usize,
    received: usize,
    total_sent: usize,
    total_received: usize,
    closing: bool,
    stall_count: usize,
}

impl View for Stat {
    type V = StatView;

    closed spec fn view(&self) -> StatView {
        StatView {
            hostname: self.hostname@,
            sent: self.sent as nat,
            received: self.received as nat,
            total_sent: self.total_sent as nat,
            total_received: self.total_received as nat,
            closing: self.closing,
            stall_count: self.stall_count as nat,
        }
    }
}

impl Stat {
    /// See [`StatView::wf`].
    pub open spec fn wf(&self) -> bool {
        self@.wf()
    }

    /// Starts the record of a flow from the length of its first request
    /// payload.
    pub fn new(hostname: String, hello_len: usize) -> (stat: Stat)
        ensures
            stat@ == StatView::new(hostname@, hello_len as nat),
            stat.wf(),
    {
        Stat {
            hostname,
            sent: hello_len,
            received: 0,
            total_sent: hello_len,
            total_received: 0,
            closing: false,
            stall_count: 0,
        }
    }

    /// Counts a segment of `n` payload bytes in the direction given by
    /// `is_sent`, and remembers a FIN or RST.
    pub fn incr(&mut self, n: usize, is_sent: bool, last: bool)
        requires
            old(self).wf(),
            old(self)@.has_room(n as nat, is_sent),
        ensures
            final(self)@ == old(self)@.after_packet(n as nat, is_sent, last),
            final(self).wf(),
    {
        if is_sent {
            self.sent += n;
            self.total_sent += n;
        } else {
            self.received += n;
            self.total_received += n;
        }
        self.closing = self.closing || last;
    }

    /// Whether [`Stat::incr`] may be called with `n` and `is_sent`.
    pub fn has_room(&self, n: usize, is_sent: bool) -> (ok: bool)
        ensures
            ok == self@.has_room(n as nat, is_sent),
    {
        if is_sent {
            n <= usize::MAX - self.total_sent
        } else {
            n <= usize::MAX - self.total_received
        }
    }

    /// Ends the epoch: updates the stall count and clears the epoch
    /// counters.
    pub fn end_epoch(&mut self)
        requires
            old(self).wf(),
            old(self)@.stall_count < usize::MAX,
        ensures
            final(self)@ == old(self)@.after_epoch(),
            final(self).wf(),
    {
        if self.sent == 0 && self.received == 0 {
            self.stall_count += 1;
        } else {
            self.stall_count = 0;
        }
        self.sent = 0;
        self.received = 0;
    }

    pub fn hostname(&self) -> (name: &str)
        ensures
            name@ == self@.hostname,
    {
        self.hostname.as_str()
    }

    pub fn sent(&self) -> (n: usize)
        ensures
            n == self@.sent,
    {
        self.sent
    }

    pub fn received(&self) -> (n: usize)
        ensures
            n == self@.received,
    {
        self.received
    }

    pub fn total_sent(&self) -> (n: usize)
        ensures
            n == self@.total_sent,
    {
        self.total_sent
    }

    pub fn total_received(&self) -> (n: usize)
        ensures
            n == self@.total_received,
    {
        self.total_received
    }

    pub fn closing(&self) -> (b: bool)
        ensures
            b == self@.closing,
    {
        self.closing
    }

    pub fn stall_count(&self) -> (n: usize)
        ensures
            n == self@.stall_count,
    {
        self.stall_count
    }
}

} // verus!
