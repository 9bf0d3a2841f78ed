//! The state a streaming session shares between its worker and the UI, and
//! the worker's decisions: what a received batch, a failure or the end of
//! the session does to it. Accepting connections and reading the wire stay
//! with the caller, which hands each outcome to these methods.

use vstd::prelude::*;
use crate::dataset::stream::{RowBatch, StreamBuffer, StreamEvent, StreamStatus, column_change_text, push_fits, pushed};

verus! {

/// Milliseconds since the Unix epoch, if the clock is past it.
#[verifier::external_body]
fn unix_clock_ms() -> (r: Option<u128>) {
    std::time::SystemTime::now().duration_since(std::time::UNIX_EPOCH).ok().map(|d| d.as_millis())
}

/// Milliseconds since the Unix epoch (truncated to 64 bits), or 0 when the
/// clock is before it.
pub fn now_ms() -> u64 {
    match unix_clock_ms() {
        Some(ms) => ms as u64,
        None => 0,
    }
}

/// State shared between the streaming worker and the UI.
pub struct StreamShared {
    /// The rows received so far.
    pub buffer: StreamBuffer,
    /// The session's status.
    pub status: StreamStatus,
    /// Epoch milliseconds of the last received batch (0 = none yet).
    pub last_rx_ms: u64,
}

/// Whether a batch arrived within `window_ms` of `now` (never before one
/// has arrived).
pub open spec fn received_within(last_rx_ms: u64, now: u64, window_ms: u64) -> bool {
    last_rx_ms != 0 && (if now >= last_rx_ms { now - last_rx_ms } else { 0 }) <= window_ms
}

impl StreamShared {
    /// A fresh active session holding an empty buffer capped at `max_rows`
    /// rows (at least one).
    pub fn new(max_rows: usize) -> (r: Self)
        ensures
            r.buffer.n_cols == 0,
            r.buffer.max_rows == if max_rows < 1 { 1 } else { max_rows },
            r.buffer.data@.len() == 0,
            r.buffer.labels@.len() == 0,
            !r.buffer.has_labels,
            r.buffer.version == 0,
            r.buffer.total_received == 0,
            r.status == StreamStatus::Active,
            r.last_rx_ms == 0,
    {
        StreamShared { buffer: StreamBuffer::new(max_rows), status: StreamStatus::Active, last_rx_ms: 0 }
    }

    /// Record that a batch arrived at epoch millisecond `now`.
    pub fn received_at(&mut self, now: u64)
        ensures
            final(self).last_rx_ms == now,
            final(self).buffer == old(self).buffer,
            final(self).status == old(self).status,
    {
        self.last_rx_ms = now;
    }

    /// Record that a batch arrived now: the arrival time becomes the
    /// clock's current reading, which nothing here can foresee.
    pub fn mark_received(&mut self)
        ensures
            final(self).buffer == old(self).buffer,
            final(self).status == old(self).status,
    {
        self.received_at(now_ms());
    }

    /// Whether a batch arrived within `window_ms` of `now`.
    pub fn receiving_at(&self, now: u64, window_ms: u64) -> (r: bool)
        ensures
            r == received_within(self.last_rx_ms, now, window_ms),
    {
        self.last_rx_ms != 0 && now.saturating_sub(self.last_rx_ms) <= window_ms
    }

    /// Whether a batch arrived within `window_ms` of the current time; never
    /// before one has arrived. The answer is `receiving_at` for one reading
    /// of the clock.
    pub fn receiving_within(&self, window_ms: u64) -> (r: bool)
        ensures
            exists|now: u64| r == #[trigger] received_within(self.last_rx_ms, now, window_ms),
            r ==> self.last_rx_ms != 0,
    {
        let now = now_ms();
        let r = self.receiving_at(now, window_ms);
        proof {
            assert(r == received_within(self.last_rx_ms, now, window_ms));
        }
        r
    }

    /// Whether the session is active and data arrived within `window_ms`
    /// of `now` (drives the "receiving" color).
    pub fn is_receiving_at(&self, now: u64, window_ms: u64) -> (r: bool)
        ensures
            r == (self.status == StreamStatus::Active && received_within(self.last_rx_ms, now, window_ms)),
    {
        self.status == StreamStatus::Active && self.receiving_at(now, window_ms)
    }

    /// A decoded batch arrived: append it to the buffer. When the buffer
    /// refuses it the session fails and the error event is returned;
    /// otherwise the arrival time is recorded and no event is due.
    pub fn on_batch(&mut self, batch: &RowBatch) -> (r: Option<StreamEvent>)
        requires
            push_fits(old(self).buffer, *batch),
        ensures
            pushed(old(self).buffer, *batch, final(self).buffer, r is None),
            r is None ==> final(self).status == old(self).status,
            r is Some ==> final(self).status == StreamStatus::Error && final(self).last_rx_ms
                == old(self).last_rx_ms,
            r matches Some(e) ==> (e matches StreamEvent::Error(m) && m@ == "format error: "@
                + column_change_text(old(self).buffer.n_cols, batch.n_cols)),
    {
        match self.buffer.push_batch(batch) {
            Ok(()) => {
                self.mark_received();
                None
            },
            Err(e) => {
                self.status = StreamStatus::Error;
                Some(StreamEvent::Error(e.message()))
            },
        }
    }

    /// The worker failed (accept, decoder or read error): the session ends
    /// in error and the message is reported.
    pub fn on_failure(&mut self, message: String) -> (r: StreamEvent)
        ensures
            final(self).status == StreamStatus::Error,
            final(self).buffer == old(self).buffer,
            final(self).last_rx_ms == old(self).last_rx_ms,
            r == StreamEvent::Error(message),
    {
        self.status = StreamStatus::Error;
        StreamEvent::Error(message)
    }

    /// The worker loop ended: an explicit error is kept, anything else is a
    /// clean stop.
    pub fn finish(&mut self)
        ensures
            final(self).status == if old(self).status == StreamStatus::Error {
                StreamStatus::Error
            } else {
                StreamStatus::Stopped
            },
            final(self).buffer == old(self).buffer,
            final(self).last_rx_ms == old(self).last_rx_ms,
    {
        if self.status != StreamStatus::Error {
            self.status = StreamStatus::Stopped;
        }
    }
}

} // verus!
