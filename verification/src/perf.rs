//! Counters of the messages that came over the market stream.
use vstd::prelude::*;

verus! {

/// Counts, sums and maxima. Counts and sums go round at the end of their range.
#[derive(Clone, Debug)]
pub struct PerfCounters {
    pub ws_msg_count: u64,
    pub ws_msg_bytes: u64,
    pub ws_parse_ns_sum: u64,
    pub ws_parse_ns_max: u64,
    pub ws_apply_ns_sum: u64,
    pub ws_apply_ns_max: u64,
}

/// A sum of counters modulo the range of `u64`.
pub open spec fn counted(a: u64, b: u64) -> u64 {
    ((a + b) % 0x1_0000_0000_0000_0000) as u64
}

/// The mean of a sum over a count, zero of none.
pub open spec fn mean(sum: u64, count: u64) -> u64 {
    if count == 0 {
        0
    } else {
        sum / count
    }
}

/// The larger of two counters.
pub open spec fn peak(a: u64, b: u64) -> u64 {
    if a < b {
        b
    } else {
        a
    }
}

/// Counters at zero.
pub open spec fn no_messages() -> PerfCounters {
    PerfCounters {
        ws_msg_count: 0,
        ws_msg_bytes: 0,
        ws_parse_ns_sum: 0,
        ws_parse_ns_max: 0,
        ws_apply_ns_sum: 0,
        ws_apply_ns_max: 0,
    }
}

/// The counters after one more message.
pub open spec fn after_message(
    before: PerfCounters,
    bytes_len: usize,
    parse_ns: u64,
    apply_ns: u64,
) -> PerfCounters {
    PerfCounters {
        ws_msg_count: counted(before.ws_msg_count, 1),
        ws_msg_bytes: counted(before.ws_msg_bytes, bytes_len as u64),
        ws_parse_ns_sum: counted(before.ws_parse_ns_sum, parse_ns),
        ws_parse_ns_max: peak(before.ws_parse_ns_max, parse_ns),
        ws_apply_ns_sum: counted(before.ws_apply_ns_sum, apply_ns),
        ws_apply_ns_max: peak(before.ws_apply_ns_max, apply_ns),
    }
}

impl Default for PerfCounters {
    fn default() -> (r: PerfCounters)
        ensures
            r == no_messages(),
    {
        PerfCounters {
            ws_msg_count: 0,
            ws_msg_bytes: 0,
            ws_parse_ns_sum: 0,
            ws_parse_ns_max: 0,
            ws_apply_ns_sum: 0,
            ws_apply_ns_max: 0,
        }
    }
}

impl PerfCounters {
    /// Counts one message: its length, and what parsing and applying it took.
    pub fn record_ws_message(&mut self, bytes_len: usize, parse_ns: u64, apply_ns: u64)
        ensures
            *final(self) == after_message(*old(self), bytes_len, parse_ns, apply_ns),
    {
        self.ws_msg_count = self.ws_msg_count.wrapping_add(1);
        self.ws_msg_bytes = self.ws_msg_bytes.wrapping_add(bytes_len as u64);

        self.ws_parse_ns_sum = self.ws_parse_ns_sum.wrapping_add(parse_ns);
        update_max(&mut self.ws_parse_ns_max, parse_ns);

        self.ws_apply_ns_sum = self.ws_apply_ns_sum.wrapping_add(apply_ns);
        update_max(&mut self.ws_apply_ns_max, apply_ns);
    }

    /// The mean parse time of a message.
    pub fn ws_avg_parse_ns(&self) -> (r: u64)
        ensures
            r == mean(self.ws_parse_ns_sum, self.ws_msg_count),
    {
        let c: u64 = self.ws_msg_count;
        if c == 0 {
            return 0;
        }
        self.ws_parse_ns_sum / c
    }

    /// The mean time to apply a message.
    pub fn ws_avg_apply_ns(&self) -> (r: u64)
        ensures
            r == mean(self.ws_apply_ns_sum, self.ws_msg_count),
    {
        let c: u64 = self.ws_msg_count;
        if c == 0 {
            return 0;
        }
        self.ws_apply_ns_sum / c
    }

    /// Sets all counters to zero.
    pub fn reset_ws(&mut self)
        ensures
            *final(self) == no_messages(),
    {
        self.ws_msg_count = 0;
        self.ws_msg_bytes = 0;
        self.ws_parse_ns_sum = 0;
        self.ws_parse_ns_max = 0;
        self.ws_apply_ns_sum = 0;
        self.ws_apply_ns_max = 0;
    }
}

/// Raises a maximum to `v` where it is lower.
pub fn update_max(cell: &mut u64, v: u64)
    ensures
        *final(cell) == peak(*old(cell), v),
{
    if v > *cell {
        *cell = v;
    }
}

/// While no sum goes round, no mean is above its maximum: one more message keeps the mean times
/// the count within the maximum times the count.
pub proof fn lemma_sum_within_peak(before: PerfCounters, bytes_len: usize, parse_ns: u64, apply_ns: u64)
    requires
        before.ws_msg_count < u64::MAX,
        before.ws_parse_ns_sum + parse_ns <= u64::MAX,
        before.ws_apply_ns_sum + apply_ns <= u64::MAX,
        before.ws_parse_ns_sum <= before.ws_msg_count * before.ws_parse_ns_max,
        before.ws_apply_ns_sum <= before.ws_msg_count * before.ws_apply_ns_max,
    ensures
        ({
            let after = after_message(before, bytes_len, parse_ns, apply_ns);
            &&& after.ws_parse_ns_sum <= after.ws_msg_count * after.ws_parse_ns_max
            &&& after.ws_apply_ns_sum <= after.ws_msg_count * after.ws_apply_ns_max
            &&& mean(after.ws_parse_ns_sum, after.ws_msg_count) <= after.ws_parse_ns_max
            &&& mean(after.ws_apply_ns_sum, after.ws_msg_count) <= after.ws_apply_ns_max
        }),
{
    let after = after_message(before, bytes_len, parse_ns, apply_ns);
    lemma_mean_step(
        before.ws_msg_count,
        before.ws_parse_ns_sum,
        before.ws_parse_ns_max,
        parse_ns,
        after.ws_parse_ns_max,
    );
    lemma_mean_step(
        before.ws_msg_count,
        before.ws_apply_ns_sum,
        before.ws_apply_ns_max,
        apply_ns,
        after.ws_apply_ns_max,
    );
}

proof fn lemma_mean_step(count: u64, sum: u64, max: u64, v: u64, next_max: u64)
    requires
        count < u64::MAX,
        sum + v <= u64::MAX,
        sum <= count * max,
        next_max == peak(max, v),
    ensures
        sum + v <= (count + 1) * next_max,
        mean((sum + v) as u64, (count + 1) as u64) <= next_max,
{
    assert(sum + v <= (count + 1) * next_max) by (nonlinear_arith)
        requires
            sum <= count * max,
            max <= next_max,
            v <= next_max,
            count >= 0,
    ;
    assert((sum + v) / (count + 1) <= next_max) by (nonlinear_arith)
        requires
            0 <= sum + v <= (count + 1) * next_max,
            count + 1 > 0,
    ;
}

/// One more message is counted as one, and with its own length and times, while no sum goes round; a
/// maximum is the time of this message or an earlier one, and below neither.
pub proof fn lemma_message_counted(before: PerfCounters, bytes_len: usize, parse_ns: u64, apply_ns: u64)
    requires
        before.ws_msg_count < u64::MAX,
        before.ws_msg_bytes + bytes_len <= u64::MAX,
        before.ws_parse_ns_sum + parse_ns <= u64::MAX,
        before.ws_apply_ns_sum + apply_ns <= u64::MAX,
    ensures
        ({
            let after = after_message(before, bytes_len, parse_ns, apply_ns);
            &&& after.ws_msg_count == before.ws_msg_count + 1
            &&& after.ws_msg_bytes == before.ws_msg_bytes + bytes_len
            &&& after.ws_parse_ns_sum == before.ws_parse_ns_sum + parse_ns
            &&& after.ws_apply_ns_sum == before.ws_apply_ns_sum + apply_ns
            &&& after.ws_parse_ns_max >= before.ws_parse_ns_max && after.ws_parse_ns_max >= parse_ns
            &&& after.ws_apply_ns_max >= before.ws_apply_ns_max && after.ws_apply_ns_max >= apply_ns
            &&& after.ws_parse_ns_max == before.ws_parse_ns_max || after.ws_parse_ns_max == parse_ns
            &&& after.ws_apply_ns_max == before.ws_apply_ns_max || after.ws_apply_ns_max == apply_ns
        }),
{
}

/// A mean times the count is the sum, up to less than the count.
pub proof fn lemma_mean(sum: u64, count: u64)
    requires
        count > 0,
    ensures
        mean(sum, count) * count <= sum < mean(sum, count) * count + count,
{
    let (s, c) = (sum as int, count as int);
    assert((s / c) * c <= s < (s / c) * c + c) by (nonlinear_arith)
        requires
            c > 0,
            s >= 0,
    ;
}

} // verus!
