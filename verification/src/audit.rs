//! The audit trail of template executions: who ran which template on what
//! input (by hash), when, how long it took and how it ended; only the most
//! recent records are kept.
use vstd::prelude::*;
use vstd::string::*;
use chrono::Utc;
use uuid::Uuid;
use sha2::{Digest, Sha256};

verus! {

#[verifier::external_type_specification]
#[verifier::external_body]
pub struct ExUuid(uuid::Uuid);

/// The 128-bit value of a UUID, as `Uuid::as_u128` gives it.
pub uninterp spec fn uuid_value(u: Uuid) -> u128;

/// The SHA-256 digest of a byte string.
pub uninterp spec fn sha256_of(bytes: Seq<u8>) -> Seq<u8>;

/// Calls `uuid::Uuid::new_v4`: a fresh random UUID; nothing is known of
/// its value.
#[verifier::external_body]
pub(crate) fn fresh_uuid() -> Uuid {
    Uuid::new_v4()
}

/// Calls `chrono::Utc::now` and takes its milliseconds since 1970: the
/// current time, which depends on the clock. `Utc::now` panics on a clock
/// set before 1970, which no argument can rule out.
#[verifier::external_body]
pub(crate) fn now_millis() -> i64 {
    Utc::now().timestamp_millis()
}

/// Calls `uuid::Uuid::as_u128`: the UUID's 128-bit value.
#[verifier::external_body]
fn uuid_bits(u: &Uuid) -> (r: u128)
    ensures
        r == uuid_value(*u),
{
    u.as_u128()
}

/// Calls `sha2::Sha256::digest`: the 32-byte SHA-256 digest of `bytes`.
#[verifier::external_body]
pub(crate) fn sha256_digest(bytes: &[u8]) -> (r: Vec<u8>)
    ensures
        r@ == sha256_of(bytes@),
        r@.len() == 32,
{
    Sha256::digest(bytes).to_vec()
}

/// The lower-case hexadecimal digit of `d`.
pub open spec fn hex_digit(d: u8) -> char {
    if d < 10 { (('0' as u8) + d) as char } else { (('a' as u8) + d - 10) as char }
}

/// Each byte as two lower-case hexadecimal digits, high nibble first.
pub open spec fn hex_lower(bytes: Seq<u8>) -> Seq<char>
    decreases bytes.len(),
{
    if bytes.len() == 0 {
        Seq::empty()
    } else {
        hex_lower(bytes.drop_last()) + seq![hex_digit(bytes.last() / 16), hex_digit(bytes.last() % 16)]
    }
}

/// Calls `hex::encode`: each byte as two lower-case hexadecimal digits, in
/// order.
#[verifier::external_body]
pub(crate) fn hex_encode(bytes: &Vec<u8>) -> (r: String)
    ensures
        r@ == hex_lower(bytes@),
{
    hex::encode(bytes)
}

/// One template execution.
#[derive(Debug)]
pub struct ExecutionAudit {
    /// Id of the record.
    pub id: Uuid,
    /// The bot that ran the template.
    pub bot_id: String,
    /// The template that ran.
    pub template_id: String,
    /// SHA-256 of the input, in hexadecimal; the input itself is not kept.
    pub input_hash: String,
    /// The event of the outcome, when known.
    pub outcome_event_id: Option<Uuid>,
    /// When the execution started, in milliseconds since 1970 (UTC).
    pub executed_at: i64,
    /// How long it took, in milliseconds.
    pub duration_ms: u64,
    /// Whether it succeeded.
    pub success: bool,
    /// Why it failed.
    pub error_message: Option<String>,
    /// The nesting depth it ran at.
    pub matroshka_depth: u8,
}

impl ExecutionAudit {
    /// A record of a successful execution starting now, with a fresh id.
    pub fn new(bot_id: String, template_id: String, input_hash: String, matroshka_depth: u8) -> (r: ExecutionAudit)
        ensures
            r.bot_id == bot_id,
            r.template_id == template_id,
            r.input_hash == input_hash,
            r.outcome_event_id is None,
            r.duration_ms == 0,
            r.success,
            r.error_message is None,
            r.matroshka_depth == matroshka_depth,
    {
        ExecutionAudit {
            id: fresh_uuid(),
            bot_id,
            template_id,
            input_hash,
            outcome_event_id: None,
            executed_at: now_millis(),
            duration_ms: 0,
            success: true,
            error_message: None,
            matroshka_depth,
        }
    }

    /// The record with its outcome event set.
    pub fn with_outcome_event(self, event_id: Uuid) -> (r: ExecutionAudit)
        ensures
            r == (ExecutionAudit { outcome_event_id: Some(event_id), ..self }),
    {
        let mut s = self;
        s.outcome_event_id = Some(event_id);
        s
    }

    /// The record marked as failed with `error`.
    pub fn with_error(self, error: String) -> (r: ExecutionAudit)
        ensures
            r == (ExecutionAudit { success: false, error_message: Some(error), ..self }),
    {
        let mut s = self;
        s.success = false;
        s.error_message = Some(error);
        s
    }

    /// The record with its duration set.
    pub fn with_duration_ms(self, duration: u64) -> (r: ExecutionAudit)
        ensures
            r == (ExecutionAudit { duration_ms: duration, ..self }),
    {
        let mut s = self;
        s.duration_ms = duration;
        s
    }

    /// The SHA-256 of `input` in lower-case hexadecimal.
    pub fn hash_input(input: &str) -> (r: String)
        ensures
            r@ == hex_lower(sha256_of(input.spec_bytes())),
            r@.len() == 64,
    {
        let digest = sha256_digest(input.as_bytes());
        proof {
            lemma_hex_len(digest@);
        }
        hex_encode(&digest)
    }
}

/// Hexadecimal text has two digits per byte.
proof fn lemma_hex_len(bytes: Seq<u8>)
    ensures
        hex_lower(bytes).len() == 2 * bytes.len(),
    decreases bytes.len(),
{
    if bytes.len() > 0 {
        lemma_hex_len(bytes.drop_last());
    }
}

/// Counts over the audit trail.
#[derive(Debug, Clone, Copy, PartialEq, Eq, Structural)]
pub struct AuditStats {
    pub total: usize,
    pub successes: usize,
    pub failures: usize,
    /// The mean duration in milliseconds, rounded down; zero without records.
    pub avg_duration: u64,
}

/// The records kept after `a` is added to `rs` under the limit `max`: the
/// most recent `max` of them.
pub open spec fn kept_after(rs: Seq<ExecutionAudit>, a: ExecutionAudit, max: nat) -> Seq<ExecutionAudit> {
    let s = rs.push(a);
    if s.len() > max { s.skip(s.len() - max) } else { s }
}

/// The records of `rs` that satisfy `keep`, in order.
pub open spec fn records_where(rs: Seq<ExecutionAudit>, keep: spec_fn(ExecutionAudit) -> bool) -> Seq<ExecutionAudit>
    decreases rs.len(),
{
    if rs.len() == 0 {
        Seq::empty()
    } else {
        let prev = records_where(rs.drop_last(), keep);
        if keep(rs.last()) { prev.push(rs.last()) } else { prev }
    }
}

/// The number of successful records.
pub open spec fn success_count(rs: Seq<ExecutionAudit>) -> nat {
    records_where(rs, |r: ExecutionAudit| r.success).len()
}

/// The sum of the durations.
pub open spec fn duration_sum(rs: Seq<ExecutionAudit>) -> nat
    decreases rs.len(),
{
    if rs.len() == 0 { 0 } else { duration_sum(rs.drop_last()) + rs.last().duration_ms as nat }
}

/// The trail of executions, holding at most a fixed number of the most
/// recent records.
pub struct AuditTrail {
    records: Vec<ExecutionAudit>,
    max_records: usize,
}

impl View for AuditTrail {
    type V = Seq<ExecutionAudit>;

    closed spec fn view(&self) -> Seq<ExecutionAudit> {
        self.records@
    }
}

impl AuditTrail {
    /// How many records are kept at most.
    pub closed spec fn capacity(&self) -> nat {
        self.max_records as nat
    }

    /// An empty trail that keeps at most `max_records` records.
    pub fn new(max_records: usize) -> (r: AuditTrail)
        ensures
            r@.len() == 0,
            r.capacity() == max_records,
    {
        AuditTrail { records: Vec::new(), max_records }
    }

    /// Add a record; when the trail is then over its limit the oldest
    /// records are dropped.
    pub fn record(&mut self, audit: ExecutionAudit)
        ensures
            final(self)@ == kept_after(old(self)@, audit, old(self).capacity()),
            final(self).capacity() == old(self).capacity(),
            final(self)@.len() <= final(self).capacity(),
    {
        let ghost s = old(self)@.push(audit);
        self.records.push(audit);
        if self.records.len() > self.max_records {
            let drop = self.records.len() - self.max_records;
            let mut k: usize = 0;
            while k < drop
                invariant
                    k <= drop,
                    drop == s.len() - self.max_records,
                    self.records@ == s.skip(k as int),
                decreases drop - k,
            {
                self.records.remove(0);
                proof {
                    assert(self.records@ =~= s.skip(k + 1));
                }
                k = k + 1;
            }
        }
    }

    /// The records of the bot `bot_id`, oldest first.
    pub fn get_by_bot(&self, bot_id: &str) -> (r: Vec<&ExecutionAudit>)
        ensures
            r@.map_values(|a: &ExecutionAudit| *a) == records_where(self@, |a: ExecutionAudit| a.bot_id@ == bot_id@),
    {
        let mut r: Vec<&ExecutionAudit> = Vec::new();
        let mut i: usize = 0;
        while i < self.records.len()
            invariant
                i <= self.records@.len(),
                r@.map_values(|a: &ExecutionAudit| *a) == records_where(self.records@.take(i as int), |a: ExecutionAudit| a.bot_id@ == bot_id@),
            decreases self.records@.len() - i,
        {
            let ghost before = r@.map_values(|a: &ExecutionAudit| *a);
            proof {
                assert(self.records@.take(i + 1).drop_last() =~= self.records@.take(i as int));
            }
            if crate::text::str_eq(self.records[i].bot_id.as_str(), bot_id) {
                r.push(&self.records[i]);
                proof {
                    assert(r@.map_values(|a: &ExecutionAudit| *a) =~= before.push(self.records@[i as int]));
                }
            }
            i = i + 1;
        }
        proof {
            assert(self.records@.take(self.records@.len() as int) =~= self.records@);
        }
        r
    }

    /// The records of the template `template_id`, oldest first.
    pub fn get_by_template(&self, template_id: &str) -> (r: Vec<&ExecutionAudit>)
        ensures
            r@.map_values(|a: &ExecutionAudit| *a) == records_where(self@, |a: ExecutionAudit| a.template_id@ == template_id@),
    {
        let mut r: Vec<&ExecutionAudit> = Vec::new();
        let mut i: usize = 0;
        while i < self.records.len()
            invariant
                i <= self.records@.len(),
                r@.map_values(|a: &ExecutionAudit| *a)
                    == records_where(self.records@.take(i as int), |a: ExecutionAudit| a.template_id@ == template_id@),
            decreases self.records@.len() - i,
        {
            let ghost before = r@.map_values(|a: &ExecutionAudit| *a);
            proof {
                assert(self.records@.take(i + 1).drop_last() =~= self.records@.take(i as int));
            }
            if crate::text::str_eq(self.records[i].template_id.as_str(), template_id) {
                r.push(&self.records[i]);
                proof {
                    assert(r@.map_values(|a: &ExecutionAudit| *a) =~= before.push(self.records@[i as int]));
                }
            }
            i = i + 1;
        }
        proof {
            assert(self.records@.take(self.records@.len() as int) =~= self.records@);
        }
        r
    }

    /// The first record with id `id`.
    pub fn get_by_id(&self, id: &Uuid) -> (r: Option<&ExecutionAudit>)
        ensures
            match r {
                Some(a) => exists|i: int| 0 <= i < self@.len() && self@[i] == *a
                    && uuid_value(a.id) == uuid_value(*id)
                    && forall|j: int| 0 <= j < i ==> uuid_value(self@[j].id) != uuid_value(*id),
                None => forall|j: int| 0 <= j < self@.len() ==> uuid_value(self@[j].id) != uuid_value(*id),
            },
    {
        let want = uuid_bits(id);
        let mut i: usize = 0;
        while i < self.records.len()
            invariant
                i <= self.records@.len(),
                want == uuid_value(*id),
                forall|j: int| 0 <= j < i ==> uuid_value(self.records@[j].id) != uuid_value(*id),
            decreases self.records@.len() - i,
        {
            if uuid_bits(&self.records[i].id) == want {
                return Some(&self.records[i]);
            }
            i = i + 1;
        }
        None
    }

    /// The failed records, oldest first.
    pub fn get_failures(&self) -> (r: Vec<&ExecutionAudit>)
        ensures
            r@.map_values(|a: &ExecutionAudit| *a) == records_where(self@, |a: ExecutionAudit| !a.success),
    {
        let mut r: Vec<&ExecutionAudit> = Vec::new();
        let mut i: usize = 0;
        while i < self.records.len()
            invariant
                i <= self.records@.len(),
                r@.map_values(|a: &ExecutionAudit| *a) == records_where(self.records@.take(i as int), |a: ExecutionAudit| !a.success),
            decreases self.records@.len() - i,
        {
            let ghost before = r@.map_values(|a: &ExecutionAudit| *a);
            proof {
                assert(self.records@.take(i + 1).drop_last() =~= self.records@.take(i as int));
            }
            if !self.records[i].success {
                r.push(&self.records[i]);
                proof {
                    assert(r@.map_values(|a: &ExecutionAudit| *a) =~= before.push(self.records@[i as int]));
                }
            }
            i = i + 1;
        }
        proof {
            assert(self.records@.take(self.records@.len() as int) =~= self.records@);
        }
        r
    }

    /// All records, oldest first.
    pub fn get_all(&self) -> (r: &[ExecutionAudit])
        ensures
            r@ == self@,
    {
        self.records.as_slice()
    }

    /// The number of records.
    pub fn count(&self) -> (r: usize)
        ensures
            r == self@.len(),
    {
        self.records.len()
    }

    /// Drop all records; the limit stays.
    pub fn clear(&mut self)
        ensures
            final(self)@.len() == 0,
            final(self).capacity() == old(self).capacity(),
    {
        self.records.clear();
    }

    /// The number of records, of successes and of failures, and the mean
    /// duration.
    pub fn get_stats(&self) -> (r: AuditStats)
        requires
            duration_sum(self@) <= u64::MAX,
        ensures
            r.total == self@.len(),
            r.successes == success_count(self@),
            r.failures == self@.len() - success_count(self@),
            r.avg_duration == if self@.len() > 0 { duration_sum(self@) / self@.len() } else { 0 },
    {
        let total = self.records.len();
        let mut successes: usize = 0;
        let mut sum: u64 = 0;
        let mut i: usize = 0;
        while i < total
            invariant
                i <= total,
                total == self.records@.len(),
                successes == success_count(self.records@.take(i as int)),
                successes <= i,
                sum == duration_sum(self.records@.take(i as int)),
                duration_sum(self.records@) <= u64::MAX,
            decreases total - i,
        {
            proof {
                let t1 = self.records@.take(i + 1);
                assert(t1.drop_last() =~= self.records@.take(i as int));
                assert(t1.last() == self.records@[i as int]);
                lemma_duration_sum_prefix(self.records@, i + 1);
            }
            if self.records[i].success {
                successes = successes + 1;
            }
            sum = sum + self.records[i].duration_ms;
            i = i + 1;
        }
        proof {
            assert(self.records@.take(total as int) =~= self.records@);
        }
        let avg_duration = if total > 0 { sum / (total as u64) } else { 0 };
        AuditStats { total, successes, failures: total - successes, avg_duration }
    }
}

/// The duration sum of a prefix is at most that of the whole.
proof fn lemma_duration_sum_prefix(rs: Seq<ExecutionAudit>, k: int)
    requires
        0 <= k <= rs.len(),
    ensures
        duration_sum(rs.take(k)) <= duration_sum(rs),
    decreases rs.len(),
{
    if k < rs.len() {
        assert(rs.drop_last().take(k) =~= rs.take(k));
        lemma_duration_sum_prefix(rs.drop_last(), k);
    } else {
        assert(rs.take(k) =~= rs);
    }
}

impl Default for AuditTrail {
    /// A trail that keeps the last ten thousand records.
    fn default() -> (r: AuditTrail)
        ensures
            r@.len() == 0,
            r.capacity() == 10000,
    {
        AuditTrail::new(10000)
    }
}

} // verus!
