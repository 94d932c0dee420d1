//! Disconnect-cleanup settings and the records handed to cleanup workers.
use vstd::prelude::*;
use vstd::string::*;
use crate::local_adapter::cpu_count;
use crate::text::{decimal, decimal_spec, join3};

verus! {

pub open spec fn is_digit(c: char) -> bool {
    '0' <= c && c <= '9'
}

pub open spec fn all_digits(s: Seq<char>) -> bool {
    forall|i: int| 0 <= i < s.len() ==> is_digit(#[trigger] s[i])
}

/// Value of a string of decimal digits.
pub open spec fn digits_value(s: Seq<char>) -> nat
    decreases s.len(),
{
    if s.len() == 0 {
        0
    } else {
        digits_value(s.drop_last()) * 10 + ((s.last() as nat) - ('0' as nat)) as nat
    }
}

/// The digits after an optional leading `+`.
pub open spec fn unsigned_body(s: Seq<char>) -> Seq<char> {
    if s.len() > 0 && s[0] == '+' { s.drop_first() } else { s }
}

/// `s` reads as a `usize` under `str::parse`.
pub open spec fn parses_as_usize(s: Seq<char>) -> bool {
    unsigned_body(s).len() > 0 && all_digits(unsigned_body(s)) && digits_value(unsigned_body(s)) <= usize::MAX
}

proof fn lemma_digits_value_grows(s: Seq<char>, j: int)
    requires
        all_digits(s),
        0 <= j <= s.len(),
    ensures
        digits_value(s) >= digits_value(s.take(j)),
    decreases s.len(),
{
    if j < s.len() {
        let w = s.drop_last();
        assert(all_digits(w)) by {
            assert forall|i: int| 0 <= i < w.len() implies is_digit(#[trigger] w[i]) by {
                assert(w[i] == s[i]);
            }
        }
        lemma_digits_value_grows(w, j);
        assert(w.take(j) =~= s.take(j));
        assert(is_digit(s[s.len() - 1]));
    } else {
        assert(s.take(j) =~= s);
    }
}

/// Reads `s` as `str::parse::<usize>` does: an optional `+`, then at least
/// one decimal digit, whose value must fit.
pub fn parse_usize(s: &str) -> (r: Option<usize>)
    ensures
        r is Some == parses_as_usize(s@),
        r is Some ==> r->Some_0 as nat == digits_value(unsigned_body(s@)),
{
    let n = s.unicode_len();
    let start: usize = if n > 0 && s.get_char(0) == '+' { 1 } else { 0 };
    let ghost body = unsigned_body(s@);
    assert(body =~= s@.subrange(start as int, n as int));
    if start == n {
        return None;
    }
    let mut acc: usize = 0;
    let mut i: usize = start;
    while i < n
        invariant
            start <= i <= n,
            n == s@.len(),
            body == s@.subrange(start as int, n as int),
            body == unsigned_body(s@),
            all_digits(body.take(i - start)),
            acc as nat == digits_value(body.take(i - start)),
        decreases n - i,
    {
        let c = s.get_char(i);
        let ghost k = i - start;
        assert(body[k] == c);
        if !('0' <= c && c <= '9') {
            assert(!all_digits(body));
            return None;
        }
        let d = (c as u32 - '0' as u32) as usize;
        assert(d as nat == (c as nat) - ('0' as nat));
        assert(body.take(k + 1).drop_last() =~= body.take(k));
        assert(body.take(k + 1).last() == c);
        assert(digits_value(body.take(k + 1)) == acc * 10 + d);
        assert(all_digits(body.take(k + 1))) by {
            assert forall|j: int| 0 <= j < k + 1 implies is_digit(#[trigger] body.take(k + 1)[j]) by {
                if j < k {
                    assert(body.take(k + 1)[j] == body.take(k)[j]);
                }
            }
        }
        if acc > (usize::MAX - d) / 10 {
            proof {
                assert(acc * 10 + d > usize::MAX) by (nonlinear_arith)
                    requires acc > (usize::MAX - d) / 10, d <= 9;
                if all_digits(body) {
                    lemma_digits_value_grows(body, k + 1);
                }
            }
            return None;
        }
        proof {
            assert(acc * 10 + d <= usize::MAX) by (nonlinear_arith)
                requires acc <= (usize::MAX - d) / 10, d <= 9;
        }
        acc = acc * 10 + d;
        i = i + 1;
    }
    assert(body.take(n - start) =~= body);
    Some(acc)
}

/// The lower-case form of a string.
pub uninterp spec fn lower_of(s: Seq<char>) -> Seq<char>;

/// Relies on `str::to_lowercase`: the result depends on the characters alone.
#[verifier::external_body]
fn lowercase(s: &str) -> (r: String)
    ensures
        r@ == lower_of(s@),
{
    s.to_lowercase()
}

/// How many cleanup workers to run.
#[derive(Debug, Clone, Copy, PartialEq, Eq, Structural)]
pub enum WorkerThreadsConfig {
    /// A quarter of the CPUs, between 1 and 4.
    Auto,
    Fixed(usize),
}

pub open spec fn auto_threads(cpus: int) -> int {
    if cpus / 4 < 1 { 1 } else if cpus / 4 > 4 { 4 } else { cpus / 4 }
}

pub open spec fn auto_text() -> Seq<char> {
    seq!['a', 'u', 't', 'o']
}

pub open spec fn greater_than_zero_msg() -> Seq<char> {
    "worker_threads must be greater than 0"@
}

pub open spec fn expected_msg(value: Seq<char>) -> Seq<char> {
    "expected \"auto\" or positive integer, got \""@ + value + "\""@
}

/// The outcome of reading `value` (lower-cased: `lowered`) as a worker setting.
pub open spec fn from_lowered_spec(value: Seq<char>, lowered: Seq<char>) -> Result<WorkerThreadsConfig, Seq<char>> {
    if lowered == auto_text() {
        Ok(WorkerThreadsConfig::Auto)
    } else if !parses_as_usize(value) {
        Err(expected_msg(value))
    } else if digits_value(unsigned_body(value)) == 0 {
        Err(greater_than_zero_msg())
    } else {
        Ok(WorkerThreadsConfig::Fixed(digits_value(unsigned_body(value)) as usize))
    }
}

impl WorkerThreadsConfig {
    /// The worker count for a machine with `cpus` CPUs.
    pub fn resolve_with_cpus(&self, cpus: usize) -> (r: usize)
        ensures
            match *self {
                WorkerThreadsConfig::Auto => r == auto_threads(cpus as int),
                WorkerThreadsConfig::Fixed(n) => r == n,
            },
    {
        match self {
            WorkerThreadsConfig::Auto => {
                let q = cpus / 4;
                if q < 1 { 1 } else if q > 4 { 4 } else { q }
            },
            WorkerThreadsConfig::Fixed(n) => *n,
        }
    }

    /// The worker count on this machine.
    pub fn resolve(&self) -> (r: usize)
        ensures
            match *self {
                WorkerThreadsConfig::Auto => 1 <= r <= 4,
                WorkerThreadsConfig::Fixed(n) => r == n,
            },
    {
        let cpus = cpu_count();
        self.resolve_with_cpus(cpus)
    }

    /// Reads a setting given as a string: `auto` in any case, or a positive integer.
    pub fn from_config_str(value: &str) -> (r: Result<WorkerThreadsConfig, String>)
        ensures
            r is Ok == from_lowered_spec(value@, lower_of(value@)) is Ok,
            r is Ok ==> r->Ok_0 == from_lowered_spec(value@, lower_of(value@))->Ok_0,
            r is Err ==> r->Err_0@ == from_lowered_spec(value@, lower_of(value@))->Err_0,
    {
        let lower = lowercase(value);
        Self::from_lowered(value, lower.as_str())
    }

    /// Reads a setting given as `value`, whose lower-case form is `lowered`:
    /// `auto`, or a positive integer (an optional `+`, then decimal digits).
    pub fn from_lowered(value: &str, lowered: &str) -> (r: Result<WorkerThreadsConfig, String>)
        ensures
            r is Ok == from_lowered_spec(value@, lowered@) is Ok,
            r is Ok ==> r->Ok_0 == from_lowered_spec(value@, lowered@)->Ok_0,
            r is Err ==> r->Err_0@ == from_lowered_spec(value@, lowered@)->Err_0,
    {
        proof {
            reveal_strlit("auto");
            assert("auto"@ =~= auto_text());
        }
        if crate::token::secure_compare(lowered, "auto") {
            return Ok(WorkerThreadsConfig::Auto);
        }
        match parse_usize(value) {
            Some(n) => {
                if n > 0 {
                    Ok(WorkerThreadsConfig::Fixed(n))
                } else {
                    proof { reveal_strlit("worker_threads must be greater than 0"); }
                    Err("worker_threads must be greater than 0".to_string())
                }
            },
            None => {
                proof {
                    reveal_strlit("expected \"auto\" or positive integer, got \"");
                    reveal_strlit("\"");
                }
                Err(join3("expected \"auto\" or positive integer, got \"", value, "\""))
            },
        }
    }

    /// Reads a setting given as a number, which must be positive.
    pub fn from_config_u64(value: u64) -> (r: Result<WorkerThreadsConfig, String>)
        ensures
            value > 0 && value <= usize::MAX ==> r == Ok::<WorkerThreadsConfig, String>(WorkerThreadsConfig::Fixed(value as usize)),
            value == 0 ==> r is Err && r->Err_0@ == greater_than_zero_msg(),
            value > usize::MAX ==> r is Err,
    {
        if value == 0 {
            Err("worker_threads must be greater than 0".to_string())
        } else if value <= usize::MAX as u64 {
            Ok(WorkerThreadsConfig::Fixed(value as usize))
        } else {
            Err("worker_threads value too large".to_string())
        }
    }

    /// The setting as a JSON scalar: the string `"auto"`, or the number.
    pub fn to_json_text(&self) -> (r: String)
        ensures
            *self == WorkerThreadsConfig::Auto ==> r@ == seq!['"'] + auto_text() + seq!['"'],
            self is Fixed ==> r@ == decimal_spec(self->Fixed_0 as nat),
    {
        match self {
            WorkerThreadsConfig::Auto => {
                proof {
                    reveal_strlit("\"auto\"");
                    assert("\"auto\""@ =~= seq!['"'] + auto_text() + seq!['"']);
                }
                "\"auto\"".to_string()
            },
            WorkerThreadsConfig::Fixed(n) => decimal(*n as u64),
        }
    }
}

/// Settings of the disconnect-cleanup queue.
#[derive(Debug, Clone, Copy)]
pub struct CleanupConfig {
    pub queue_buffer_size: usize,
    pub batch_size: usize,
    pub batch_timeout_ms: u64,
    pub worker_threads: WorkerThreadsConfig,
    pub max_retry_attempts: u32,
    pub async_enabled: bool,
    pub fallback_to_sync: bool,
}

/// The first problem `validate` reports, if any.
pub open spec fn config_problem(c: CleanupConfig) -> Option<Seq<char>> {
    if c.queue_buffer_size == 0 {
        Some("queue_buffer_size must be greater than 0"@)
    } else if c.batch_size == 0 {
        Some("batch_size must be greater than 0"@)
    } else if c.batch_timeout_ms == 0 {
        Some("batch_timeout_ms must be greater than 0"@)
    } else if c.worker_threads == WorkerThreadsConfig::Fixed(0) {
        Some("worker_threads must be greater than 0 when using fixed count"@)
    } else if c.queue_buffer_size < c.batch_size {
        Some("queue_buffer_size ("@ + decimal_spec(c.queue_buffer_size as nat) + ") should be at least as large as batch_size ("@
            + decimal_spec(c.batch_size as nat) + ")"@)
    } else if c.batch_timeout_ms > 60000 {
        Some("batch_timeout_ms ("@ + decimal_spec(c.batch_timeout_ms as nat) + ") is unusually high (> 60 seconds), this may cause delays"@)
    } else if !c.async_enabled && !c.fallback_to_sync {
        Some("Either async_enabled or fallback_to_sync must be true"@)
    } else {
        None
    }
}

impl CleanupConfig {
    /// Checks the settings; the error names the first problem found.
    pub fn validate(&self) -> (r: Result<(), String>)
        ensures
            r is Ok == config_problem(*self) is None,
            r is Err ==> config_problem(*self) == Some(r->Err_0@),
    {
        proof {
            reveal_strlit("queue_buffer_size must be greater than 0");
            reveal_strlit("batch_size must be greater than 0");
            reveal_strlit("batch_timeout_ms must be greater than 0");
            reveal_strlit("worker_threads must be greater than 0 when using fixed count");
            reveal_strlit("queue_buffer_size (");
            reveal_strlit(") should be at least as large as batch_size (");
            reveal_strlit(")");
            reveal_strlit("batch_timeout_ms (");
            reveal_strlit(") is unusually high (> 60 seconds), this may cause delays");
            reveal_strlit("Either async_enabled or fallback_to_sync must be true");
        }
        if self.queue_buffer_size == 0 {
            return Err("queue_buffer_size must be greater than 0".to_string());
        }
        if self.batch_size == 0 {
            return Err("batch_size must be greater than 0".to_string());
        }
        if self.batch_timeout_ms == 0 {
            return Err("batch_timeout_ms must be greater than 0".to_string());
        }
        match self.worker_threads {
            WorkerThreadsConfig::Fixed(n) => {
                if n == 0 {
                    return Err("worker_threads must be greater than 0 when using fixed count".to_string());
                }
            },
            WorkerThreadsConfig::Auto => {},
        }
        if self.queue_buffer_size < self.batch_size {
            let a = join3("queue_buffer_size (", decimal(self.queue_buffer_size as u64).as_str(), ") should be at least as large as batch_size (");
            let b = join3(a.as_str(), decimal(self.batch_size as u64).as_str(), ")");
            return Err(b);
        }
        if self.batch_timeout_ms > 60000 {
            let a = join3("batch_timeout_ms (", decimal(self.batch_timeout_ms).as_str(), ") is unusually high (> 60 seconds), this may cause delays");
            return Err(a);
        }
        if !self.async_enabled && !self.fallback_to_sync {
            return Err("Either async_enabled or fallback_to_sync must be true".to_string());
        }
        Ok(())
    }
}

impl Default for CleanupConfig {
    /// A queue of 50000 tasks, batches of 25 within 50 ms, automatic worker
    /// count, 2 retries, asynchronous cleanup with a synchronous fallback.
    fn default() -> (r: CleanupConfig)
        ensures
            r.queue_buffer_size == 50000,
            r.batch_size == 25,
            r.batch_timeout_ms == 50,
            r.worker_threads == WorkerThreadsConfig::Auto,
            r.max_retry_attempts == 2,
            r.async_enabled,
            r.fallback_to_sync,
    {
        CleanupConfig {
            queue_buffer_size: 50000,
            batch_size: 25,
            batch_timeout_ms: 50,
            worker_threads: WorkerThreadsConfig::Auto,
            max_retry_attempts: 2,
            async_enabled: true,
            fallback_to_sync: true,
        }
    }
}

/// Who held a presence membership, for the webhooks of a disconnect.
#[derive(Debug, Clone)]
pub struct AuthInfo {
    pub user_id: String,
    pub user_info: Option<String>,
}

/// What a cleanup worker needs beyond the channel list.
#[derive(Debug, Clone)]
pub struct ConnectionCleanupInfo {
    pub presence_channels: Vec<String>,
    pub auth_info: Option<AuthInfo>,
}

/// A disconnected socket whose index entries are still to be removed.
#[derive(Debug, Clone)]
pub struct DisconnectTask {
    pub socket_id: String,
    pub app_id: String,
    pub subscribed_channels: Vec<String>,
    pub user_id: Option<String>,
    /// When the disconnect was seen, in milliseconds on the caller's clock.
    pub timestamp_ms: u64,
    pub connection_info: Option<ConnectionCleanupInfo>,
}

} // verus!
