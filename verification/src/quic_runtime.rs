//! Process-wide QUIC and HTTP/3 limits.
//!
//! These are resource-policy settings, not route semantics. They are read once at
//! startup from `SNI_GATE_QUIC_*`; the data path then reads one immutable object.

use crate::text;
use crate::time::Duration;
use std::sync::Arc;
use vstd::prelude::*;

verus! {

pub const DEFAULT_MAX_PENDING_HANDSHAKES: usize = 256;

pub const DEFAULT_MAX_H3_CONNECTIONS: usize = 1024;

pub const DEFAULT_MAX_REQUESTS_PER_CONNECTION: usize = 256;

pub const DEFAULT_MAX_FIELD_SECTION_SIZE: u64 = 65536;

pub const DEFAULT_MAX_UPSTREAM_POOL_ENTRIES: usize = 256;

pub const DEFAULT_UPSTREAM_POOL_IDLE_SECS: u64 = 60;

pub const DEFAULT_MAX_PENDING_UPSTREAM_CONNECTS: usize = 64;

pub const DEFAULT_MAX_H3_INGRESS_BYTES: usize = 8388608;

pub const DEFAULT_MAX_RAW_FORWARDING_BYTES: usize = 67108864;

pub const ENV_MAX_PENDING_HANDSHAKES: &'static str = "SNI_GATE_QUIC_MAX_PENDING_HANDSHAKES";

pub const ENV_MAX_H3_CONNECTIONS: &'static str = "SNI_GATE_QUIC_MAX_H3_CONNECTIONS";

pub const ENV_MAX_REQUESTS_PER_CONNECTION: &'static str = "SNI_GATE_QUIC_MAX_REQUESTS_PER_CONNECTION";

pub const ENV_MAX_FIELD_SECTION_SIZE: &'static str = "SNI_GATE_QUIC_MAX_FIELD_SECTION_SIZE";

pub const ENV_MAX_UPSTREAM_POOL_ENTRIES: &'static str = "SNI_GATE_QUIC_MAX_UPSTREAM_POOL_ENTRIES";

pub const ENV_UPSTREAM_POOL_IDLE_SECS: &'static str = "SNI_GATE_QUIC_UPSTREAM_POOL_IDLE_SECS";

pub const ENV_MAX_PENDING_UPSTREAM_CONNECTS: &'static str = "SNI_GATE_QUIC_MAX_PENDING_UPSTREAM_CONNECTS";

pub const ENV_MAX_H3_INGRESS_BYTES: &'static str = "SNI_GATE_QUIC_MAX_H3_INGRESS_BYTES";

pub const ENV_MAX_RAW_FORWARDING_BYTES: &'static str = "SNI_GATE_QUIC_MAX_RAW_FORWARDING_BYTES";

/// The limits.
#[derive(Debug, Clone, Copy, PartialEq, Eq, Structural)]
pub struct QuicRuntimeLimits {
    pub max_pending_handshakes: usize,
    pub max_h3_connections: usize,
    pub max_requests_per_connection: usize,
    pub max_field_section_size: u64,
    pub max_upstream_pool_entries: usize,
    pub upstream_pool_idle: Duration,
    pub max_pending_upstream_connects: usize,
    pub max_h3_ingress_bytes: usize,
    pub max_raw_forwarding_bytes: usize,
}

/// The limits where nothing is set.
pub open spec fn default_limits() -> QuicRuntimeLimits {
    QuicRuntimeLimits {
        max_pending_handshakes: DEFAULT_MAX_PENDING_HANDSHAKES,
        max_h3_connections: DEFAULT_MAX_H3_CONNECTIONS,
        max_requests_per_connection: DEFAULT_MAX_REQUESTS_PER_CONNECTION,
        max_field_section_size: DEFAULT_MAX_FIELD_SECTION_SIZE,
        max_upstream_pool_entries: DEFAULT_MAX_UPSTREAM_POOL_ENTRIES,
        upstream_pool_idle: Duration { nanos: 60000000000 },
        max_pending_upstream_connects: DEFAULT_MAX_PENDING_UPSTREAM_CONNECTS,
        max_h3_ingress_bytes: DEFAULT_MAX_H3_INGRESS_BYTES,
        max_raw_forwarding_bytes: DEFAULT_MAX_RAW_FORWARDING_BYTES,
    }
}

impl Default for QuicRuntimeLimits {
    fn default() -> (r: Self)
        ensures
            r == default_limits(),
    {
        QuicRuntimeLimits {
            max_pending_handshakes: DEFAULT_MAX_PENDING_HANDSHAKES,
            max_h3_connections: DEFAULT_MAX_H3_CONNECTIONS,
            max_requests_per_connection: DEFAULT_MAX_REQUESTS_PER_CONNECTION,
            max_field_section_size: DEFAULT_MAX_FIELD_SECTION_SIZE,
            max_upstream_pool_entries: DEFAULT_MAX_UPSTREAM_POOL_ENTRIES,
            upstream_pool_idle: Duration::from_secs(DEFAULT_UPSTREAM_POOL_IDLE_SECS),
            max_pending_upstream_connects: DEFAULT_MAX_PENDING_UPSTREAM_CONNECTS,
            max_h3_ingress_bytes: DEFAULT_MAX_H3_INGRESS_BYTES,
            max_raw_forwarding_bytes: DEFAULT_MAX_RAW_FORWARDING_BYTES,
        }
    }
}

/// What the environment sets, as it is written there.
#[derive(Debug, Clone)]
pub struct QuicEnv {
    pub max_pending_handshakes: Option<String>,
    pub max_h3_connections: Option<String>,
    pub max_requests_per_connection: Option<String>,
    pub max_field_section_size: Option<String>,
    pub max_upstream_pool_entries: Option<String>,
    pub upstream_pool_idle_secs: Option<String>,
    pub max_pending_upstream_connects: Option<String>,
    pub max_h3_ingress_bytes: Option<String>,
    pub max_raw_forwarding_bytes: Option<String>,
}

/// The most permits that a semaphore can hold.
pub open spec fn max_permits() -> int {
    usize::MAX as int / 8
}

/// What a setting says: a positive number up to `max`, the default where it is
/// not set, or why it makes no sense.
pub open spec fn positive(name: Seq<char>, raw: Option<Seq<char>>, default: int, max: int) -> Result<int, Seq<char>> {
    match raw {
        None => Ok(default),
        Some(s) => match text::number_up_to(text::trim(s), max) {
            None => Err(name + " must be a positive integer"@),
            Some(n) => if n == 0 {
                Err(name + " must be greater than zero"@)
            } else {
                Ok(n as int)
            },
        },
    }
}

/// What a byte budget's setting says. A budget is kept in a semaphore, whose
/// permits are limited.
pub open spec fn byte_budget(name: Seq<char>, raw: Option<Seq<char>>, default: int) -> Result<int, Seq<char>> {
    match positive(name, raw, default, usize::MAX as int) {
        Err(m) => Err(m),
        Ok(n) => if n > max_permits() {
            Err(name + " must not exceed "@ + text::dec(max_permits() as nat))
        } else {
            Ok(n)
        },
    }
}

/// `tokio::sync::Semaphore::MAX_PERMITS`, which its documentation gives as
/// `usize::MAX >> 3`.
#[verifier::external_body]
fn semaphore_max_permits() -> (r: usize)
    ensures
        r == max_permits(),
{
    tokio::sync::Semaphore::MAX_PERMITS
}

fn parse_positive_u64(name: &str, raw: &Option<String>, default: u64, max: u64) -> (r: Result<u64, String>)
    ensures
        match r {
            Ok(n) => positive(name@, text::opt_text(*raw), default as int, max as int) == Ok::<int, Seq<char>>(n as int),
            Err(m) => positive(name@, text::opt_text(*raw), default as int, max as int) == Err::<int, Seq<char>>(m@),
        },
{
    match raw {
        None => Ok(default),
        Some(s) => {
            let t = text::trimmed_chars(s.as_str());
            match text::parse_number(t.as_slice(), max) {
                None => {
                    let mut m = name.to_owned();
                    text::push_text(&mut m, " must be a positive integer");
                    Err(m)
                },
                Some(n) => {
                    if n == 0 {
                        let mut m = name.to_owned();
                        text::push_text(&mut m, " must be greater than zero");
                        Err(m)
                    } else {
                        Ok(n)
                    }
                },
            }
        },
    }
}

fn parse_positive_usize(name: &str, raw: &Option<String>, default: usize) -> (r: Result<usize, String>)
    ensures
        match r {
            Ok(n) => positive(name@, text::opt_text(*raw), default as int, usize::MAX as int) == Ok::<int, Seq<char>>(
                n as int,
            ),
            Err(m) => positive(name@, text::opt_text(*raw), default as int, usize::MAX as int) == Err::<int, Seq<char>>(
                m@,
            ),
        },
{
    match parse_positive_u64(name, raw, default as u64, usize::MAX as u64) {
        Ok(n) => {
            proof {
                lemma_positive_bound(name@, text::opt_text(*raw), default as int, usize::MAX as int);
            }
            Ok(n as usize)
        },
        Err(m) => Err(m),
    }
}

proof fn lemma_positive_bound(name: Seq<char>, raw: Option<Seq<char>>, default: int, max: int)
    requires
        0 <= default <= max,
    ensures
        positive(name, raw, default, max) matches Ok(n) ==> 0 <= n <= max,
{
}

fn parse_byte_budget(name: &str, raw: &Option<String>, default: usize) -> (r: Result<usize, String>)
    ensures
        match r {
            Ok(n) => byte_budget(name@, text::opt_text(*raw), default as int) == Ok::<int, Seq<char>>(n as int),
            Err(m) => byte_budget(name@, text::opt_text(*raw), default as int) == Err::<int, Seq<char>>(m@),
        },
{
    match parse_positive_usize(name, raw, default) {
        Err(m) => Err(m),
        Ok(n) => {
            let most = semaphore_max_permits();
            if n > most {
                let mut m = name.to_owned();
                text::push_text(&mut m, " must not exceed ");
                text::push_dec(&mut m, most as u64);
                Err(m)
            } else {
                Ok(n)
            }
        },
    }
}

/// A limit that counts something, as the environment sets it.
pub open spec fn count_limit(name: &str, raw: Option<String>, default: usize) -> Result<int, Seq<char>> {
    positive(name@, text::opt_text(raw), default as int, usize::MAX as int)
}

/// The first thing wrong with what the environment sets.
pub open spec fn env_problem(env: QuicEnv) -> Option<Seq<char>> {
    let handshakes = count_limit(
        ENV_MAX_PENDING_HANDSHAKES,
        env.max_pending_handshakes,
        DEFAULT_MAX_PENDING_HANDSHAKES,
    );
    let connections = count_limit(ENV_MAX_H3_CONNECTIONS, env.max_h3_connections, DEFAULT_MAX_H3_CONNECTIONS);
    let requests = count_limit(
        ENV_MAX_REQUESTS_PER_CONNECTION,
        env.max_requests_per_connection,
        DEFAULT_MAX_REQUESTS_PER_CONNECTION,
    );
    let fields = positive(
        ENV_MAX_FIELD_SECTION_SIZE@,
        text::opt_text(env.max_field_section_size),
        DEFAULT_MAX_FIELD_SECTION_SIZE as int,
        u64::MAX as int,
    );
    let entries = count_limit(
        ENV_MAX_UPSTREAM_POOL_ENTRIES,
        env.max_upstream_pool_entries,
        DEFAULT_MAX_UPSTREAM_POOL_ENTRIES,
    );
    let idle = positive(
        ENV_UPSTREAM_POOL_IDLE_SECS@,
        text::opt_text(env.upstream_pool_idle_secs),
        DEFAULT_UPSTREAM_POOL_IDLE_SECS as int,
        u64::MAX as int,
    );
    let connects = count_limit(
        ENV_MAX_PENDING_UPSTREAM_CONNECTS,
        env.max_pending_upstream_connects,
        DEFAULT_MAX_PENDING_UPSTREAM_CONNECTS,
    );
    let ingress = byte_budget(
        ENV_MAX_H3_INGRESS_BYTES@,
        text::opt_text(env.max_h3_ingress_bytes),
        DEFAULT_MAX_H3_INGRESS_BYTES as int,
    );
    let raw = byte_budget(
        ENV_MAX_RAW_FORWARDING_BYTES@,
        text::opt_text(env.max_raw_forwarding_bytes),
        DEFAULT_MAX_RAW_FORWARDING_BYTES as int,
    );
    if handshakes is Err {
        Some(handshakes->Err_0)
    } else if connections is Err {
        Some(connections->Err_0)
    } else if requests is Err {
        Some(requests->Err_0)
    } else if fields is Err {
        Some(fields->Err_0)
    } else if entries is Err {
        Some(entries->Err_0)
    } else if idle is Err {
        Some(idle->Err_0)
    } else if connects is Err {
        Some(connects->Err_0)
    } else if ingress is Err {
        Some(ingress->Err_0)
    } else if raw is Err {
        Some(raw->Err_0)
    } else {
        None
    }
}

/// Whether limits are what the environment sets.
pub open spec fn limits_match(env: QuicEnv, r: QuicRuntimeLimits) -> bool {
    &&& count_limit(ENV_MAX_PENDING_HANDSHAKES, env.max_pending_handshakes, DEFAULT_MAX_PENDING_HANDSHAKES) == Ok::<
        int,
        Seq<char>,
    >(r.max_pending_handshakes as int)
    &&& count_limit(ENV_MAX_H3_CONNECTIONS, env.max_h3_connections, DEFAULT_MAX_H3_CONNECTIONS) == Ok::<
        int,
        Seq<char>,
    >(r.max_h3_connections as int)
    &&& count_limit(
        ENV_MAX_REQUESTS_PER_CONNECTION,
        env.max_requests_per_connection,
        DEFAULT_MAX_REQUESTS_PER_CONNECTION,
    ) == Ok::<int, Seq<char>>(r.max_requests_per_connection as int)
    &&& positive(
        ENV_MAX_FIELD_SECTION_SIZE@,
        text::opt_text(env.max_field_section_size),
        DEFAULT_MAX_FIELD_SECTION_SIZE as int,
        u64::MAX as int,
    ) == Ok::<int, Seq<char>>(r.max_field_section_size as int)
    &&& count_limit(
        ENV_MAX_UPSTREAM_POOL_ENTRIES,
        env.max_upstream_pool_entries,
        DEFAULT_MAX_UPSTREAM_POOL_ENTRIES,
    ) == Ok::<int, Seq<char>>(r.max_upstream_pool_entries as int)
    &&& exists|secs: u64|
        positive(
            ENV_UPSTREAM_POOL_IDLE_SECS@,
            text::opt_text(env.upstream_pool_idle_secs),
            DEFAULT_UPSTREAM_POOL_IDLE_SECS as int,
            u64::MAX as int,
        ) == Ok::<int, Seq<char>>(secs as int) && r.upstream_pool_idle == #[trigger] crate::config::secs(secs)
    &&& count_limit(
        ENV_MAX_PENDING_UPSTREAM_CONNECTS,
        env.max_pending_upstream_connects,
        DEFAULT_MAX_PENDING_UPSTREAM_CONNECTS,
    ) == Ok::<int, Seq<char>>(r.max_pending_upstream_connects as int)
    &&& byte_budget(
        ENV_MAX_H3_INGRESS_BYTES@,
        text::opt_text(env.max_h3_ingress_bytes),
        DEFAULT_MAX_H3_INGRESS_BYTES as int,
    ) == Ok::<int, Seq<char>>(r.max_h3_ingress_bytes as int)
    &&& byte_budget(
        ENV_MAX_RAW_FORWARDING_BYTES@,
        text::opt_text(env.max_raw_forwarding_bytes),
        DEFAULT_MAX_RAW_FORWARDING_BYTES as int,
    ) == Ok::<int, Seq<char>>(r.max_raw_forwarding_bytes as int)
}

impl QuicRuntimeLimits {
    /// The limits that the environment sets.
    pub fn from_env(env: &QuicEnv) -> (r: Result<Self, String>)
        ensures
            match r {
                Ok(limits) => env_problem(*env) is None && limits_match(*env, limits),
                Err(m) => env_problem(*env) == Some(m@),
            },
    {
        let max_pending_handshakes = match parse_positive_usize(
            ENV_MAX_PENDING_HANDSHAKES,
            &env.max_pending_handshakes,
            DEFAULT_MAX_PENDING_HANDSHAKES,
        ) {
            Ok(n) => n,
            Err(m) => return Err(m),
        };
        let max_h3_connections = match parse_positive_usize(
            ENV_MAX_H3_CONNECTIONS,
            &env.max_h3_connections,
            DEFAULT_MAX_H3_CONNECTIONS,
        ) {
            Ok(n) => n,
            Err(m) => return Err(m),
        };
        let max_requests_per_connection = match parse_positive_usize(
            ENV_MAX_REQUESTS_PER_CONNECTION,
            &env.max_requests_per_connection,
            DEFAULT_MAX_REQUESTS_PER_CONNECTION,
        ) {
            Ok(n) => n,
            Err(m) => return Err(m),
        };
        let max_field_section_size = match parse_positive_u64(
            ENV_MAX_FIELD_SECTION_SIZE,
            &env.max_field_section_size,
            DEFAULT_MAX_FIELD_SECTION_SIZE,
            u64::MAX,
        ) {
            Ok(n) => n,
            Err(m) => return Err(m),
        };
        let max_upstream_pool_entries = match parse_positive_usize(
            ENV_MAX_UPSTREAM_POOL_ENTRIES,
            &env.max_upstream_pool_entries,
            DEFAULT_MAX_UPSTREAM_POOL_ENTRIES,
        ) {
            Ok(n) => n,
            Err(m) => return Err(m),
        };
        let idle_secs = match parse_positive_u64(
            ENV_UPSTREAM_POOL_IDLE_SECS,
            &env.upstream_pool_idle_secs,
            DEFAULT_UPSTREAM_POOL_IDLE_SECS,
            u64::MAX,
        ) {
            Ok(n) => n,
            Err(m) => return Err(m),
        };
        let max_pending_upstream_connects = match parse_positive_usize(
            ENV_MAX_PENDING_UPSTREAM_CONNECTS,
            &env.max_pending_upstream_connects,
            DEFAULT_MAX_PENDING_UPSTREAM_CONNECTS,
        ) {
            Ok(n) => n,
            Err(m) => return Err(m),
        };
        let max_h3_ingress_bytes = match parse_byte_budget(
            ENV_MAX_H3_INGRESS_BYTES,
            &env.max_h3_ingress_bytes,
            DEFAULT_MAX_H3_INGRESS_BYTES,
        ) {
            Ok(n) => n,
            Err(m) => return Err(m),
        };
        let max_raw_forwarding_bytes = match parse_byte_budget(
            ENV_MAX_RAW_FORWARDING_BYTES,
            &env.max_raw_forwarding_bytes,
            DEFAULT_MAX_RAW_FORWARDING_BYTES,
        ) {
            Ok(n) => n,
            Err(m) => return Err(m),
        };
        let upstream_pool_idle = Duration::from_secs(idle_secs);
        assert(upstream_pool_idle == crate::config::secs(idle_secs));
        Ok(
            QuicRuntimeLimits {
                max_pending_handshakes,
                max_h3_connections,
                max_requests_per_connection,
                max_field_section_size,
                max_upstream_pool_entries,
                upstream_pool_idle,
                max_pending_upstream_connects,
                max_h3_ingress_bytes,
                max_raw_forwarding_bytes,
            },
        )
    }
}

/// An environment that sets nothing leaves the defaults.
pub proof fn law_empty_environment_means_defaults(env: QuicEnv)
    requires
        env.max_pending_handshakes is None,
        env.max_h3_connections is None,
        env.max_requests_per_connection is None,
        env.max_field_section_size is None,
        env.max_upstream_pool_entries is None,
        env.upstream_pool_idle_secs is None,
        env.max_pending_upstream_connects is None,
        env.max_h3_ingress_bytes is None,
        env.max_raw_forwarding_bytes is None,
    ensures
        env_problem(env) is None,
        limits_match(env, default_limits()),
{
    assert(crate::config::secs(60) == Duration { nanos: 60000000000 });
    assert(usize::MAX as int >= 4294967295);
}

// ---------------------------------------------------------------------------
// Byte budgets
// ---------------------------------------------------------------------------

#[verifier::external_type_specification]
#[verifier::external_body]
pub struct ExSemaphore(tokio::sync::Semaphore);

#[verifier::external_type_specification]
#[verifier::external_body]
pub struct ExOwnedSemaphorePermit(tokio::sync::OwnedSemaphorePermit);

/// How many permits an owned permit stands for, as its `num_permits` tells.
pub uninterp spec fn permits_held(p: tokio::sync::OwnedSemaphorePermit) -> nat;

/// Why permits could not be had.
#[derive(Debug, Clone, Copy, PartialEq, Eq, Structural)]
pub enum AcquireError {
    NoPermits,
    Closed,
}

/// `tokio::sync::Semaphore::new`. It panics over `MAX_PERMITS`. How many permits
/// are free at a later time depends on who holds some, and is left unsaid.
#[verifier::external_body]
fn new_semaphore(permits: usize) -> tokio::sync::Semaphore
    requires
        permits <= max_permits(),
{
    tokio::sync::Semaphore::new(permits)
}

/// `tokio::sync::Semaphore::try_acquire_many_owned`. It panics over
/// `MAX_PERMITS`. Whether permits are free depends on who holds some; if they are
/// had, it is all `n` of them, until the result is dropped.
#[verifier::external_body]
fn acquire_many(semaphore: &Arc<tokio::sync::Semaphore>, n: u32) -> (r: Result<
    tokio::sync::OwnedSemaphorePermit,
    AcquireError,
>)
    requires
        n <= max_permits(),
    ensures
        r is Ok ==> permits_held(r->Ok_0) == n,
{
    match semaphore.clone().try_acquire_many_owned(n) {
        Ok(permit) => Ok(permit),
        Err(tokio::sync::TryAcquireError::NoPermits) => Err(AcquireError::NoPermits),
        Err(tokio::sync::TryAcquireError::Closed) => Err(AcquireError::Closed),
    }
}

/// `tokio::sync::Semaphore::available_permits`. What it returns depends on who
/// holds some; it is never over `MAX_PERMITS`.
#[verifier::external_body]
fn free_permits(semaphore: &Arc<tokio::sync::Semaphore>) -> (r: usize)
    ensures
        r <= max_permits(),
{
    semaphore.available_permits()
}

/// A byte budget shared by the whole process, which never blocks. The permit is
/// kept beside the queued bytes, so that every way of getting rid of them gives
/// the capacity back.
#[derive(Debug)]
pub struct ByteBudget {
    capacity: usize,
    permits: Arc<tokio::sync::Semaphore>,
}

impl ByteBudget {
    /// How many bytes there are in all.
    pub closed spec fn size(&self) -> usize {
        self.capacity
    }

    /// A semaphore can hold as many permits.
    pub closed spec fn valid(&self) -> bool {
        self.capacity <= max_permits()
    }

    /// A budget of `capacity` bytes.
    pub fn new(capacity: usize) -> (r: Self)
        requires
            capacity <= max_permits(),
        ensures
            r.valid(),
            r.size() == capacity,
    {
        ByteBudget { capacity, permits: Arc::new(new_semaphore(capacity)) }
    }

    /// How many bytes there are in all.
    pub fn capacity(&self) -> (r: usize)
        ensures
            r == self.size(),
    {
        self.capacity
    }

    /// How many bytes are free at the moment. That depends on who holds some; all
    /// that holds of it at any moment is that a semaphore can count them.
    pub fn available(&self) -> (r: usize)
        ensures
            r <= max_permits(),
    {
        free_permits(&self.permits)
    }

    /// How many permits stand for `bytes`. More than the budget holds, or than one
    /// permit can stand for, can never be had.
    pub fn permits_for(&self, bytes: usize) -> (r: Option<u32>)
        ensures
            r == if bytes <= self.size() && bytes <= u32::MAX {
                Some(bytes as u32)
            } else {
                None
            },
    {
        if bytes > self.capacity || bytes as u64 > u32::MAX as u64 {
            return None;
        }
        Some(bytes as u32)
    }

    /// Take `bytes` out of the budget, all or nothing, without waiting. More than
    /// the budget holds, or than a permit can stand for, can never be had.
    /// Otherwise it depends on who holds some at the moment.
    pub fn try_acquire(&self, bytes: usize) -> (r: Result<tokio::sync::OwnedSemaphorePermit, AcquireError>)
        requires
            self.valid(),
        ensures
            bytes > self.size() || bytes > u32::MAX ==> r == Err::<tokio::sync::OwnedSemaphorePermit, AcquireError>(
                AcquireError::NoPermits,
            ),
            r is Ok ==> permits_held(r->Ok_0) == bytes,
    {
        match self.permits_for(bytes) {
            Some(n) => acquire_many(&self.permits, n),
            None => Err(AcquireError::NoPermits),
        }
    }
}

/// A datagram in a queue, with its share of the byte budget.
#[derive(Debug)]
pub struct QueuedDatagram {
    bytes: Vec<u8>,
    queued_bytes: tokio::sync::OwnedSemaphorePermit,
}

impl View for QueuedDatagram {
    type V = Seq<u8>;

    closed spec fn view(&self) -> Seq<u8> {
        self.bytes@
    }
}

impl QueuedDatagram {
    /// The datagram.
    pub fn bytes(&self) -> (r: &[u8])
        ensures
            r@ == self@,
    {
        self.bytes.as_slice()
    }

    /// How much of the budget the datagram holds.
    pub closed spec fn held(&self) -> nat {
        permits_held(self.queued_bytes)
    }

    /// What becomes of a datagram once a budget has answered: it is kept beside what
    /// was granted, or handed back.
    pub fn granted(bytes: Vec<u8>, answer: Result<tokio::sync::OwnedSemaphorePermit, AcquireError>) -> (r: Result<
        Self,
        Vec<u8>,
    >)
        ensures
            match answer {
                Ok(permit) => r is Ok && r->Ok_0@ == bytes@ && r->Ok_0.held() == permits_held(permit),
                Err(_) => r == Err::<Self, Vec<u8>>(bytes),
            },
    {
        match answer {
            Ok(permit) => Ok(QueuedDatagram { bytes, queued_bytes: permit }),
            Err(_) => Err(bytes),
        }
    }

    /// Take a datagram's bytes out of a budget, or hand the datagram back.
    pub fn reserve(bytes: Vec<u8>, budget: &ByteBudget) -> (r: Result<Self, Vec<u8>>)
        requires
            budget.valid(),
        ensures
            match r {
                Ok(queued) => queued@ == bytes@ && queued.held() == bytes@.len() && bytes@.len() <= budget.size()
                    && bytes@.len() <= u32::MAX,
                Err(back) => back@ == bytes@,
            },
    {
        let answer = budget.try_acquire(bytes.len());
        QueuedDatagram::granted(bytes, answer)
    }
}

// ---------------------------------------------------------------------------
// Laws
// ---------------------------------------------------------------------------

/// Where nothing is set, 256 handshakes may be pending, 1024 connections open with 256
/// requests and 64 KiB of fields each, 256 upstream connections kept for a minute and 64
/// pending, and 8 MiB and 64 MiB queued.
pub proof fn law_default_limits()
    ensures
        default_limits().max_pending_handshakes == 256,
        default_limits().max_h3_connections == 1024,
        default_limits().max_requests_per_connection == 256,
        default_limits().max_field_section_size == 64 * 1024,
        default_limits().max_upstream_pool_entries == 256,
        default_limits().upstream_pool_idle.nanos == 60000000000,
        default_limits().max_pending_upstream_connects == 64,
        default_limits().max_h3_ingress_bytes == 8 * 1024 * 1024,
        default_limits().max_raw_forwarding_bytes == 64 * 1024 * 1024,
{
}

/// A limit that is written as a positive number within bounds is that number; zero, and
/// what is no number, are refused.
pub proof fn law_written_limit_is_read(name: Seq<char>, n: nat, default: int, max: int)
    ensures
        positive(name, None, default, max) == Ok::<int, Seq<char>>(default),
        0 < n <= max ==> positive(name, Some(text::dec(n)), default, max) == Ok::<int, Seq<char>>(n as int),
        n > max ==> positive(name, Some(text::dec(n)), default, max) is Err,
        positive(name, Some(text::dec(0)), default, max) is Err,
        positive(name, Some(Seq::empty()), default, max) is Err,
        0 < n <= usize::MAX as int / 8 ==> byte_budget(name, Some(text::dec(n)), default) == Ok::<int, Seq<char>>(n as int),
        usize::MAX as int / 8 < n ==> byte_budget(name, Some(text::dec(n)), default) is Err,
{
    lemma_number_is_read(n);
    lemma_number_is_read(0);
}

proof fn lemma_number_is_read(n: nat)
    ensures
        text::trim(text::dec(n)) == text::dec(n),
        text::number(text::dec(n)) == Some(n),
{
    let d = text::dec(n);
    text::lemma_dec_digits(n);
    assert(text::is_digit(d[0]) && text::is_digit(d.last()));
    text::lemma_trimmed_already(d);
}

/// Every limit is what the environment sets for it.
pub proof fn law_limits_are_those_set(env: QuicEnv, r: QuicRuntimeLimits, n: nat)
    requires
        limits_match(env, r),
        n > 0,
    ensures
        env.max_pending_handshakes matches Some(s) ==> (s@ == text::dec(n) ==> r.max_pending_handshakes == n),
        env.max_h3_connections matches Some(s) ==> (s@ == text::dec(n) ==> r.max_h3_connections == n),
        env.max_requests_per_connection matches Some(s) ==> (s@ == text::dec(n) ==> r.max_requests_per_connection == n),
        env.max_field_section_size matches Some(s) ==> (s@ == text::dec(n) ==> r.max_field_section_size == n),
        env.max_upstream_pool_entries matches Some(s) ==> (s@ == text::dec(n) ==> r.max_upstream_pool_entries == n),
        env.max_pending_upstream_connects matches Some(s) ==> (s@ == text::dec(n) ==> r.max_pending_upstream_connects == n),
        env.max_h3_ingress_bytes matches Some(s) ==> (s@ == text::dec(n) ==> r.max_h3_ingress_bytes == n),
        env.max_raw_forwarding_bytes matches Some(s) ==> (s@ == text::dec(n) ==> r.max_raw_forwarding_bytes == n),
        env.upstream_pool_idle_secs matches Some(s) ==> (s@ == text::dec(n) ==> r.upstream_pool_idle.nanos == n
            * 1000000000),
{
    lemma_number_is_read(n);
}

} // verus!
