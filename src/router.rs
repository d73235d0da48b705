use vstd::prelude::*;
use crate::peer::Address;
use vstd::arithmetic::div_mod::{lemma_fundamental_div_mod, lemma_fundamental_div_mod_converse, lemma_mod_bound};

verus! {

/// The behaviour a node is started with.
#[derive(Clone, Copy, Debug, PartialEq, Eq, Structural)]
pub enum Role {
    /// Forwards work to discovered peers, executing locally only as a fallback.
    Shim,
    /// Executes work locally.
    Worker,
}

/// A request for text generation.
pub struct GenerateRequest {
    pub prompt: String,
}

/// A request for an embedding.
pub struct EmbeddingsRequest {
    pub prompt: String,
}

/// The terminal chunk of a generation response.
pub struct GenerateReply {
    pub response: String,
    pub done: bool,
}

/// Where a request is handled.
#[derive(Clone, Copy, Debug, PartialEq, Eq)]
pub enum Dispatch {
    /// Run the work on this node.
    Local,
    /// Forward the request to the peer at this address.
    Forward(Address),
}

/// How an attempt to forward a request ended.
#[derive(Clone, Copy, Debug, PartialEq, Eq, Structural)]
pub enum ForwardOutcome {
    /// The peer answered: its response stream is relayed.
    Connected,
    /// The peer could not be reached or failed.
    Failed,
}

/// What to do once a forwarding attempt has ended.
#[derive(Clone, Copy, Debug, PartialEq, Eq, Structural)]
pub enum NextStep {
    /// Relay the peer's response stream to the caller as it arrives.
    Relay,
    /// Run the work on this node and answer with that.
    ExecuteLocally,
}

/// The target for a request taken with dispatch counter `counter` over the
/// address table's addresses `targets`.
pub open spec fn dispatch_target(role: Role, counter: u64, targets: Seq<Address>) -> Dispatch {
    if role == Role::Worker || targets.len() == 0 {
        Dispatch::Local
    } else {
        Dispatch::Forward(targets[(counter as int) % (targets.len() as int)])
    }
}

/// The dispatch counter after a request: it moves on, wrapping, only when
/// the request was forwarded.
pub open spec fn counter_after(role: Role, counter: u64, targets: Seq<Address>) -> u64 {
    if role == Role::Shim && targets.len() > 0 {
        if counter == u64::MAX {
            0
        } else {
            (counter + 1) as u64
        }
    } else {
        counter
    }
}

/// Picks, for each inbound request, where it is handled.
pub struct Router {
    role: Role,
    counter: u64,
}

impl Router {
    pub closed spec fn role_spec(&self) -> Role {
        self.role
    }

    /// The dispatch counter: how many requests were forwarded, modulo 2^64.
    pub closed spec fn counter_spec(&self) -> u64 {
        self.counter
    }

    /// A router for a node of the given role, with its counter at zero.
    pub fn new(role: Role) -> (r: Router)
        ensures
            r.role_spec() == role,
            r.counter_spec() == 0,
    {
        Router { role, counter: 0 }
    }

    /// The role this router was made with.
    pub fn role(&self) -> (r: Role)
        ensures
            r == self.role_spec(),
    {
        self.role
    }

    /// Chooses where the next request goes. A worker, or a shim with no
    /// addressable peer, runs it locally; a shim otherwise takes the peer at
    /// the counter's position modulo the number of peers, round-robin.
    pub fn dispatch(&mut self, targets: &Vec<Address>) -> (r: Dispatch)
        ensures
            final(self).role_spec() == old(self).role_spec(),
            r == dispatch_target(old(self).role_spec(), old(self).counter_spec(), targets@),
            final(self).counter_spec() == counter_after(old(self).role_spec(), old(self).counter_spec(), targets@),
    {
        if self.role == Role::Worker || targets.len() == 0 {
            return Dispatch::Local;
        }
        let n = targets.len() as u64;
        let idx = (self.counter % n) as usize;
        self.counter = self.counter.wrapping_add(1);
        Dispatch::Forward(targets[idx])
    }
}

/// The step after a forwarding attempt: relay on success, fall back to local
/// execution on failure. There is no retry.
pub fn after_forward(outcome: ForwardOutcome) -> (r: NextStep)
    ensures
        outcome == ForwardOutcome::Connected ==> r == NextStep::Relay,
        outcome == ForwardOutcome::Failed ==> r == NextStep::ExecuteLocally,
{
    match outcome {
        ForwardOutcome::Connected => NextStep::Relay,
        ForwardOutcome::Failed => NextStep::ExecuteLocally,
    }
}

/// The one prompt the placeholder computation knows how to answer.
pub const KNOWN_PROMPT: &'static str = "2+2=?";

/// The answer to [`KNOWN_PROMPT`].
pub const KNOWN_ANSWER: &'static str = "4";

/// What a prompt with its surrounding white space taken off yields.
pub uninterp spec fn trimmed(s: Seq<char>) -> Seq<char>;

/// Relies on `str::trim`: the prompt without leading and trailing white space.
#[verifier::external_body]
fn trim(s: &str) -> (r: &str)
    ensures
        r@ == trimmed(s@),
{
    s.trim()
}

/// The placeholder computation on a trimmed prompt.
pub open spec fn answer_of(t: Seq<char>) -> Seq<char> {
    if t == KNOWN_PROMPT@ {
        KNOWN_ANSWER@
    } else {
        Seq::empty()
    }
}

/// Answers an already trimmed prompt: the known answer for the known
/// prompt, else the empty string.
pub fn answer_for_trimmed(t: &str) -> (r: String)
    ensures
        r@ == answer_of(t@),
{
    let given = t.to_owned();
    let known = KNOWN_PROMPT.to_owned();
    if given == known {
        KNOWN_ANSWER.to_owned()
    } else {
        String::new()
    }
}

/// Executes a generation request locally: a single terminal reply that
/// carries the answer to the trimmed prompt.
pub fn worker_generate(req: &GenerateRequest) -> (r: GenerateReply)
    ensures
        r.response@ == answer_of(trimmed(req.prompt@)),
        r.done,
{
    let t = trim(req.prompt.as_str());
    GenerateReply { response: answer_for_trimmed(t), done: true }
}

/// A shim with no addressable peer handles a request exactly as a worker
/// does: locally, with its counter untouched.
pub proof fn lemma_empty_mesh_runs_locally(counter: u64, targets: Seq<Address>)
    ensures
        dispatch_target(Role::Shim, counter, Seq::empty()) == Dispatch::Local,
        dispatch_target(Role::Worker, counter, targets) == Dispatch::Local,
        counter_after(Role::Shim, counter, Seq::empty()) == counter,
{
}

/// The dispatch decisions for `m` successive requests, the first taken with
/// counter `counter`, over an unchanging list of targets.
pub open spec fn dispatch_run(role: Role, counter: u64, targets: Seq<Address>, m: nat) -> Seq<Dispatch>
    decreases m,
{
    if m == 0 {
        Seq::empty()
    } else {
        seq![dispatch_target(role, counter, targets)]
            + dispatch_run(role, counter_after(role, counter, targets), targets, (m - 1) as nat)
    }
}

/// How many of the first `m` requests, counted from counter `c`, go to the
/// target at position `j` of `n` targets.
pub open spec fn times_chosen(c: int, n: int, m: nat, j: int) -> nat
    decreases m,
{
    if m == 0 {
        0
    } else {
        times_chosen(c, n, (m - 1) as nat, j) + if (c + m - 1) % n == j { 1nat } else { 0nat }
    }
}

proof fn lemma_hit(n: int, j: int, base: int, x: int)
    requires
        n > 0,
        0 <= j < n,
        base % n == j,
        x >= 0,
    ensures
        ((base + x) % n == j) == (x % n == 0),
{
    lemma_fundamental_div_mod(base, n);
    lemma_fundamental_div_mod(x, n);
    lemma_mod_bound(x, n);
    let q1 = base / n;
    let q2 = x / n;
    let r = x % n;
    assert(base + x == (q1 + q2) * n + (j + r)) by (nonlinear_arith)
        requires
            base == n * q1 + j,
            x == n * q2 + r,
    ;
    if j + r < n {
        lemma_fundamental_div_mod_converse(base + x, n, q1 + q2, j + r);
    } else {
        assert(base + x == (q1 + q2 + 1) * n + (j + r - n)) by (nonlinear_arith)
            requires
                base + x == (q1 + q2) * n + (j + r),
        ;
        lemma_fundamental_div_mod_converse(base + x, n, q1 + q2 + 1, j + r - n);
    }
}

proof fn lemma_step_div(n: int, x: int)
    requires
        n > 0,
        x > 0,
    ensures
        x / n == (x - 1) / n + if x % n == 0 { 1int } else { 0int },
{
    lemma_fundamental_div_mod(x - 1, n);
    lemma_mod_bound(x - 1, n);
    let q = (x - 1) / n;
    let r = (x - 1) % n;
    if r + 1 < n {
        assert(x == q * n + (r + 1)) by (nonlinear_arith)
            requires
                x - 1 == n * q + r,
        ;
        lemma_fundamental_div_mod_converse(x, n, q, r + 1);
    } else {
        assert(x == (q + 1) * n + 0) by (nonlinear_arith)
            requires
                x - 1 == n * q + r,
                r + 1 == n,
        ;
        lemma_fundamental_div_mod_converse(x, n, q + 1, 0);
    }
}

proof fn lemma_times_closed(c: int, n: int, m: nat, j: int, d: int)
    requires
        n > 0,
        0 <= j < n,
        0 <= d < n,
        (c + d) % n == j,
    ensures
        times_chosen(c, n, m, j) == if m <= d { 0 } else { (m - d - 1) / n + 1 },
    decreases m,
{
    if m > 0 {
        let k = m - 1;
        lemma_times_closed(c, n, (m - 1) as nat, j, d);
        if k < d {
            if (c + k) % n == j {
                lemma_hit(n, j, c + k, d - k);
                lemma_fundamental_div_mod_converse(d - k, n, 0, d - k);
            }
        } else {
            lemma_hit(n, j, c + d, k - d);
            assert(c + d + (k - d) == c + m - 1);
            if k > d {
                lemma_step_div(n, k - d);
            } else {
                lemma_fundamental_div_mod_converse(0, n, 0, 0);
            }
        }
    }
}

proof fn lemma_times_bounds(c: int, n: int, m: nat, j: int)
    requires
        n > 0,
        0 <= j < n,
    ensures
        (times_chosen(c, n, m, j) - 1) * n < m < (times_chosen(c, n, m, j) + 1) * n,
{
    let d = (j - c) % n;
    lemma_mod_bound(j - c, n);
    lemma_fundamental_div_mod(j - c, n);
    let q = (j - c) / n;
    assert(c + d == (-q) * n + j) by (nonlinear_arith)
        requires
            j - c == n * q + d,
    ;
    lemma_fundamental_div_mod_converse(c + d, n, -q, j);
    lemma_times_closed(c, n, m, j, d);
    let t = times_chosen(c, n, m, j) as int;
    if m <= d {
        assert((t - 1) * n < m < (t + 1) * n) by (nonlinear_arith)
            requires
                t == 0,
                0 <= m <= d < n,
        ;
    } else {
        let x = m - d - 1;
        lemma_fundamental_div_mod(x, n);
        lemma_mod_bound(x, n);
        let qx = x / n;
        let rx = x % n;
        assert(t == qx + 1);
        assert((t - 1) * n < m < (t + 1) * n) by (nonlinear_arith)
            requires
                x == n * qx + rx,
                0 <= rx < n,
                x == m - d - 1,
                0 <= d < n,
                t == qx + 1,
        ;
    }
}

proof fn lemma_run_targets(c: u64, targets: Seq<Address>, m: nat)
    requires
        targets.len() > 0,
        c + m <= u64::MAX + 1,
    ensures
        dispatch_run(Role::Shim, c, targets, m).len() == m,
        forall|k: int| 0 <= k < m ==> #[trigger] dispatch_run(Role::Shim, c, targets, m)[k]
            == Dispatch::Forward(targets[(c + k) % (targets.len() as int)]),
    decreases m,
{
    if m > 0 {
        let run = dispatch_run(Role::Shim, c, targets, m);
        let n = targets.len() as int;
        if c < u64::MAX {
            lemma_run_targets((c + 1) as u64, targets, (m - 1) as nat);
            let rest = dispatch_run(Role::Shim, (c + 1) as u64, targets, (m - 1) as nat);
            assert(run == seq![dispatch_target(Role::Shim, c, targets)] + rest);
            assert forall|k: int| 0 <= k < m implies #[trigger] run[k]
                == Dispatch::Forward(targets[(c + k) % n]) by {
                if k > 0 {
                    assert(run[k] == rest[k - 1]);
                    assert((c + 1) + (k - 1) == c + k);
                }
            }
        } else {
            assert(m == 1);
            assert(counter_after(Role::Shim, c, targets) == 0);
            assert(dispatch_run(Role::Shim, 0, targets, 0).len() == 0);
            assert(run == seq![dispatch_target(Role::Shim, c, targets)] + dispatch_run(Role::Shim, 0, targets, 0));
            assert(run[0] == dispatch_target(Role::Shim, c, targets));
        }
    }
}

/// Round-robin fairness. A shim that dispatches `m` successive requests over
/// an unchanging list of `n` targets, starting with counter `c`, sends the
/// request of rank `k` to the target at position `(c + k) mod n`: the targets
/// in the list's cyclic order. The target at each position receives
/// `times_chosen` of them, a count `t` with `(t - 1) * n < m < (t + 1) * n`,
/// which is `m / n` rounded down or up. The counter must not wrap during the run.
pub proof fn lemma_round_robin(c: u64, targets: Seq<Address>, m: nat)
    requires
        targets.len() > 0,
        c + m <= u64::MAX + 1,
    ensures
        dispatch_run(Role::Shim, c, targets, m).len() == m,
        forall|k: int| 0 <= k < m ==> #[trigger] dispatch_run(Role::Shim, c, targets, m)[k]
            == Dispatch::Forward(targets[(c + k) % (targets.len() as int)]),
        forall|j: int| 0 <= j < targets.len() ==>
            (#[trigger] times_chosen(c as int, targets.len() as int, m, j) - 1) * targets.len() < m
            && m < (times_chosen(c as int, targets.len() as int, m, j) + 1) * targets.len(),
{
    lemma_run_targets(c, targets, m);
    assert forall|j: int| 0 <= j < targets.len() implies
        (#[trigger] times_chosen(c as int, targets.len() as int, m, j) - 1) * targets.len() < m
        && m < (times_chosen(c as int, targets.len() as int, m, j) + 1) * targets.len() by {
        lemma_times_bounds(c as int, targets.len() as int, m, j);
    }
}

} // verus!
