//! What the startup probes of cleartext HTTP/2 backends come to.

use crate::config::H2Probe;
use crate::text;
use crate::text::push_text;
use vstd::prelude::*;

verus! {

/// What is noted of one probe.
#[derive(Debug, Clone, Copy, PartialEq, Eq, Structural)]
pub enum ProbeNote {
    /// The backend has had its verdict, and the route does not refuse it.
    Repeated,
    /// The backend speaks HTTP/2.
    Passed,
    /// It does not; the route keeps HTTP/2 as configured.
    Warned,
    /// It does not, and the route requires it.
    Refused,
}

/// The verdicts so far.
#[derive(Debug)]
pub struct Probes {
    seen: Vec<(String, u16)>,
    failures: Vec<String>,
}

/// The verdicts so far.
#[verifier::ext_equal]
pub struct ProbesView {
    /// The backends that have one.
    pub seen: Seq<(Seq<char>, u16)>,
    /// What required backends lack, in the order in which it was found.
    pub failures: Seq<Seq<char>>,
}

impl View for Probes {
    type V = ProbesView;

    closed spec fn view(&self) -> ProbesView {
        ProbesView {
            seen: self.seen@.map_values(|p: (String, u16)| (p.0@, p.1)),
            failures: text::texts(self.failures@),
        }
    }
}

/// That a required backend failed its probe.
pub open spec fn failure(route: Seq<char>, host: Seq<char>, port: u16, detail: Seq<char>) -> Seq<char> {
    "route "@ + route + ": upstream "@ + host + ":"@ + text::dec(port as nat) + " failed the h2c probe: "@ + detail
}

impl ProbesView {
    /// The verdicts after a probe. A backend is noted once; a failure counts for every
    /// route that requires it.
    pub open spec fn after(
        self,
        route: Seq<char>,
        host: Seq<char>,
        port: u16,
        policy: H2Probe,
        outcome: Result<(), Seq<char>>,
    ) -> Self {
        ProbesView {
            seen: if self.seen.contains((host, port)) {
                self.seen
            } else {
                self.seen.push((host, port))
            },
            failures: match outcome {
                Err(detail) => if policy == H2Probe::Require {
                    self.failures.push(failure(route, host, port, detail))
                } else {
                    self.failures
                },
                Ok(_) => self.failures,
            },
        }
    }
}

impl Probes {
    /// No verdict yet.
    pub fn new() -> (r: Self)
        ensures
            r@ == (ProbesView { seen: Seq::empty(), failures: Seq::empty() }),
    {
        let r = Probes { seen: Vec::new(), failures: Vec::new() };
        assert(r@ =~= ProbesView { seen: Seq::empty(), failures: Seq::empty() });
        r
    }

    fn has_seen(&self, host: &str, port: u16) -> (r: bool)
        ensures
            r == self@.seen.contains((host@, port)),
    {
        let ghost seen = self@.seen;
        let mut i: usize = 0;
        while i < self.seen.len()
            invariant
                i <= self.seen@.len(),
                seen == self@.seen,
                forall|k: int| 0 <= k < i ==> #[trigger] seen[k] != (host@, port),
            decreases self.seen@.len() - i,
        {
            assert(seen[i as int] == (self.seen@[i as int].0@, self.seen@[i as int].1));
            if text::same_text(self.seen[i].0.as_str(), host) && self.seen[i].1 == port {
                assert(seen.contains((host@, port)));
                return true;
            }
            i = i + 1;
        }
        false
    }

    /// Take the outcome of one probe.
    pub fn on_outcome(&mut self, route: &str, host: &str, port: u16, policy: H2Probe, outcome: &Result<(), String>) -> (r:
        ProbeNote)
        requires
            policy != H2Probe::Off,
        ensures
            final(self)@ == old(self)@.after(
                route@,
                host@,
                port,
                policy,
                match *outcome {
                    Ok(_) => Ok(()),
                    Err(d) => Err(d@),
                },
            ),
            r == if *outcome is Err && policy == H2Probe::Require {
                ProbeNote::Refused
            } else if old(self)@.seen.contains((host@, port)) {
                ProbeNote::Repeated
            } else if *outcome is Ok {
                ProbeNote::Passed
            } else {
                ProbeNote::Warned
            },
    {
        let repeated = self.has_seen(host, port);
        if !repeated {
            let ghost seen = self@.seen;
            self.seen.push((host.to_owned(), port));
            assert(self@.seen =~= seen.push((host@, port)));
        }
        let ghost seen = self@.seen;
        match outcome {
            Ok(_) => if repeated {
                ProbeNote::Repeated
            } else {
                ProbeNote::Passed
            },
            Err(detail) => match policy {
                H2Probe::Require => {
                    let mut m = "route ".to_owned();
                    push_text(&mut m, route);
                    push_text(&mut m, ": upstream ");
                    push_text(&mut m, host);
                    push_text(&mut m, ":");
                    text::push_dec(&mut m, port as u64);
                    push_text(&mut m, " failed the h2c probe: ");
                    push_text(&mut m, detail.as_str());
                    let ghost before = self@.failures;
                    self.failures.push(m);
                    assert(self@.failures =~= before.push(m@));
                    assert(self@.seen =~= seen);
                    ProbeNote::Refused
                },
                _ => if repeated {
                    ProbeNote::Repeated
                } else {
                    ProbeNote::Warned
                },
            },
        }
    }

    /// Whether the listeners may start: not if a required backend failed.
    pub fn finish(&self) -> (r: Result<(), String>)
        ensures
            match r {
                Ok(_) => self@.failures.len() == 0,
                Err(m) => self@.failures.len() > 0 && m@ == "h2c probe failed with probe = \"require\":\n  "@
                    + text::join(self@.failures, "\n  "@),
            },
    {
        if self.failures.len() == 0 {
            return Ok(());
        }
        let mut m = "h2c probe failed with probe = \"require\":\n  ".to_owned();
        push_text(&mut m, text::joined(&self.failures, "\n  ").as_str());
        Err(m)
    }
}

/// A failure of a backend that a route requires keeps the listeners from starting,
/// whatever is known of the backend already and whatever comes behind it.
pub proof fn law_required_failure_stops_startup(
    p: ProbesView,
    route: Seq<char>,
    host: Seq<char>,
    port: u16,
    detail: Seq<char>,
    later: (Seq<char>, Seq<char>, u16, H2Probe, Result<(), Seq<char>>),
)
    ensures
        p.after(route, host, port, H2Probe::Require, Err(detail)).failures.contains(failure(route, host, port, detail)),
        p.failures.is_prefix_of(p.after(later.0, later.1, later.2, later.3, later.4).failures),
{
    let failed = p.after(route, host, port, H2Probe::Require, Err(detail)).failures;
    assert(failed.last() == failure(route, host, port, detail));
}

/// A probe validates and never decides: a backend that only has to be warned about
/// does not keep the listeners from starting.
pub proof fn law_warnings_do_not_stop_startup(
    p: ProbesView,
    route: Seq<char>,
    host: Seq<char>,
    port: u16,
    outcome: Result<(), Seq<char>>,
)
    ensures
        p.after(route, host, port, H2Probe::Warn, outcome).failures == p.failures,
{
}

/// A failed probe counts where its route requires it, and nowhere else; every backend
/// that was tried is noted.
pub proof fn law_only_a_required_probe_fails(
    v: ProbesView,
    route: Seq<char>,
    host: Seq<char>,
    port: u16,
    detail: Seq<char>,
)
    ensures
        v.after(route, host, port, H2Probe::Require, Err(detail)).failures.len() == v.failures.len() + 1,
        v.after(route, host, port, H2Probe::Warn, Err(detail)).failures == v.failures,
        v.after(route, host, port, H2Probe::Off, Err(detail)).failures == v.failures,
        forall|policy: H2Probe| (#[trigger] v.after(route, host, port, policy, Ok(()))).failures == v.failures,
        forall|policy: H2Probe, outcome: Result<(), Seq<char>>|
            (#[trigger] v.after(route, host, port, policy, outcome)).seen.contains((host, port)),
{
    assert forall|policy: H2Probe, outcome: Result<(), Seq<char>>|
        (#[trigger] v.after(route, host, port, policy, outcome)).seen.contains((host, port)) by {
        let w = v.after(route, host, port, policy, outcome);
        if !v.seen.contains((host, port)) {
            assert(w.seen[v.seen.len() as int] == (host, port));
        }
    }
}

} // verus!
