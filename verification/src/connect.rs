//! Racing connections to several addresses.
//!
//! Candidates come in preferred-family interleaved order. They are started a
//! quarter of a second apart, or as soon as an earlier one has failed, and the
//! first to succeed wins.

use crate::net::SocketAddr;
use crate::text;
use vstd::prelude::*;

verus! {

/// How far apart two candidates are started, in milliseconds.
pub const HAPPY_EYEBALLS_DELAY_MILLIS: u64 = 250;

/// The most candidates of a race.
pub const MAX_CANDIDATES: usize = 16;

/// A race as it stands.
#[verifier::ext_equal]
pub struct RaceView {
    /// How many candidates there are.
    pub candidates: nat,
    /// The candidate that is started next.
    pub next: nat,
    /// How many attempts are under way.
    pub active: nat,
    /// Why the others have failed, in the order in which they did.
    pub errors: Seq<Seq<char>>,
}

/// What to do after an attempt has failed.
#[derive(Debug)]
pub enum RaceNext {
    /// Start this candidate, and count the delay anew.
    Launch(usize),
    /// Wait for the attempts that are under way.
    Wait,
    /// Every candidate has failed.
    Failed(String),
}

/// Attempts on several addresses.
#[derive(Debug)]
pub struct Race {
    candidates: usize,
    next: usize,
    active: usize,
    errors: Vec<String>,
}

impl View for Race {
    type V = RaceView;

    closed spec fn view(&self) -> RaceView {
        RaceView {
            candidates: self.candidates as nat,
            next: self.next as nat,
            active: self.active as nat,
            errors: text::texts(self.errors@),
        }
    }
}

impl RaceView {
    /// Every candidate that was started is under way or has failed.
    pub open spec fn valid(self) -> bool {
        &&& 0 < self.next <= self.candidates <= MAX_CANDIDATES
        &&& self.active + self.errors.len() == self.next
    }

    /// The race after the next candidate has been started.
    pub open spec fn launched(self) -> Self {
        RaceView { next: self.next + 1, active: self.active + 1, ..self }
    }

    /// The race after an attempt has failed.
    pub open spec fn failed(self, why: Seq<char>) -> Self {
        RaceView { active: (self.active - 1) as nat, errors: self.errors.push(why), ..self }
    }
}

/// That every attempt has failed.
pub open spec fn all_failed(errors: Seq<Seq<char>>) -> Seq<char> {
    "all upstream connection attempts failed: "@ + text::join(errors, "; "@)
}

impl Race {
    /// Start a race with its first candidate.
    pub fn start(addrs: &Vec<SocketAddr>) -> (r: Result<Race, String>)
        ensures
            match r {
                Ok(race) => addrs@.len() > 0 && race@.valid() && race@ == (RaceView {
                    candidates: if addrs@.len() < MAX_CANDIDATES {
                        addrs@.len()
                    } else {
                        MAX_CANDIDATES as nat
                    },
                    next: 1,
                    active: 1,
                    errors: Seq::empty(),
                }),
                Err(m) => addrs@.len() == 0 && m@ == "upstream resolution returned no addresses"@,
            },
    {
        if addrs.len() == 0 {
            return Err("upstream resolution returned no addresses".to_owned());
        }
        let candidates = if addrs.len() < MAX_CANDIDATES {
            addrs.len()
        } else {
            MAX_CANDIDATES
        };
        let race = Race { candidates, next: 1, active: 1, errors: Vec::new() };
        assert(race@.errors =~= Seq::empty());
        Ok(race)
    }

    /// An attempt has failed. A prompt failure is a signal: the next candidate does
    /// not wait out the delay.
    pub fn on_error(&mut self, error: String) -> (r: RaceNext)
        requires
            old(self)@.valid(),
            old(self)@.active > 0,
        ensures
            final(self)@.valid(),
            match r {
                RaceNext::Launch(i) => {
                    &&& i == old(self)@.next
                    &&& old(self)@.next < old(self)@.candidates
                    &&& final(self)@ == old(self)@.failed(error@).launched()
                },
                RaceNext::Wait => {
                    &&& old(self)@.next == old(self)@.candidates
                    &&& old(self)@.active > 1
                    &&& final(self)@ == old(self)@.failed(error@)
                },
                RaceNext::Failed(m) => {
                    &&& old(self)@.next == old(self)@.candidates
                    &&& old(self)@.active == 1
                    &&& final(self)@ == old(self)@.failed(error@)
                    &&& m@ == all_failed(final(self)@.errors)
                },
            },
    {
        let ghost before = text::texts(self.errors@);
        let ghost why = error@;
        self.errors.push(error);
        self.active = self.active - 1;
        assert(text::texts(self.errors@) =~= before.push(why));
        if self.next < self.candidates {
            let i = self.next;
            self.next = self.next + 1;
            self.active = self.active + 1;
            return RaceNext::Launch(i);
        }
        if self.active > 0 {
            return RaceNext::Wait;
        }
        let list = text::joined(&self.errors, "; ");
        let mut m = "all upstream connection attempts failed: ".to_owned();
        text::push_text(&mut m, list.as_str());
        RaceNext::Failed(m)
    }

    /// Whether there is a candidate for the delay to start.
    pub fn has_next(&self) -> (r: bool)
        ensures
            r == (self@.next < self@.candidates),
    {
        self.next < self.candidates
    }

    /// The delay is over: start the next candidate, if there is one.
    pub fn on_stagger(&mut self) -> (r: Option<usize>)
        requires
            old(self)@.valid(),
        ensures
            final(self)@.valid(),
            match r {
                Some(i) => i == old(self)@.next && old(self)@.next < old(self)@.candidates && final(self)@ == old(
                    self,
                )@.launched(),
                None => old(self)@.next == old(self)@.candidates && final(self)@ == old(self)@,
            },
    {
        if self.next < self.candidates {
            let i = self.next;
            self.next = self.next + 1;
            self.active = self.active + 1;
            Some(i)
        } else {
            None
        }
    }
}

/// A race is lost only when every candidate has been started and has failed.
pub proof fn law_every_candidate_is_tried(r: RaceView)
    requires
        r.valid(),
        r.next == r.candidates,
        r.active == 0,
    ensures
        r.errors.len() == r.candidates,
{
}

/// A failure is noted and ends one attempt, and a start begins one: neither changes
/// anything else, and no candidate is started twice.
pub proof fn law_race_counts_its_attempts(r: RaceView, why: Seq<char>)
    requires
        r.valid(),
        r.active > 0,
    ensures
        r.launched().next == r.next + 1,
        r.launched().active == r.active + 1,
        r.launched().errors == r.errors,
        r.launched().candidates == r.candidates,
        r.failed(why).active == r.active - 1,
        r.failed(why).next == r.next,
        r.failed(why).candidates == r.candidates,
        r.failed(why).errors == r.errors.push(why),
{
}

/// At most 16 candidates are tried, each a quarter of a second after the one before at
/// the latest, and when all have failed the message tells all their failures.
pub proof fn law_race_is_bounded(r: RaceView, a: Seq<char>, b: Seq<char>)
    requires
        r.valid(),
    ensures
        r.candidates <= 16,
        r.next <= 16,
        HAPPY_EYEBALLS_DELAY_MILLIS == 250,
        all_failed(seq![a]) == "all upstream connection attempts failed: "@ + a,
        all_failed(seq![a, b]) == "all upstream connection attempts failed: "@ + (a + seq![';', ' '] + b),
{
    reveal_strlit("; ");
    assert("; "@ =~= seq![';', ' ']);
    assert(seq![a, b].drop_last() =~= seq![a]);
    reveal_with_fuel(text::join, 2);
}

} // verus!
