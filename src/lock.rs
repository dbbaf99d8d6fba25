//! The broadcast lock: at most one peer holds the right to broadcast.
//!
//! A grant is a lease. It ends when the holder releases it, when the holder
//! disconnects, or when its lease runs out, whichever comes first.
use vstd::prelude::*;

verus! {

/// The abstract state of the lock.
pub ghost struct LockState {
    /// The peer that was granted the lock last, if the lock was not freed since.
    pub holder: Option<Seq<char>>,
    /// The instant (on a monotonic clock) at which the holder's lease ends.
    pub expires_at: nat,
    /// How long a grant or a renewal lasts.
    pub lease: nat,
}

/// `now + lease`, capped at the largest clock value.
pub open spec fn lease_end(now: nat, lease: nat) -> nat {
    if now + lease > u64::MAX {
        u64::MAX as nat
    } else {
        now + lease
    }
}

impl LockState {
    /// Who holds the lock at instant `now`: nobody once the lease has run out.
    pub open spec fn holder_at(self, now: nat) -> Option<Seq<char>> {
        if now < self.expires_at {
            self.holder
        } else {
            None
        }
    }

    /// Whether a request by `who` at `now` is granted.
    pub open spec fn grants(self, who: Seq<char>, now: nat) -> bool {
        match self.holder_at(now) {
            None => true,
            Some(h) => h == who,
        }
    }

    /// The state after a request by `who` at `now`.
    pub open spec fn after_request(self, who: Seq<char>, now: nat) -> LockState {
        if self.grants(who, now) {
            LockState { holder: Some(who), expires_at: lease_end(now, self.lease), ..self }
        } else {
            self
        }
    }

    /// The state after `who` releases the lock (or disconnects).
    pub open spec fn after_release(self, who: Seq<char>) -> LockState {
        if self.holder == Some(who) {
            LockState { holder: None, expires_at: 0, ..self }
        } else {
            self
        }
    }
}

/// Mutual exclusion: while a peer holds the lock, a request by any other peer
/// is denied and leaves the state as it was; a grant to a peer makes it the
/// only holder until its lease runs out.
pub proof fn lemma_mutual_exclusion(s: LockState, a: Seq<char>, b: Seq<char>, t: nat, later: nat)
    requires
        a != b,
        t <= later,
        later < lease_end(t, s.lease),
    ensures
        s.holder_at(t) == Some(a) ==> !s.grants(b, t) && s.after_request(b, t) == s,
        s.grants(a, t) ==> s.after_request(a, t).holder_at(later) == Some(a),
        s.grants(a, t) ==> !s.after_request(a, t).grants(b, later),
        s.grants(a, t) ==> s.after_request(a, t).after_request(b, later) == s.after_request(a, t),
{
}

/// The state after the requests of `reqs` (requester and instant), in order.
pub open spec fn run(s: LockState, reqs: Seq<(Seq<char>, nat)>) -> LockState
    decreases reqs.len(),
{
    if reqs.len() == 0 {
        s
    } else {
        run(s, reqs.drop_last()).after_request(reqs.last().0, reqs.last().1)
    }
}

/// However many requests come in while peer `a` holds the lock, each one by
/// another peer is denied, and the lock stays with `a`.
pub proof fn lemma_held_lock_denies_others(s: LockState, a: Seq<char>, reqs: Seq<(Seq<char>, nat)>)
    requires
        s.holder == Some(a),
        forall|i: int| 0 <= i < reqs.len() ==> (#[trigger] reqs[i]).0 != a && reqs[i].1 < s.expires_at,
    ensures
        run(s, reqs) == s,
        forall|i: int| 0 <= i < reqs.len() ==> !run(s, reqs.take(i)).grants((#[trigger] reqs[i]).0, reqs[i].1),
    decreases reqs.len(),
{
    if reqs.len() > 0 {
        let init = reqs.drop_last();
        assert forall|i: int| 0 <= i < init.len() implies (#[trigger] init[i]).0 != a && init[i].1 < s.expires_at by {
            assert(init[i] == reqs[i]);
        }
        lemma_held_lock_denies_others(s, a, init);
        assert forall|i: int| 0 <= i < reqs.len() implies !run(s, reqs.take(i)).grants((#[trigger] reqs[i]).0, reqs[i].1) by {
            if i < init.len() {
                assert(reqs.take(i) =~= init.take(i));
                assert(init[i] == reqs[i]);
            } else {
                assert(reqs.take(i) =~= init);
            }
        }
    }
}

/// The requests of a list (requester and instant), as abstract values.
pub open spec fn requests_view(v: Seq<(String, u64)>) -> Seq<(Seq<char>, nat)> {
    v.map_values(|q: (String, u64)| (q.0@, q.1 as nat))
}

/// While the lock stays with `a`: from some instant `start` on, within one
/// lease of `start` and before the current lease ends, each request is
/// granted exactly when `a` makes it (a renewal), and `a` keeps the lock.
pub proof fn lemma_holder_keeps_lock(s: LockState, a: Seq<char>, reqs: Seq<(Seq<char>, nat)>, start: nat)
    requires
        s.holder == Some(a),
        forall|i: int| 0 <= i < reqs.len() ==> start <= (#[trigger] reqs[i]).1 && reqs[i].1 < s.expires_at && reqs[i].1
            < lease_end(start, s.lease),
    ensures
        run(s, reqs).holder == Some(a),
        run(s, reqs).lease == s.lease,
        run(s, reqs).expires_at == s.expires_at || run(s, reqs).expires_at >= lease_end(start, s.lease),
        forall|i: int| 0 <= i < reqs.len() ==> run(s, reqs.take(i)).grants((#[trigger] reqs[i]).0, reqs[i].1) == (
        reqs[i].0 == a),
    decreases reqs.len(),
{
    if reqs.len() > 0 {
        let init = reqs.drop_last();
        assert forall|i: int| 0 <= i < init.len() implies start <= (#[trigger] init[i]).1 && init[i].1 < s.expires_at
            && init[i].1 < lease_end(start, s.lease) by {
            assert(init[i] == reqs[i]);
        }
        lemma_holder_keeps_lock(s, a, init, start);
        let last = reqs.last();
        assert(last == reqs[reqs.len() - 1]);
        let mid = run(s, init);
        assert(last.1 < mid.expires_at);
        assert(lease_end(last.1, s.lease) >= lease_end(start, s.lease));
        assert forall|i: int| 0 <= i < reqs.len() implies run(s, reqs.take(i)).grants((#[trigger] reqs[i]).0, reqs[i].1)
            == (reqs[i].0 == a) by {
            if i < init.len() {
                assert(reqs.take(i) =~= init.take(i));
                assert(init[i] == reqs[i]);
            } else {
                assert(reqs.take(i) =~= init);
            }
        }
    }
}

/// Requests handled one after another, from the first granted one on and
/// within one lease of it: exactly the requests of that first requester are
/// granted, and it holds the lock at the end. From a free lock this is the
/// first requester; from a held one, the holder.
pub proof fn lemma_first_granted_wins(s: LockState, reqs: Seq<(Seq<char>, nat)>)
    requires
        reqs.len() > 0,
        s.grants(reqs[0].0, reqs[0].1),
        forall|i: int| 0 <= i < reqs.len() ==> reqs[0].1 <= (#[trigger] reqs[i]).1 && reqs[i].1 < lease_end(reqs[0].1, s.lease),
    ensures
        run(s, reqs).holder == Some(reqs[0].0),
        forall|i: int| 0 <= i < reqs.len() ==> run(s, reqs.take(i)).grants((#[trigger] reqs[i]).0, reqs[i].1) == (
        reqs[i].0 == reqs[0].0),
{
    let first = reqs[0];
    let s1 = s.after_request(first.0, first.1);
    let rest = reqs.subrange(1, reqs.len() as int);
    lemma_run_one(s, reqs);
    assert(run(s, reqs.take(1)) == s1);
    assert forall|i: int| 0 <= i < rest.len() implies first.1 <= (#[trigger] rest[i]).1 && rest[i].1 < s1.expires_at
        && rest[i].1 < lease_end(first.1, s1.lease) by {
        assert(rest[i] == reqs[i + 1]);
    }
    lemma_holder_keeps_lock(s1, first.0, rest, first.1);
    assert forall|k: int| 0 <= k <= rest.len() implies #[trigger] run(s1, rest.take(k)) == run(s, reqs.take(k + 1)) by {
        lemma_run_split(s, reqs, k);
    }
    assert(rest.take(rest.len() as int) =~= rest);
    assert(reqs.take(reqs.len() as int) =~= reqs);
    assert forall|i: int| 0 <= i < reqs.len() implies run(s, reqs.take(i)).grants((#[trigger] reqs[i]).0, reqs[i].1)
        == (reqs[i].0 == reqs[0].0) by {
        if i == 0 {
            assert(reqs.take(0) =~= Seq::<(Seq<char>, nat)>::empty());
        } else {
            assert(rest[i - 1] == reqs[i]);
            assert(run(s1, rest.take(i - 1)) == run(s, reqs.take(i)));
        }
    }
}

proof fn lemma_run_one(s: LockState, reqs: Seq<(Seq<char>, nat)>)
    requires
        reqs.len() > 0,
    ensures
        run(s, reqs.take(1)) == s.after_request(reqs[0].0, reqs[0].1),
{
    let one = reqs.take(1);
    let e = one.drop_last();
    assert(e =~= Seq::<(Seq<char>, nat)>::empty());
    assert(run(s, e) == s);
    assert(one.last() == reqs[0]);
}

proof fn lemma_run_split(s: LockState, reqs: Seq<(Seq<char>, nat)>, k: int)
    requires
        reqs.len() > 0,
        0 <= k < reqs.len(),
    ensures
        run(s.after_request(reqs[0].0, reqs[0].1), reqs.subrange(1, reqs.len() as int).take(k)) == run(s, reqs.take(k + 1)),
    decreases k,
{
    let rest = reqs.subrange(1, reqs.len() as int);
    if k == 0 {
        assert(rest.take(0) =~= Seq::<(Seq<char>, nat)>::empty());
        lemma_run_one(s, reqs);
    } else {
        lemma_run_split(s, reqs, k - 1);
        assert(rest.take(k).drop_last() =~= rest.take(k - 1));
        assert(reqs.take(k + 1).drop_last() =~= reqs.take(k));
        assert(rest.take(k).last() == reqs.take(k + 1).last());
    }
}

/// Once the holder releases the lock or disconnects, the next request, by
/// whichever peer, is granted; with a non-empty lease, that grant again shuts
/// out every other peer at that instant.
pub proof fn lemma_release_frees(s: LockState, holder: Seq<char>, next: Seq<char>, other: Seq<char>, now: nat)
    requires
        s.holder == Some(holder),
    ensures
        s.after_release(holder).holder is None,
        s.after_release(holder).grants(next, now),
        s.after_release(holder).after_request(next, now).holder == Some(next),
        s.lease > 0 && now < u64::MAX && other != next ==>
            !s.after_release(holder).after_request(next, now).grants(other, now),
{
}

/// Arbitrates the exclusive right to broadcast.
pub struct LockArbiter {
    holder: Option<String>,
    expires_at: u64,
    lease: u64,
}

impl View for LockArbiter {
    type V = LockState;

    closed spec fn view(&self) -> LockState {
        LockState {
            holder: match self.holder {
                Some(h) => Some(h@),
                None => None,
            },
            expires_at: self.expires_at as nat,
            lease: self.lease as nat,
        }
    }
}

impl LockArbiter {
    /// A free lock whose grants last `lease` clock units; a lease of none would
    /// expire each grant the moment it is made.
    pub fn new(lease: u64) -> (r: LockArbiter)
        requires
            lease > 0,
        ensures
            r@.holder is None,
            r@.lease == lease,
            r@.expires_at == 0,
    {
        LockArbiter { holder: None, expires_at: 0, lease }
    }

    /// The peer that holds the lock at instant `now`, if any.
    pub fn holder(&self, now: u64) -> (r: Option<String>)
        ensures
            match r {
                Some(h) => self@.holder_at(now as nat) == Some(h@),
                None => self@.holder_at(now as nat) is None,
            },
    {
        if now < self.expires_at {
            match &self.holder {
                Some(h) => Some(h.clone()),
                None => None,
            }
        } else {
            None
        }
    }

    /// Whether `peer` holds the lock at instant `now`.
    ///
    /// A receiver that accepts stream invitations only from the lock holder
    /// asks this of the invitation's sender.
    pub fn is_holder(&self, peer: &String, now: u64) -> (r: bool)
        ensures
            r == (self@.holder_at(now as nat) == Some(peer@)),
    {
        if now < self.expires_at {
            match &self.holder {
                Some(h) => *h == *peer,
                None => false,
            }
        } else {
            false
        }
    }

    /// Asks for the lock on behalf of `requester` at instant `now`.
    ///
    /// A free lock (or one whose lease ran out) is granted; a request by the
    /// current holder is granted again and renews the lease; any other request
    /// is denied and changes nothing.
    pub fn request_lock(&mut self, requester: &String, now: u64) -> (granted: bool)
        ensures
            granted == old(self)@.grants(requester@, now as nat),
            final(self)@ == old(self)@.after_request(requester@, now as nat),
    {
        let granted = self.is_holder(requester, now) || !(now < self.expires_at) || self.holder.is_none();
        if granted {
            self.holder = Some(requester.clone());
            self.expires_at = now.saturating_add(self.lease);
        }
        granted
    }

    /// Gives the lock up on behalf of `requester`; only the holder can.
    ///
    /// Returns whether the lock was freed.
    pub fn release_lock(&mut self, requester: &String) -> (released: bool)
        ensures
            released == (old(self)@.holder == Some(requester@)),
            final(self)@ == old(self)@.after_release(requester@),
    {
        let released = match &self.holder {
            Some(h) => *h == *requester,
            None => false,
        };
        if released {
            self.holder = None;
            self.expires_at = 0;
        }
        released
    }

    /// Frees the lock if `peer`, whose connection closed, held it.
    pub fn peer_disconnected(&mut self, peer: &String) -> (released: bool)
        ensures
            released == (old(self)@.holder == Some(peer@)),
            final(self)@ == old(self)@.after_release(peer@),
    {
        self.release_lock(peer)
    }
    /// Handles requests that arrived together, one after another in the order
    /// given, as the arbiter's single event loop does; returns whether each
    /// was granted.
    pub fn request_in_order(&mut self, reqs: &Vec<(String, u64)>) -> (answers: Vec<bool>)
        ensures
            final(self)@ == run(old(self)@, requests_view(reqs@)),
            answers@.len() == reqs@.len(),
            forall|i: int| 0 <= i < reqs@.len() ==> #[trigger] answers@[i] == run(old(self)@, requests_view(reqs@).take(i)).grants(
                requests_view(reqs@)[i].0,
                requests_view(reqs@)[i].1,
            ),
    {
        let ghost start = self@;
        let ghost all = requests_view(reqs@);
        let mut answers: Vec<bool> = Vec::new();
        let mut i: usize = 0;
        while i < reqs.len()
            invariant
                i <= reqs@.len(),
                all == requests_view(reqs@),
                self@ == run(start, all.take(i as int)),
                answers@.len() == i,
                forall|j: int| 0 <= j < i ==> #[trigger] answers@[j] == run(start, all.take(j)).grants(all[j].0, all[j].1),
            decreases reqs@.len() - i,
        {
            let granted = self.request_lock(&reqs[i].0, reqs[i].1);
            proof {
                assert(all.take(i + 1).drop_last() =~= all.take(i as int));
                assert(all.take(i + 1).last() == all[i as int]);
            }
            answers.push(granted);
            i = i + 1;
        }
        assert(all.take(reqs@.len() as int) =~= all);
        answers
    }
}

} // verus!
