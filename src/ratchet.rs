//! Generation bookkeeping of one sender's ratchet for one content type:
//! which generations may still be decrypted, so that messages can arrive out
//! of order within a bounded window and none is accepted twice.
use vstd::prelude::*;

verus! {

/// Default number of past generations whose keys are kept.
pub const DEFAULT_MAX_PAST_GENERATIONS: u32 = 1000;

/// Why a generation was refused.
#[derive(Debug, Clone, Copy, PartialEq, Eq, Structural)]
pub enum GenerationError {
    /// Already used, or too far in the past.
    StaleMessage,
    /// Too far ahead of the ratchet.
    FutureMessage,
}

/// Abstract state of a ratchet: the next generation not yet derived and
/// the derived generations not yet used.
pub struct RatchetState {
    pub next: nat,
    pub cached: Set<nat>,
}

/// What receiving generation `g` does with window `w`: a generation ahead
/// of the ratchet is accepted when it skips at most `w` generations, which
/// are kept for later, and the keys more than `w` behind are dropped; an
/// earlier generation is accepted once if it is still kept.
pub open spec fn receive_step(st: RatchetState, w: nat, g: nat) -> (RatchetState, Result<(), GenerationError>) {
    if g >= st.next {
        if g - st.next > w {
            (st, Err(GenerationError::FutureMessage))
        } else {
            let next = g + 1;
            let cached = st.cached.union(Set::new(|x: nat| st.next <= x < g)).filter(|x: nat| x + w >= next);
            (RatchetState { next, cached }, Ok(()))
        }
    } else if st.cached.contains(g) {
        (RatchetState { next: st.next, cached: st.cached.remove(g) }, Ok(()))
    } else {
        (st, Err(GenerationError::StaleMessage))
    }
}

/// The state after receiving each generation of `gs` in turn.
pub open spec fn receive_all(st: RatchetState, w: nat, gs: Seq<nat>) -> RatchetState
    decreases gs.len(),
{
    if gs.len() == 0 {
        st
    } else {
        receive_all(receive_step(st, w, gs[0]).0, w, gs.drop_first())
    }
}

/// Every generation of `gs` is accepted when received in turn.
pub open spec fn all_accepted(st: RatchetState, w: nat, gs: Seq<nat>) -> bool
    decreases gs.len(),
{
    gs.len() == 0 || (receive_step(st, w, gs[0]).1 is Ok && all_accepted(receive_step(st, w, gs[0]).0, w, gs.drop_first()))
}

/// Messages may arrive in any order within the window: from a ratchet at
/// generation `n` with nothing kept, the `w` generations `n..n+w` are all
/// accepted, whatever order they arrive in (each once).
pub proof fn lemma_window_accepts_any_order(n: nat, w: nat, gs: Seq<nat>)
    requires
        gs.len() == w,
        gs.no_duplicates(),
        forall|i: int| 0 <= i < gs.len() ==> n <= #[trigger] gs[i] < n + w,
    ensures
        all_accepted(RatchetState { next: n, cached: Set::empty() }, w, gs),
{
    lemma_window_step(n, w, RatchetState { next: n, cached: Set::empty() }, gs);
}

proof fn lemma_window_step(n: nat, w: nat, st: RatchetState, gs: Seq<nat>)
    requires
        gs.no_duplicates(),
        n <= st.next <= n + w,
        forall|i: int| 0 <= i < gs.len() ==> n <= #[trigger] gs[i] < n + w,
        forall|i: int| 0 <= i < gs.len() && #[trigger] gs[i] < st.next ==> st.cached.contains(gs[i]),
    ensures
        all_accepted(st, w, gs),
    decreases gs.len(),
{
    if gs.len() > 0 {
        let g = gs[0];
        let (st2, r) = receive_step(st, w, g);
        let rest = gs.drop_first();
        assert forall|i: int| 0 <= i < rest.len() implies n <= #[trigger] rest[i] < n + w by {
            assert(rest[i] == gs[i + 1]);
        }
        assert forall|i: int| 0 <= i < rest.len() && #[trigger] rest[i] < st2.next implies st2.cached.contains(rest[i]) by {
            assert(rest[i] == gs[i + 1]);
            assert(gs[i + 1] != gs[0]);
            if g >= st.next {
                if rest[i] < st.next {
                    assert(st.cached.contains(rest[i]));
                }
                assert(rest[i] + w >= st2.next);
            }
        }
        assert(rest.no_duplicates()) by {
            assert forall|i: int, j: int| 0 <= i < rest.len() && 0 <= j < rest.len() && i != j implies rest[i] != rest[j] by {
                assert(rest[i] == gs[i + 1] && rest[j] == gs[j + 1]);
            }
        }
        lemma_window_step(n, w, st2, rest);
    }
}

/// A generation is accepted at most once: after it was accepted, receiving
/// it again is refused as stale.
pub proof fn lemma_replay_is_stale(st: RatchetState, w: nat, g: nat)
    requires
        forall|x: nat| #[trigger] st.cached.contains(x) ==> x < st.next,
        receive_step(st, w, g).1 is Ok,
    ensures
        receive_step(receive_step(st, w, g).0, w, g).1 == Err::<(), GenerationError>(GenerationError::StaleMessage),
{
}

/// Every kept generation is below the ratchet and within the window of it.
pub open spec fn floor_ok(st: RatchetState, w: nat) -> bool {
    forall|x: nat| #[trigger] st.cached.contains(x) ==> x < st.next && x + w >= st.next
}

/// Receiving keeps the kept generations below the ratchet and within the
/// window.
pub proof fn lemma_step_keeps_floor(st: RatchetState, w: nat, g: nat)
    requires
        floor_ok(st, w),
    ensures
        floor_ok(receive_step(st, w, g).0, w),
{
}

/// A generation more than the window behind the ratchet is refused as
/// stale, and the state is left as it was.
pub proof fn lemma_below_window_is_stale(st: RatchetState, w: nat, g: nat)
    requires
        floor_ok(st, w),
        g + w < st.next,
    ensures
        receive_step(st, w, g) == (st, Err::<(), GenerationError>(GenerationError::StaleMessage)),
{
}

/// `x` occurs in `s`.
pub open spec fn seq_has(s: Seq<u32>, x: nat) -> bool {
    exists|a: int| 0 <= a < s.len() && s[a] as nat == x
}

/// Generation tracking of one sender's ratchet, for one content type.
pub struct GenerationTracker {
    next: u64,
    /// Derived, unused generations, increasing.
    cached: Vec<u32>,
    window: u32,
}

impl GenerationTracker {
    pub closed spec fn wf(&self) -> bool {
        &&& forall|i: int, j: int| 0 <= i < j < self.cached@.len() ==> #[trigger] self.cached@[i] < #[trigger] self.cached@[j]
        &&& forall|i: int| 0 <= i < self.cached@.len() ==> (#[trigger] self.cached@[i] as nat) < self.next
        &&& forall|i: int| 0 <= i < self.cached@.len() ==> (#[trigger] self.cached@[i] as nat) + self.window >= self.next
        &&& self.next <= u32::MAX as nat + 1
    }

    /// The abstract state.
    pub closed spec fn state(&self) -> RatchetState {
        RatchetState { next: self.next as nat, cached: Set::new(|x: nat| seq_has(self.cached@, x)) }
    }

    pub closed spec fn spec_window(&self) -> nat {
        self.window as nat
    }

    /// A well-formed tracker keeps only generations within its window.
    pub proof fn lemma_tracker_floor(&self)
        requires
            self.wf(),
        ensures
            floor_ok(self.state(), self.spec_window()),
    {
        assert forall|x: nat| #[trigger] self.state().cached.contains(x) implies x < self.state().next && x + self.spec_window() >= self.state().next by {
            let a = choose|a: int| 0 <= a < self.cached@.len() && self.cached@[a] as nat == x;
        }
    }

    /// A ratchet at generation 0 that keeps keys up to `window` generations back.
    pub fn new(window: u32) -> (r: GenerationTracker)
        ensures
            r.wf(),
            r.state().next == 0,
            r.state().cached == Set::<nat>::empty(),
            r.spec_window() == window,
    {
        let r = GenerationTracker { next: 0, cached: Vec::new(), window };
        assert(r.state().cached =~= Set::<nat>::empty());
        r
    }

    /// The next generation not yet derived.
    pub fn next_generation(&self) -> (r: u64)
        ensures
            r == self.state().next,
    {
        self.next
    }

    /// Receive generation `g`.
    pub fn receive(&mut self, g: u32) -> (r: Result<(), GenerationError>)
        requires
            old(self).wf(),
        ensures
            final(self).wf(),
            final(self).spec_window() == old(self).spec_window(),
            (final(self).state(), r) == receive_step(old(self).state(), old(self).spec_window(), g as nat),
    {
        let w = self.window;
        if g as u64 >= self.next {
            if g as u64 - self.next > w as u64 {
                return Err(GenerationError::FutureMessage);
            }
            let ghost old_state = self.state();
            let new_next: u64 = g as u64 + 1;
            let mut kept: Vec<u32> = Vec::new();
            let mut i: usize = 0;
            while i < self.cached.len()
                invariant
                    old(self).wf(),
                    *self == *old(self),
                    i <= self.cached@.len(),
                    new_next == g + 1,
                    forall|a: int, b: int| 0 <= a < b < kept@.len() ==> #[trigger] kept@[a] < #[trigger] kept@[b],
                    forall|a: int| 0 <= a < kept@.len() ==> (#[trigger] kept@[a] as nat) < self.next,
                    forall|a: int| 0 <= a < kept@.len() ==> exists|b: int| 0 <= b < i && self.cached@[b] == #[trigger] kept@[a],
                    forall|b: int| 0 <= b < i && self.cached@[b] + w >= new_next ==> #[trigger] seq_has(kept@, self.cached@[b] as nat),
                    forall|a: int| 0 <= a < kept@.len() ==> (#[trigger] kept@[a] as nat) + w >= new_next,
                decreases self.cached@.len() - i,
            {
                let x = self.cached[i];
                if x as u64 + w as u64 >= new_next {
                    proof {
                        assert forall|a: int| 0 <= a < kept@.len() implies #[trigger] kept@[a] < x by {
                            let b = choose|b: int| 0 <= b < i && self.cached@[b] == kept@[a];
                        }
                    }
                    let ghost before = kept@;
                    kept.push(x);
                    proof {
                        assert(kept@[kept@.len() - 1] == x);
                        assert(seq_has(kept@, x as nat));
                        assert forall|v: nat| seq_has(before, v) implies #[trigger] seq_has(kept@, v) by {
                            let a = choose|a: int| 0 <= a < before.len() && before[a] as nat == v;
                            assert(kept@[a] == before[a]);
                        }
                        assert forall|a: int| 0 <= a < kept@.len() implies exists|b: int| 0 <= b < i + 1 && self.cached@[b] == #[trigger] kept@[a] by {
                            if a < before.len() {
                                assert(kept@[a] == before[a]);
                                let b = choose|b: int| 0 <= b < i && self.cached@[b] == before[a];
                            } else {
                                assert(self.cached@[i as int] == kept@[a]);
                            }
                        }
                    }
                }
                i = i + 1;
            }
            let mut y: u64 = self.next;
            while y < g as u64
                invariant
                    old(self).wf(),
                    *self == *old(self),
                    self.next <= y <= g,
                    new_next == g + 1,
                    forall|a: int, b: int| 0 <= a < b < kept@.len() ==> #[trigger] kept@[a] < #[trigger] kept@[b],
                    forall|a: int| 0 <= a < kept@.len() ==> (#[trigger] kept@[a] as nat) < y,
                    forall|a: int| 0 <= a < kept@.len() ==> (#[trigger] kept@[a] as nat) + w >= new_next,
                    forall|a: int| 0 <= a < kept@.len() ==> old_state.cached.contains(#[trigger] kept@[a] as nat)
                        || (self.next <= kept@[a] && kept@[a] < g),
                    forall|x: nat| (old_state.cached.contains(x) || (self.next <= x < y)) && x + w >= new_next
                        ==> #[trigger] seq_has(kept@, x),
                decreases g - y,
            {
                if y + w as u64 >= new_next {
                    let ghost before = kept@;
                    kept.push(y as u32);
                    proof {
                        assert(kept@[kept@.len() - 1] == y as u32);
                        assert(seq_has(kept@, y as nat));
                        assert forall|v: nat| seq_has(before, v) implies #[trigger] seq_has(kept@, v) by {
                            let a = choose|a: int| 0 <= a < before.len() && before[a] as nat == v;
                            assert(kept@[a] == before[a]);
                        }
                    }
                }
                y = y + 1;
            }
            self.cached = kept;
            self.next = new_next;
            proof {
                let (st2, _) = receive_step(old_state, w as nat, g as nat);
                assert(self.state().cached =~= st2.cached);
            }
            Ok(())
        } else {
            let mut i: usize = 0;
            while i < self.cached.len()
                invariant
                    old(self).wf(),
                    *self == *old(self),
                    g < self.next,
                    i <= self.cached@.len(),
                    forall|b: int| 0 <= b < i ==> self.cached@[b] != g,
                decreases self.cached@.len() - i,
            {
                if self.cached[i] == g {
                    let ghost old_state = self.state();
                    self.cached.remove(i);
                    proof {
                        assert(self.state().cached =~= old_state.cached.remove(g as nat)) by {
                            assert forall|x: nat| self.state().cached.contains(x) <==> old_state.cached.contains(x) && x != g by {
                                if self.state().cached.contains(x) {
                                    let b = choose|b: int| 0 <= b < self.cached@.len() && self.cached@[b] as nat == x;
                                    if b < i {
                                        assert(old(self).cached@[b] == self.cached@[b]);
                                    } else {
                                        assert(old(self).cached@[b + 1] == self.cached@[b]);
                                        assert(old(self).cached@[i as int] < old(self).cached@[b + 1]);
                                    }
                                }
                                if old_state.cached.contains(x) && x != g {
                                    let b = choose|b: int| 0 <= b < old(self).cached@.len() && old(self).cached@[b] as nat == x;
                                    if b < i {
                                        assert(self.cached@[b] == old(self).cached@[b]);
                                    } else {
                                        assert(b != i);
                                        assert(self.cached@[b - 1] == old(self).cached@[b]);
                                    }
                                }
                            }
                        }
                    }
                    return Ok(());
                }
                i = i + 1;
            }
            proof {
                assert(!self.state().cached.contains(g as nat));
            }
            Err(GenerationError::StaleMessage)
        }
    }
}

} // verus!
