//! Ratchet states: the forward-only chain by which a private node counts
//! its revisions.
//!
//! The chain itself is the `skip_ratchet` crate's. This module holds a state
//! in that crate's text encoding, so that states are plain values that can
//! be compared, and steps through the chain by calling the crate.
//!
//! The states between an older state and a newer one are found here, by
//! stepping forward from the older one and never further than the budget
//! allows. The crate's own `PreviousIterator` is not used for it: it counts
//! the budget in whole epochs of 65536 steps, and it does not come to an end
//! where the state given as the older one lies ahead of the newer one.

use vstd::prelude::*;
use vstd::string::*;
use vstd::utf8::*;
use vstd::pervasive::unreached;
use crate::common::name_map::Shared;
use crate::error::FsError;

verus! {

/// The encoding of the state that follows the one `state` encodes, or
/// `None` where `state` is not the encoding of a ratchet state.
pub uninterp spec fn ratchet_successor(state: Seq<char>) -> Option<Seq<char>>;

/// The key derived from the state that `state` encodes, or `None` where
/// `state` is not the encoding of a ratchet state.
pub uninterp spec fn ratchet_key(state: Seq<char>) -> Option<Seq<u8>>;

/// The encoding of the first state of the chain that grows from `seed`.
pub uninterp spec fn ratchet_origin(seed: Seq<u8>) -> Seq<char>;

/// Decodes `state` with `Ratchet::try_from`, steps it with `Ratchet::inc`
/// and encodes what comes out with `String::from`.
///
/// Decoding slices the text at fixed byte offsets, which is why the text must
/// be ASCII. Where the text decodes, the result is again an encoding: it is
/// ASCII and decodes in its turn. Where it does not, there is no result.
#[verifier::external_body]
fn successor(state: &String) -> (next: Option<String>)
    requires
        is_ascii_chars(state@),
    ensures
        next matches Some(t) ==> ratchet_successor(state@) == Some(t@) && is_ascii_chars(t@)
            && ratchet_successor(t@) is Some,
        next is None ==> ratchet_successor(state@) is None,
{
    let mut ratchet = skip_ratchet::Ratchet::try_from(state.clone()).ok()?;
    ratchet.inc();
    Some(String::from(&ratchet))
}

/// Decodes `state` with `Ratchet::try_from` and derives its key with
/// `Ratchet::derive_key`.
///
/// A text has a key exactly when it decodes, which is also when it has a
/// successor. The key is 32 bytes long.
#[verifier::external_body]
fn key_of(state: &String) -> (key: Option<[u8; 32]>)
    requires
        is_ascii_chars(state@),
    ensures
        key matches Some(k) ==> ratchet_key(state@) == Some(k@),
        key is None ==> ratchet_key(state@) is None,
        key is Some <==> ratchet_successor(state@) is Some,
{
    Some(skip_ratchet::Ratchet::try_from(state.clone()).ok()?.derive_key())
}

/// Makes the first state of a chain with `Ratchet::zero` and encodes it with
/// `String::from`. The result is ASCII and decodes.
#[verifier::external_body]
fn origin(seed: &[u8; 32]) -> (state: String)
    ensures
        state@ == ratchet_origin(seed@),
        is_ascii_chars(state@),
        ratchet_successor(state@) is Some,
{
    String::from(&skip_ratchet::Ratchet::zero(*seed))
}

/// The state reached from `state` in `n` steps, if each step on the way
/// exists.
pub open spec fn advance(state: Seq<char>, n: nat) -> Option<Seq<char>>
    decreases n,
{
    if n == 0 {
        Some(state)
    } else {
        match ratchet_successor(state) {
            Some(next) => advance(next, (n - 1) as nat),
            None => None,
        }
    }
}

/// Stepping `m` times and then `n` times is stepping `m + n` times.
pub proof fn lemma_advance_add(state: Seq<char>, m: nat, n: nat)
    ensures
        advance(state, m + n) == match advance(state, m) {
            Some(middle) => advance(middle, n),
            None => None,
        },
    decreases m,
{
    if m > 0 {
        match ratchet_successor(state) {
            Some(next) => {
                lemma_advance_add(next, (m - 1) as nat, n);
            },
            None => {},
        }
    }
}

/// The least number of steps, none above `budget`, that lead from `past` to
/// `recent`; `None` where no such number of steps does.
pub open spec fn steps_between(past: Seq<char>, recent: Seq<char>, budget: nat) -> Option<nat>
    decreases budget,
{
    if past == recent {
        Some(0)
    } else if budget == 0 {
        None
    } else {
        match ratchet_successor(past) {
            Some(next) => match steps_between(next, recent, (budget - 1) as nat) {
                Some(n) => Some(n + 1),
                None => None,
            },
            None => None,
        }
    }
}

/// The `n` states from `past` on, the newest first and `past` itself last.
pub open spec fn trail(past: Seq<char>, n: nat) -> Seq<Seq<char>> {
    Seq::new(n, |i: int| advance(past, (n - 1 - i) as nat).unwrap())
}

/// What a search that succeeds has found: the first number of steps that
/// leads from the one state to the other.
pub proof fn lemma_steps_between_some(past: Seq<char>, recent: Seq<char>, budget: nat)
    requires
        steps_between(past, recent, budget) is Some,
    ensures
        steps_between(past, recent, budget).unwrap() <= budget,
        advance(past, steps_between(past, recent, budget).unwrap()) == Some(recent),
        forall|m: nat|
            m < steps_between(past, recent, budget).unwrap() ==> advance(past, m) != Some(recent),
    decreases budget,
{
    if past != recent {
        let next = ratchet_successor(past).unwrap();
        lemma_steps_between_some(next, recent, (budget - 1) as nat);
        let n = steps_between(next, recent, (budget - 1) as nat).unwrap();
        assert forall|m: nat| m < n + 1 implies advance(past, m) != Some(recent) by {
            if m > 0 {
                assert(advance(past, m) == advance(next, (m - 1) as nat));
            }
        }
    }
}

/// A search fails only where no number of steps within the budget leads from
/// the one state to the other.
pub proof fn lemma_steps_between_none(past: Seq<char>, recent: Seq<char>, budget: nat)
    requires
        steps_between(past, recent, budget) is None,
    ensures
        forall|m: nat| m <= budget ==> advance(past, m) != Some(recent),
    decreases budget,
{
    if budget > 0 {
        match ratchet_successor(past) {
            Some(next) => {
                lemma_steps_between_none(next, recent, (budget - 1) as nat);
                assert forall|m: nat| m <= budget implies advance(past, m) != Some(recent) by {
                    if m > 0 {
                        assert(advance(past, m) == advance(next, (m - 1) as nat));
                    }
                }
            },
            None => {
                assert forall|m: nat| m <= budget implies advance(past, m) != Some(recent) by {
                }
            },
        }
    } else {
        assert forall|m: nat| m <= budget implies advance(past, m) != Some(recent) by {
        }
    }
}

/// The budget decides whether a search succeeds, and nothing else: where
/// `distance` is the first number of steps that leads from `past` to
/// `recent`, the search finds it with any budget that is no smaller, and
/// finds nothing with any budget that is.
pub proof fn lemma_budget_decides(past: Seq<char>, recent: Seq<char>, distance: nat, budget: nat)
    requires
        advance(past, distance) == Some(recent),
        forall|m: nat| m < distance ==> advance(past, m) != Some(recent),
    ensures
        budget < distance ==> steps_between(past, recent, budget) is None,
        budget >= distance ==> steps_between(past, recent, budget) == Some(distance),
{
    match steps_between(past, recent, budget) {
        Some(n) => {
            lemma_steps_between_some(past, recent, budget);
        },
        None => {
            lemma_steps_between_none(past, recent, budget);
        },
    }
}

/// A state is at no distance from itself, whatever the budget.
pub proof fn lemma_steps_between_same(state: Seq<char>, budget: nat)
    ensures
        steps_between(state, state, budget) == Some(0nat),
        trail(state, 0) == Seq::<Seq<char>>::empty(),
{
}

/// Where a state is reached in `n` steps, every number of steps below `n`
/// leads to a state too, and one more step from there leads to the state
/// that one more step leads to.
pub proof fn lemma_advance_prefix(state: Seq<char>, n: nat, k: nat)
    requires
        advance(state, n) is Some,
        k < n,
    ensures
        advance(state, k) is Some,
        ratchet_successor(advance(state, k).unwrap()) == advance(state, k + 1),
        advance(state, k + 1) is Some,
    decreases n - k,
{
    lemma_advance_add(state, k, 1);
    lemma_advance_add(state, k + 1, (n - k - 1) as nat);
    if advance(state, k) is Some {
        let middle = advance(state, k).unwrap();
        assert(advance(middle, 1) == match ratchet_successor(middle) {
            Some(next) => advance(next, 0),
            None => None,
        });
    }
}

/// The states between two states come newest first and each one step before
/// the one handed out before it: the first is one step before `recent`, the
/// last is `past` itself, and there are as many as steps lead from `past`
/// to `recent`.
pub proof fn lemma_trail_descends(past: Seq<char>, recent: Seq<char>, n: nat)
    requires
        advance(past, n) == Some(recent),
    ensures
        trail(past, n).len() == n,
        n > 0 ==> ratchet_successor(trail(past, n)[0]) == Some(recent),
        n > 0 ==> trail(past, n).last() == past,
        forall|i: int|
            0 <= i < n - 1 ==> ratchet_successor(#[trigger] trail(past, n)[i + 1]) == Some(
                trail(past, n)[i],
            ),
{
    if n > 0 {
        lemma_advance_prefix(past, n, (n - 1) as nat);
        assert forall|i: int| 0 <= i < n - 1 implies ratchet_successor(
            #[trigger] trail(past, n)[i + 1],
        ) == Some(trail(past, n)[i]) by {
            lemma_advance_prefix(past, n, (n - 2 - i) as nat);
        }
    }
}

/// A state of a ratchet chain.
#[derive(Debug)]
pub struct Ratchet {
    encoded: String,
}

impl Ratchet {
    /// The text is the encoding of a ratchet state.
    #[verifier::type_invariant]
    pub closed spec fn wf(&self) -> bool {
        is_ascii_chars(self.encoded@) && ratchet_successor(self.encoded@) is Some
    }

    /// The state as a plain value: its encoding.
    pub closed spec fn view(&self) -> Seq<char> {
        self.encoded@
    }

    /// The first state of the chain that grows from `seed`.
    pub fn zero(seed: &[u8; 32]) -> (ratchet: Ratchet)
        ensures
            ratchet@ == ratchet_origin(seed@),
            ratchet.wf(),
    {
        Ratchet { encoded: origin(seed) }
    }

    /// The state that `text` encodes, where it encodes one.
    pub fn from_encoded(text: String) -> (ratchet: Option<Ratchet>)
        ensures
            ratchet is Some <==> is_ascii_chars(text@) && ratchet_successor(text@) is Some,
            ratchet matches Some(r) ==> r@ == text@ && r.wf(),
    {
        if !text.is_ascii() {
            return None;
        }
        match successor(&text) {
            Some(_) => Some(Ratchet { encoded: text }),
            None => None,
        }
    }

    /// The encoding of the state.
    pub fn encoded(&self) -> (text: &String)
        ensures
            text@ == self@,
    {
        &self.encoded
    }

    /// Moves the state one step forward.
    pub fn inc(&mut self)
        ensures
            ratchet_successor(old(self)@) == Some(final(self)@),
            final(self).wf(),
    {
        proof {
            use_type_invariant(&*self);
        }
        match successor(&self.encoded) {
            Some(next) => {
                *self = Ratchet { encoded: next };
            },
            None => unreached(),
        }
    }

    /// The key that belongs to the state.
    pub fn derive_key(&self) -> (key: [u8; 32])
        ensures
            ratchet_key(self@) == Some(key@),
    {
        proof {
            use_type_invariant(self);
        }
        match key_of(&self.encoded) {
            Some(key) => key,
            None => unreached(),
        }
    }

    /// Whether two states are the same state.
    pub fn same(&self, other: &Ratchet) -> (same: bool)
        ensures
            same == (self@ == other@),
    {
        self.encoded == other.encoded
    }
}

impl Clone for Ratchet {
    fn clone(&self) -> (copy: Ratchet)
        ensures
            copy == *self,
    {
        self.share()
    }
}

impl Shared for Ratchet {
    fn share(&self) -> (other: Self) {
        proof {
            use_type_invariant(self);
        }
        Ratchet { encoded: self.encoded.clone() }
    }
}


/// An optional count moved up by `by`.
pub open spec fn lifted(count: Option<nat>, by: nat) -> Option<nat> {
    match count {
        Some(n) => Some(n + by),
        None => None,
    }
}

/// Searches forward from `past` for `recent`, one step at a time, and gives
/// up after `discrepancy_budget` steps. Returns the number of steps at which
/// `recent` was first met.
pub fn ratchet_distance(past: &Ratchet, recent: &Ratchet, discrepancy_budget: usize) -> (steps:
    Option<usize>)
    ensures
        steps matches Some(n) ==> steps_between(past@, recent@, discrepancy_budget as nat) == Some(
            n as nat,
        ),
        steps is None ==> steps_between(past@, recent@, discrepancy_budget as nat) is None,
{
    let mut current = past.share();
    let mut steps: usize = 0;
    loop
        invariant
            steps <= discrepancy_budget,
            steps_between(past@, recent@, discrepancy_budget as nat) == lifted(
                steps_between(current@, recent@, (discrepancy_budget - steps) as nat),
                steps as nat,
            ),
        decreases discrepancy_budget - steps,
    {
        if current.same(recent) {
            return Some(steps);
        }
        if steps == discrepancy_budget {
            return None;
        }
        current.inc();
        steps = steps + 1;
    }
}

/// The states that lie between an older state and a newer one, handed out
/// one by one from the newest back to the older state itself.
pub struct PreviousRatchets {
    /// What is still to come, the oldest first.
    pending: Vec<Ratchet>,
}

impl PreviousRatchets {
    /// The states still to come, in the order in which they come.
    pub closed spec fn view(&self) -> Seq<Seq<char>> {
        Seq::new(
            self.pending@.len(),
            |i: int| self.pending@[self.pending@.len() - 1 - i]@,
        )
    }

    /// The states from `past` up to the one before `recent`, where `recent`
    /// lies within `discrepancy_budget` steps of `past`. Where it does not,
    /// the two states are unrelated or too far apart, and there is no
    /// intermediate ratchet.
    pub fn new(past: &Ratchet, recent: &Ratchet, discrepancy_budget: usize) -> (found: Result<
        Self,
        FsError,
    >)
        ensures
            match found {
                Ok(previous) => steps_between(past@, recent@, discrepancy_budget as nat) matches Some(
                    n,
                ) && previous@ == trail(past@, n),
                Err(e) => e == FsError::NoIntermediateRatchet && steps_between(
                    past@,
                    recent@,
                    discrepancy_budget as nat,
                ) is None,
            },
    {
        let steps = match ratchet_distance(past, recent, discrepancy_budget) {
            Some(steps) => steps,
            None => {
                return Err(FsError::NoIntermediateRatchet);
            },
        };
        let mut pending: Vec<Ratchet> = Vec::new();
        let mut current = past.share();
        let mut i: usize = 0;
        while i < steps
            invariant
                i <= steps,
                pending@.len() == i,
                advance(past@, i as nat) == Some(current@),
                forall|j: int| 0 <= j < i ==> advance(past@, j as nat) == Some(#[trigger] pending@[j]@),
            decreases steps - i,
        {
            pending.push(current.share());
            let ghost before = current@;
            current.inc();
            proof {
                lemma_advance_add(past@, i as nat, 1);
                assert(advance(before, 1) == advance(current@, 0));
            }
            i = i + 1;
        }
        let previous = PreviousRatchets { pending };
        Ok(previous)
    }

    /// How many states are still to come.
    pub fn step_count(&self) -> (n: usize)
        ensures
            n == self@.len(),
    {
        self.pending.len()
    }

    /// Hands out the next state, one step older than the last, if any is left.
    pub fn next(&mut self) -> (state: Option<Ratchet>)
        ensures
            old(self)@.len() == 0 ==> state is None && final(self)@ == old(self)@,
            old(self)@.len() > 0 ==> (state matches Some(r) && r@ == old(self)@[0]),
            old(self)@.len() > 0 ==> final(self)@ == old(self)@.skip(1),
    {
        let state = self.pending.pop();
        state
    }
}

} // verus!
