//! The registry of live sessions, keyed by session code.
use vstd::prelude::*;
use std::collections::HashMap;
use crate::code::{CODE_SPACE, code_key, draw_code, format_code, lemma_code_key, parse_code, spells};
use crate::message::Error;
use crate::session::{Phase, Session};

verus! {

broadcast use vstd::std_specs::hash::group_hash_axioms;

/// How many random codes `generate` draws before it takes the first free
/// code in order.
pub const DRAWS: u32 = 64;

/// Whether `s` is the code of a session in `m`.
pub open spec fn is_live<T>(m: Map<u32, T>, s: Seq<char>) -> bool {
    match code_key(s) {
        Some(n) => m.contains_key(n),
        None => false,
    }
}

/// `after` is `before` with `clip` registered under a code that `s` spells
/// and that `before` did not hold.
pub open spec fn registers<T>(before: Map<u32, T>, after: Map<u32, T>, s: Seq<char>, clip: T) -> bool {
    exists|n: u32|
        #[trigger] before.insert(n, clip) == after && spells(s, n) && !before.contains_key(n)
}

/// Every code below `m` is in `s`, so `s` holds at least `m` codes.
proof fn lemma_full_prefix(s: Set<u32>, m: nat)
    requires
        s.finite(),
        m <= CODE_SPACE,
        forall|j: u32| (j as nat) < m ==> s.contains(j),
    ensures
        s.len() >= m,
    decreases m,
{
    if m > 0 {
        let k = (m - 1) as u32;
        assert(s.contains(k));
        lemma_full_prefix(s.remove(k), (m - 1) as nat);
    }
}

/// The registry of sessions. `T` is whatever the caller keeps per session.
pub struct Engine<T> {
    clipboards: HashMap<u32, T>,
}

impl<T> Engine<T> {
    /// The sessions, by code.
    pub closed spec fn sessions(&self) -> Map<u32, T> {
        self.clipboards@
    }

    /// An empty registry.
    pub fn new() -> (e: Self)
        ensures
            e.sessions() == Map::<u32, T>::empty(),
    {
        Engine { clipboards: HashMap::new() }
    }

    /// How many sessions are registered.
    pub fn len(&self) -> (r: usize)
        ensures
            r == self.sessions().len(),
    {
        self.clipboards.len()
    }

    /// Registers `clip` under a fresh code and returns the code's text.
    /// Codes are drawn at random until one is free; should every draw
    /// collide, the first free code in order is taken.
    pub fn generate(&mut self, clip: T) -> (code: String)
        requires
            old(self).sessions().len() < CODE_SPACE,
        ensures
            registers(old(self).sessions(), final(self).sessions(), code@, clip),
    {
        let mut attempt: u32 = 0;
        while attempt < DRAWS
            invariant
                self.clipboards@ == old(self).clipboards@,
            decreases DRAWS - attempt,
        {
            let n = draw_code();
            if !self.clipboards.contains_key(&n) {
                let ghost before = self.clipboards@;
                self.clipboards.insert(n, clip);
                let code = format_code(n);
                assert(before.insert(n, clip) == self.clipboards@);
                return code;
            }
            attempt = attempt + 1;
        }
        let mut k: u32 = 0;
        while k < CODE_SPACE
            invariant
                self.clipboards@ == old(self).clipboards@,
                forall|j: u32| j < k ==> self.clipboards@.contains_key(j),
            decreases CODE_SPACE - k,
        {
            if !self.clipboards.contains_key(&k) {
                let ghost before = self.clipboards@;
                self.clipboards.insert(k, clip);
                let code = format_code(k);
                assert(before.insert(k, clip) == self.clipboards@);
                return code;
            }
            k = k + 1;
        }
        proof {
            lemma_full_prefix(self.clipboards@.dom(), CODE_SPACE as nat);
        }
        format_code(0)
    }

    /// Whether a session with code `id` is registered.
    pub fn check(&self, id: &str) -> (r: bool)
        ensures
            r == is_live(self.sessions(), id@),
    {
        match parse_code(id) {
            Some(n) => self.clipboards.contains_key(&n),
            None => false,
        }
    }

    /// The session with code `id`; `InvalidId` when there is none.
    pub fn connect(&self, id: &str) -> (r: Result<&T, Error>)
        ensures
            r is Ok <==> is_live(self.sessions(), id@),
            r matches Ok(t) ==> *t == self.sessions()[code_key(id@)->Some_0],
            r matches Err(e) ==> e == Error::InvalidId,
    {
        match parse_code(id) {
            Some(n) => match self.clipboards.get(&n) {
                Some(t) => Ok(t),
                None => Err(Error::InvalidId),
            },
            None => Err(Error::InvalidId),
        }
    }

    /// Unregisters the session with code `id` and hands it back.
    pub fn remove(&mut self, id: &str) -> (r: Option<T>)
        ensures
            r is Some <==> is_live(old(self).sessions(), id@),
            !is_live(final(self).sessions(), id@),
            match code_key(id@) {
                Some(n) => {
                    &&& final(self).sessions() == old(self).sessions().remove(n)
                    &&& r matches Some(t) ==> t == old(self).sessions()[n]
                },
                None => final(self).sessions() == old(self).sessions(),
            },
    {
        match parse_code(id) {
            Some(n) => self.clipboards.remove(&n),
            None => None,
        }
    }
}

/// Ends the session registered under `code`: it stops, its code leaves the
/// registry (and is free for `generate` again), and it is marked stopped. The
/// clients it still had are handed back, so that each can be told to stop.
pub fn close_session<T, C>(registry: &mut Engine<T>, code: &str, session: &mut Session<C>) -> (r: Vec<(u128, C)>)
    requires
        old(session).wf(),
    ensures
        r@ == old(session).clients(),
        final(session).wf(),
        final(session).state() == Phase::Stopped,
        final(session).clients() == Seq::<(u128, C)>::empty(),
        final(session).content() == old(session).content(),
        !is_live(final(registry).sessions(), code@),
        match code_key(code@) {
            Some(n) => final(registry).sessions() == old(registry).sessions().remove(n),
            None => final(registry).sessions() == old(registry).sessions(),
        },
{
    let clients = session.stop();
    registry.remove(code);
    session.finish();
    clients
}

/// A code just generated is live, and was not live before: two codes
/// generated while both stay live differ.
pub proof fn lemma_generated_code_is_fresh<T>(before: Map<u32, T>, after: Map<u32, T>, code: Seq<char>, clip: T)
    requires
        registers(before, after, code, clip),
    ensures
        is_live(after, code),
        !is_live(before, code),
{
    let n = choose|n: u32| #[trigger] before.insert(n, clip) == after && spells(code, n) && !before.contains_key(n);
    lemma_code_key(code, n);
}

/// Of two codes generated one after the other, while the first stays live,
/// the second differs from the first.
pub proof fn lemma_live_codes_distinct<T>(
    m0: Map<u32, T>,
    m1: Map<u32, T>,
    m2: Map<u32, T>,
    m3: Map<u32, T>,
    first: Seq<char>,
    second: Seq<char>,
    x: T,
    y: T,
)
    requires
        registers(m0, m1, first, x),
        is_live(m2, first),
        registers(m2, m3, second, y),
    ensures
        first != second,
{
    lemma_generated_code_is_fresh(m2, m3, second, y);
}

/// Once a session's code is unregistered, the code is no longer live, and
/// registering it again is an outcome `generate` may have.
pub proof fn lemma_removed_code_reusable<T>(before: Map<u32, T>, code: Seq<char>, clip: T)
    requires
        code_key(code) is Some,
    ensures
        !is_live(before.remove(code_key(code)->Some_0), code),
        registers(
            before.remove(code_key(code)->Some_0),
            before.remove(code_key(code)->Some_0).insert(code_key(code)->Some_0, clip),
            code,
            clip,
        ),
{
    let n = code_key(code)->Some_0;
    assert(spells(code, n));
    let after = before.remove(n);
    assert(after.insert(n, clip) == after.insert(n, clip));
}

} // verus!
