//! Address validation tokens and the `NEW_TOKEN` frames that carry them.

use std::collections::VecDeque;
use vstd::prelude::*;

verus! {

/// The longest address validation token that is accepted. The protocol sets no such
/// bound; it is a limit that this library chooses.
pub const MAX_ADDRESS_VALIDATION_TOKEN_LEN: usize = 1024;

/// Why a token is refused.
#[derive(Clone, Copy, Debug, PartialEq, Eq, Structural)]
pub enum Error {
    /// The token is empty, or it is already queued or in flight.
    InvalidFrame,
    /// The token is longer than the library's limit.
    BufferTooShort,
}

/// What a token manager holds, as mathematical values.
#[verifier::ext_equal]
pub struct TokensView {
    /// Tokens that were never sent, oldest first.
    pub pending: Seq<Seq<u8>>,
    /// Tokens that were lost and wait to be sent again, oldest loss first.
    pub retransmits: Seq<Seq<u8>>,
    /// Tokens that were sent and neither acknowledged nor lost since.
    pub in_flight: Set<Seq<u8>>,
}

impl TokensView {
    /// The manager knows the token: it is queued or in flight.
    pub open spec fn knows(self, token: Seq<u8>) -> bool {
        ||| self.pending.contains(token)
        ||| self.retransmits.contains(token)
        ||| self.in_flight.contains(token)
    }

    /// Every known token stands in exactly one place, once, and keeps to the limit.
    pub open spec fn valid(self) -> bool {
        &&& self.pending.no_duplicates()
        &&& self.retransmits.no_duplicates()
        &&& self.in_flight.finite()
        &&& forall|t: Seq<u8>|
            self.pending.contains(t) ==> !#[trigger] self.retransmits.contains(t)
        &&& forall|t: Seq<u8>| self.pending.contains(t) ==> !#[trigger] self.in_flight.contains(t)
        &&& forall|t: Seq<u8>|
            self.retransmits.contains(t) ==> !#[trigger] self.in_flight.contains(t)
        &&& forall|t: Seq<u8>|
            #[trigger] self.knows(t) ==> 0 < t.len() <= MAX_ADDRESS_VALIDATION_TOKEN_LEN
    }

    /// The token to send next: a lost one before one that was never sent.
    pub open spec fn next(self) -> Option<Seq<u8>> {
        if self.retransmits.len() > 0 {
            Some(self.retransmits[0])
        } else if self.pending.len() > 0 {
            Some(self.pending[0])
        } else {
            None
        }
    }

    /// The queues after the next token has been taken off them.
    pub open spec fn without_next(self) -> TokensView {
        if self.retransmits.len() > 0 {
            TokensView { retransmits: self.retransmits.drop_first(), ..self }
        } else if self.pending.len() > 0 {
            TokensView { pending: self.pending.drop_first(), ..self }
        } else {
            self
        }
    }

    /// The next token has left: it is in flight.
    pub open spec fn sent(self) -> TokensView {
        match self.next() {
            Some(token) => TokensView {
                in_flight: self.in_flight.insert(token),
                ..self.without_next()
            },
            None => self,
        }
    }

    /// The token's packet has been acknowledged: the manager forgets the token,
    /// unless it was never sent.
    pub open spec fn acked(self, token: Seq<u8>) -> TokensView {
        TokensView {
            retransmits: self.retransmits.remove_value(token),
            in_flight: self.in_flight.remove(token),
            ..self
        }
    }

    /// The token's packet has been lost: a token in flight is queued again.
    pub open spec fn lost(self, token: Seq<u8>) -> TokensView {
        if self.in_flight.contains(token) {
            TokensView {
                retransmits: self.retransmits.push(token),
                in_flight: self.in_flight.remove(token),
                ..self
            }
        } else {
            self
        }
    }

    /// The outcome of queueing a token.
    pub open spec fn pushed(self, token: Seq<u8>) -> Result<TokensView, Error> {
        if token.len() == 0 {
            Err(Error::InvalidFrame)
        } else if token.len() > MAX_ADDRESS_VALIDATION_TOKEN_LEN {
            Err(Error::BufferTooShort)
        } else if self.knows(token) {
            Err(Error::InvalidFrame)
        } else {
            Ok(TokensView { pending: self.pending.push(token), ..self })
        }
    }
}

/// Taking an element out of a list without repetitions leaves the others.
proof fn lemma_remove_at(s: Seq<Seq<u8>>, pos: int)
    requires
        s.no_duplicates(),
        0 <= pos < s.len(),
    ensures
        s.remove(pos).no_duplicates(),
        forall|t: Seq<u8>| #[trigger] s.remove(pos).contains(t) <==> s.contains(t) && t != s[pos],
{
    let r = s.remove(pos);
    assert forall|t: Seq<u8>| #[trigger] r.contains(t) <==> s.contains(t) && t != s[pos] by {
        if r.contains(t) {
            let i = choose|i: int| 0 <= i < r.len() && r[i] == t;
            assert(s[if i < pos { i } else { i + 1 }] == t);
        }
        if s.contains(t) && t != s[pos] {
            let i = choose|i: int| 0 <= i < s.len() && s[i] == t;
            assert(r[if i < pos { i } else { i - 1 }] == t);
        }
    }
}

/// Appending a new element to a list without repetitions adds just that element.
proof fn lemma_push_new(s: Seq<Seq<u8>>, token: Seq<u8>)
    requires
        s.no_duplicates(),
        !s.contains(token),
    ensures
        s.push(token).no_duplicates(),
        forall|t: Seq<u8>| #[trigger] s.push(token).contains(t) <==> s.contains(t) || t == token,
{
    let r = s.push(token);
    assert forall|t: Seq<u8>| #[trigger] r.contains(t) <==> s.contains(t) || t == token by {
        if r.contains(t) {
            let i = choose|i: int| 0 <= i < r.len() && r[i] == t;
            assert(i < s.len() ==> s[i] == t);
        }
        if s.contains(t) {
            let i = choose|i: int| 0 <= i < s.len() && s[i] == t;
            assert(r[i] == t);
        }
        assert(r[s.len() as int] == token);
    }
}

/// Queueing a token keeps the state valid: the token becomes known and no other
/// token is forgotten or learnt.
pub proof fn lemma_pushed_valid(v: TokensView, token: Seq<u8>)
    requires
        v.valid(),
        v.pushed(token) is Ok,
    ensures
        v.pushed(token)->Ok_0.valid(),
        forall|t: Seq<u8>| #[trigger]
            v.pushed(token)->Ok_0.knows(t) <==> v.knows(t) || t == token,
{
    lemma_push_new(v.pending, token);
    let w = v.pushed(token)->Ok_0;
    assert forall|t: Seq<u8>| #[trigger] w.knows(t) <==> v.knows(t) || t == token by {}
}

/// Sending keeps the state valid and known tokens known.
pub proof fn lemma_sent_valid(v: TokensView)
    requires
        v.valid(),
    ensures
        v.sent().valid(),
        forall|t: Seq<u8>| #[trigger] v.sent().knows(t) <==> v.knows(t),
{
    if v.retransmits.len() > 0 {
        let token = v.retransmits[0];
        assert(v.retransmits.contains(token));
        assert(v.retransmits.drop_first() =~= v.retransmits.remove(0));
        lemma_remove_at(v.retransmits, 0);
        assert forall|t: Seq<u8>| #[trigger] v.sent().knows(t) <==> v.knows(t) by {}
    } else if v.pending.len() > 0 {
        let token = v.pending[0];
        assert(v.pending.contains(token));
        assert(v.pending.drop_first() =~= v.pending.remove(0));
        lemma_remove_at(v.pending, 0);
        assert forall|t: Seq<u8>| #[trigger] v.sent().knows(t) <==> v.knows(t) by {}
    }
}

/// An acknowledgement keeps the state valid and forgets the token at most.
pub proof fn lemma_acked_valid(v: TokensView, token: Seq<u8>)
    requires
        v.valid(),
    ensures
        v.acked(token).valid(),
        forall|t: Seq<u8>| #[trigger]
            v.acked(token).knows(t) <==> v.knows(t) && (t != token || v.pending.contains(t)),
{
    v.retransmits.index_of_first_ensures(token);
    if v.retransmits.contains(token) {
        lemma_remove_at(v.retransmits, v.retransmits.index_of_first(token)->0);
    }
    let w = v.acked(token);
    assert forall|t: Seq<u8>| #[trigger]
        w.knows(t) <==> v.knows(t) && (t != token || v.pending.contains(t)) by {}
}

/// A loss keeps the state valid and the known tokens known.
pub proof fn lemma_lost_valid(v: TokensView, token: Seq<u8>)
    requires
        v.valid(),
    ensures
        v.lost(token).valid(),
        forall|t: Seq<u8>| #[trigger] v.lost(token).knows(t) <==> v.knows(t),
{
    if v.in_flight.contains(token) {
        lemma_push_new(v.retransmits, token);
        assert(v.knows(token));
        assert forall|t: Seq<u8>| #[trigger] v.lost(token).knows(t) <==> v.knows(t) by {}
    }
}

/// Law: a token that is queued or in flight is refused.
pub proof fn law_known_token_is_refused(v: TokensView, token: Seq<u8>)
    requires
        v.valid(),
        v.knows(token),
    ensures
        v.pushed(token) == Err::<TokensView, Error>(Error::InvalidFrame),
{
}

/// The state after a number of packets have been sent, with nothing else happening.
pub open spec fn after_sends(v: TokensView, count: nat) -> TokensView
    decreases count,
{
    if count == 0 {
        v
    } else {
        after_sends(v, (count - 1) as nat).sent()
    }
}

/// Law: tokens leave in the order in which they were queued, the lost ones before
/// those that were never sent, each of them once; then nothing is left to send.
pub proof fn law_tokens_leave_in_order(v: TokensView, count: nat)
    requires
        count <= v.retransmits.len() + v.pending.len(),
    ensures
        after_sends(v, count).retransmits + after_sends(v, count).pending == (v.retransmits
            + v.pending).skip(count as int),
        count < v.retransmits.len() + v.pending.len() ==> after_sends(v, count).next() == Some(
            (v.retransmits + v.pending)[count as int],
        ),
        count == v.retransmits.len() + v.pending.len() ==> after_sends(v, count).next() is None,
        after_sends(v, count).in_flight == v.in_flight.union(
            (v.retransmits + v.pending).take(count as int).to_set(),
        ),
    decreases count,
{
    let queue = v.retransmits + v.pending;
    let w = after_sends(v, count);
    if count == 0 {
        assert(w.retransmits + w.pending =~= queue.skip(0));
        assert(w.in_flight =~= v.in_flight.union(queue.take(0).to_set()));
    } else {
        let u = after_sends(v, (count - 1) as nat);
        law_tokens_leave_in_order(v, (count - 1) as nat);
        assert(queue.skip(count - 1)[0] == queue[count - 1]);
        assert(w.retransmits + w.pending =~= (u.retransmits + u.pending).drop_first());
        assert(queue.skip(count - 1).drop_first() =~= queue.skip(count as int));
        let shorter = queue.take(count - 1);
        assert(queue.take(count as int) =~= shorter.push(queue[count - 1]));
        assert forall|t: Seq<u8>| #[trigger]
            queue.take(count as int).to_set().contains(t) <==> shorter.to_set().contains(t) || t
                == queue[count - 1] by {
            let longer = queue.take(count as int);
            if longer.contains(t) {
                let i = choose|i: int| 0 <= i < longer.len() && longer[i] == t;
                assert(i < shorter.len() ==> shorter[i] == t);
            }
            if shorter.contains(t) {
                let i = choose|i: int| 0 <= i < shorter.len() && shorter[i] == t;
                assert(longer[i] == t);
            }
            assert(longer[count - 1] == queue[count - 1]);
        }
        assert(w.in_flight =~= v.in_flight.union(queue.take(count as int).to_set()));
    }
    assert(count < queue.len() ==> queue.skip(count as int)[0] == queue[count as int]);
    assert(w.retransmits.len() + w.pending.len() == queue.len() - count);
    assert(w.retransmits.len() > 0 ==> (w.retransmits + w.pending)[0] == w.retransmits[0]);
    assert(w.retransmits.len() == 0 && w.pending.len() > 0 ==> (w.retransmits + w.pending)[0]
        == w.pending[0]);
}

/// Law: a loss takes a send back, but for the token's place: nothing stays in
/// flight that was not before, and the token is the last of those to send again.
pub proof fn law_loss_takes_a_send_back(v: TokensView)
    requires
        v.valid(),
        v.next() is Some,
    ensures
        ({
            let token = v.next()->0;
            let w = v.sent().lost(token);
            &&& w.in_flight == v.in_flight
            &&& w.retransmits == v.without_next().retransmits.push(token)
            &&& w.pending == v.without_next().pending
        }),
{
    let token = v.next()->0;
    assert(v.retransmits.contains(token) || v.pending.contains(token));
    assert(v.sent().lost(token).in_flight =~= v.in_flight);
}

/// Law: a token can be queued again once a packet that carried it has been
/// acknowledged, and no sooner, whether or not it was taken for lost before.
pub proof fn law_acknowledged_token_is_free(v: TokensView, token: Seq<u8>)
    requires
        v.valid(),
        v.in_flight.contains(token),
    ensures
        v.pushed(token) is Err,
        v.lost(token).pushed(token) is Err,
        v.acked(token).pushed(token) is Ok,
        v.lost(token).acked(token).pushed(token) is Ok,
{
    assert(v.knows(token));
    lemma_lost_valid(v, token);
    lemma_acked_valid(v, token);
    lemma_acked_valid(v.lost(token), token);
}

/// Law: of the two fates of a packet the acknowledgement wins: the token is
/// forgotten in whichever order the two are reported.
pub proof fn law_acknowledgement_wins_over_loss(v: TokensView, token: Seq<u8>)
    requires
        v.valid(),
    ensures
        v.lost(token).acked(token) == v.acked(token),
        v.acked(token).lost(token) == v.acked(token),
{
    lemma_acked_valid(v, token);
    if v.in_flight.contains(token) {
        assert(v.knows(token));
        assert(!v.retransmits.contains(token));
        let longer = v.retransmits.push(token);
        assert(longer[v.retransmits.len() as int] == token);
        longer.index_of_first_ensures(token);
        v.retransmits.index_of_first_ensures(token);
        let i = longer.index_of_first(token)->0;
        if i < v.retransmits.len() {
            assert(v.retransmits[i] == token);
        }
        assert(longer.remove(i) =~= v.retransmits);
        assert(v.lost(token).acked(token).in_flight =~= v.acked(token).in_flight);
    }
}

/// Law: reporting a loss or an acknowledgement again changes nothing.
pub proof fn law_reports_are_idempotent(v: TokensView, token: Seq<u8>)
    requires
        v.valid(),
    ensures
        v.acked(token).acked(token) == v.acked(token),
        v.lost(token).lost(token) == v.lost(token),
{
    let w = v.acked(token);
    v.retransmits.index_of_first_ensures(token);
    if v.retransmits.contains(token) {
        lemma_remove_at(v.retransmits, v.retransmits.index_of_first(token)->0);
    }
    w.retransmits.index_of_first_ensures(token);
    assert(w.acked(token) =~= w);
}

/// The tokens of a list, each as a sequence of bytes.
pub open spec fn token_seq(tokens: Seq<Vec<u8>>) -> Seq<Seq<u8>> {
    tokens.map_values(|t: Vec<u8>| t@)
}

/// Manages address validation tokens sent in NEW_TOKEN frames.
#[derive(Debug)]
pub struct AddressValidationTokens {
    pending: VecDeque<Vec<u8>>,
    retransmits: VecDeque<Vec<u8>>,
    in_flight: Vec<Vec<u8>>,
}

impl View for AddressValidationTokens {
    type V = TokensView;

    closed spec fn view(&self) -> TokensView {
        TokensView {
            pending: token_seq(self.pending@),
            retransmits: token_seq(self.retransmits@),
            in_flight: token_seq(self.in_flight@).to_set(),
        }
    }
}

/// Whether two byte strings are the same.
fn same_bytes(a: &[u8], b: &[u8]) -> (same: bool)
    ensures
        same == (a@ == b@),
{
    if a.len() != b.len() {
        return false;
    }
    let mut i: usize = 0;
    while i < a.len()
        invariant
            i <= a@.len(),
            a@.len() == b@.len(),
            forall|k: int| 0 <= k < i ==> a@[k] == b@[k],
        decreases a@.len() - i,
    {
        if a[i] != b[i] {
            return false;
        }
        i += 1;
    }
    assert(a@ =~= b@);
    true
}

/// Where a queue holds a token first.
fn position(queue: &VecDeque<Vec<u8>>, token: &[u8]) -> (pos: Option<usize>)
    ensures
        match pos {
            Some(p) => {
                &&& p < queue@.len()
                &&& token_seq(queue@)[p as int] == token@
                &&& forall|k: int| 0 <= k < p ==> token_seq(queue@)[k] != token@
            },
            None => !token_seq(queue@).contains(token@),
        },
{
    let mut i: usize = 0;
    while i < queue.len()
        invariant
            i <= queue@.len(),
            forall|k: int| 0 <= k < i ==> token_seq(queue@)[k] != token@,
        decreases queue@.len() - i,
    {
        if same_bytes(queue[i].as_slice(), token) {
            return Some(i);
        }
        i += 1;
    }
    None
}

impl AddressValidationTokens {
    /// No token is listed twice as being in flight.
    pub closed spec fn in_flight_once(&self) -> bool {
        token_seq(self.in_flight@).no_duplicates()
    }

    /// What every operation establishes and keeps.
    pub open spec fn wf(&self) -> bool {
        self.in_flight_once() && self@.valid()
    }

    /// A manager that knows no token.
    pub fn new() -> (tokens: Self)
        ensures
            tokens.wf(),
            tokens@ == (TokensView {
                pending: Seq::empty(),
                retransmits: Seq::empty(),
                in_flight: Set::empty(),
            }),
    {
        let tokens = Self {
            pending: VecDeque::new(),
            retransmits: VecDeque::new(),
            in_flight: Vec::new(),
        };
        assert(token_seq(tokens.pending@) =~= Seq::empty());
        assert(token_seq(tokens.in_flight@) =~= Seq::empty());
        assert(token_seq(tokens.in_flight@).to_set() =~= Set::empty());
        tokens
    }

    /// Where a token stands among those in flight.
    fn in_flight_position(&self, token: &[u8]) -> (pos: Option<usize>)
        ensures
            match pos {
                Some(p) => {
                    &&& p < self.in_flight@.len()
                    &&& token_seq(self.in_flight@)[p as int] == token@
                },
                None => !token_seq(self.in_flight@).contains(token@),
            },
    {
        let mut i: usize = 0;
        while i < self.in_flight.len()
            invariant
                i <= self.in_flight@.len(),
                forall|k: int| 0 <= k < i ==> token_seq(self.in_flight@)[k] != token@,
            decreases self.in_flight@.len() - i,
        {
            if same_bytes(self.in_flight[i].as_slice(), token) {
                return Some(i);
            }
            i += 1;
        }
        None
    }

    /// Queues a token to be sent. An empty token, and one that is already known,
    /// is refused with [`Error::InvalidFrame`]; one that is too long with
    /// [`Error::BufferTooShort`].
    pub fn push(&mut self, token: &[u8]) -> (result: Result<(), Error>)
        requires
            old(self).wf(),
        ensures
            final(self).wf(),
            match old(self)@.pushed(token@) {
                Ok(after) => result is Ok && final(self)@ == after,
                Err(error) => result == Err::<(), Error>(error) && final(self)@ == old(self)@,
            },
    {
        if token.is_empty() {
            return Err(Error::InvalidFrame);
        }
        if token.len() > MAX_ADDRESS_VALIDATION_TOKEN_LEN {
            return Err(Error::BufferTooShort);
        }
        if position(&self.pending, token).is_some() || position(
            &self.retransmits,
            token,
        ).is_some() || self.in_flight_position(token).is_some() {
            assert(self@.knows(token@));
            return Err(Error::InvalidFrame);
        }
        assert(!self@.knows(token@));
        let copy = vstd::slice::slice_to_vec(token);
        self.pending.push_back(copy);
        proof {
            assert(token_seq(self.pending@) =~= old(self)@.pending.push(token@));
            assert(self@ =~= old(self)@.pushed(token@)->Ok_0);
            lemma_pushed_valid(old(self)@, token@);
        }
        Ok(())
    }

    /// Takes a token off the list of those in flight, and says whether it was there.
    fn remove_in_flight(&mut self, token: &[u8]) -> (removed: bool)
        requires
            old(self).in_flight_once(),
        ensures
            removed == old(self)@.in_flight.contains(token@),
            final(self)@ == (TokensView {
                in_flight: old(self)@.in_flight.remove(token@),
                ..old(self)@
            }),
            final(self).in_flight_once(),
            final(self).pending == old(self).pending,
            final(self).retransmits == old(self).retransmits,
    {
        let ghost before = token_seq(self.in_flight@);
        match self.in_flight_position(token) {
            Some(pos) => {
                let _ = self.in_flight.remove(pos);
                proof {
                    lemma_remove_at(before, pos as int);
                    assert(token_seq(self.in_flight@) =~= before.remove(pos as int));
                    assert(before.contains(token@));
                    assert(self@.in_flight =~= old(self)@.in_flight.remove(token@));
                }
                true
            },
            None => {
                assert(self@.in_flight =~= old(self)@.in_flight.remove(token@));
                false
            },
        }
    }

    /// The packet that carried the token has been acknowledged.
    pub fn on_packet_acked(&mut self, token: &[u8])
        requires
            old(self).wf(),
        ensures
            final(self).wf(),
            final(self)@ == old(self)@.acked(token@),
    {
        let _ = self.remove_in_flight(token);
        if let Some(pos) = position(&self.retransmits, token) {
            let ghost before = token_seq(self.retransmits@);
            let _ = self.retransmits.remove(pos);
            proof {
                before.index_of_first_ensures(token@);
                assert(before.contains(token@));
                assert(token_seq(self.retransmits@) =~= before.remove(pos as int));
            }
        } else {
            proof {
                token_seq(self.retransmits@).index_of_first_ensures(token@);
            }
        }
        proof {
            assert(self@ =~= old(self)@.acked(token@));
            lemma_acked_valid(old(self)@, token@);
        }
    }

    /// The packet that carried the token has been lost.
    pub fn on_packet_lost(&mut self, token: Vec<u8>)
        requires
            old(self).wf(),
        ensures
            final(self).wf(),
            final(self)@ == old(self)@.lost(token@),
    {
        proof {
            lemma_lost_valid(old(self)@, token@);
        }
        if !self.remove_in_flight(token.as_slice()) {
            assert(self@ =~= old(self)@);
            return;
        }
        if position(&self.retransmits, token.as_slice()).is_none() {
            self.retransmits.push_back(token);
            assert(token_seq(self.retransmits@) =~= old(self)@.retransmits.push(token@));
        }
        assert(self@ =~= old(self)@.lost(token@));
    }

    /// The token to send next, if there is one.
    pub fn next(&self) -> (token: Option<&[u8]>)
        ensures
            match self@.next() {
                Some(expected) => token is Some && token->0@ == expected,
                None => token is None,
            },
    {
        if self.retransmits.len() > 0 {
            Some(self.retransmits[0].as_slice())
        } else if self.pending.len() > 0 {
            Some(self.pending[0].as_slice())
        } else {
            None
        }
    }

    /// The token that [`AddressValidationTokens::next`] gives has been sent.
    pub fn on_packet_sent(&mut self)
        requires
            old(self).wf(),
        ensures
            final(self).wf(),
            final(self)@ == old(self)@.sent(),
    {
        proof {
            lemma_sent_valid(old(self)@);
        }
        if let Some(token) = self.pop_next() {
            let ghost before = token_seq(self.in_flight@);
            let ghost taken = token@;
            self.in_flight.push(token);
            proof {
                assert(old(self)@.retransmits.contains(taken) || old(self)@.pending.contains(
                    taken,
                ));
                assert(!old(self)@.in_flight.contains(taken));
                assert(token_seq(self.in_flight@) =~= before.push(taken));
                assert(!before.contains(taken));
                lemma_push_new(before, taken);
                assert(self@.in_flight =~= old(self)@.in_flight.insert(taken));
                assert(self@ =~= old(self)@.sent());
            }
        } else {
            assert(self@ =~= old(self)@);
        }
    }

    /// Takes the next token off its queue.
    fn pop_next(&mut self) -> (token: Option<Vec<u8>>)
        ensures
            final(self)@ == old(self)@.without_next(),
            match old(self)@.next() {
                Some(expected) => token is Some && token->0@ == expected,
                None => token is None,
            },
            final(self).in_flight == old(self).in_flight,
    {
        match self.retransmits.pop_front() {
            Some(token) => {
                assert(token_seq(self.retransmits@) =~= old(self)@.retransmits.drop_first());
                assert(self@ =~= old(self)@.without_next());
                Some(token)
            },
            None => {
                let token = self.pending.pop_front();
                assert(token is Some ==> token_seq(self.pending@)
                    =~= old(self)@.pending.drop_first());
                assert(self@ =~= old(self)@.without_next());
                token
            },
        }
    }

    /// Whether a token waits to be sent.
    pub fn has_pending(&self) -> (pending: bool)
        ensures
            pending == (self@.next() is Some),
    {
        self.retransmits.len() > 0 || self.pending.len() > 0
    }
}

/// Law: a token is accepted exactly if it is neither empty nor longer than the limit, and
/// neither waits to be sent nor is in flight; it then is the last of those that were never
/// sent, and nothing else changes.
pub proof fn law_new_tokens_are_queued(v: TokensView, token: Seq<u8>)
    ensures
        v.pushed(token) is Ok <==> {
            &&& 0 < token.len() <= 1024
            &&& !v.pending.contains(token)
            &&& !v.retransmits.contains(token)
            &&& !v.in_flight.contains(token)
        },
        v.pushed(token) matches Ok(after) ==> {
            &&& after.pending == v.pending + seq![token]
            &&& after.retransmits == v.retransmits
            &&& after.in_flight == v.in_flight
        },
        v.pushed(token) == Err::<TokensView, Error>(Error::BufferTooShort) <==> token.len() > 1024,
{
    assert(v.pending.push(token) =~= v.pending + seq![token]);
}

/// Law: an acknowledged token is neither in flight nor waits to be sent again; the other
/// tokens stay where they are, in their order.
pub proof fn law_acknowledged_tokens_are_dropped(
    v: TokensView,
    token: Seq<u8>,
    before: Seq<Seq<u8>>,
    after: Seq<Seq<u8>>,
)
    requires
        !before.contains(token),
    ensures
        v.acked(token).pending == v.pending,
        v.acked(token).in_flight == v.in_flight.remove(token),
        v.retransmits == before + seq![token] + after ==> v.acked(token).retransmits == before
            + after,
        !v.retransmits.contains(token) ==> v.acked(token).retransmits == v.retransmits,
{
    let queue = v.retransmits;
    queue.index_of_first_ensures(token);
    if queue == before + seq![token] + after {
        let n = before.len() as int;
        assert(queue[n] == token);
        let i = queue.index_of_first(token)->0;
        assert(i <= n);
        if i < n {
            assert(queue[i] == before[i]);
        }
        assert(queue.remove(n) =~= before + after);
    }
}

/// Law: a token that was sent and lost waits behind those that were lost before, and is no
/// longer in flight; a loss of any other token changes nothing.
pub proof fn law_lost_tokens_wait_again(v: TokensView, token: Seq<u8>)
    ensures
        v.in_flight.contains(token) ==> {
            &&& v.lost(token).retransmits == v.retransmits + seq![token]
            &&& v.lost(token).in_flight == v.in_flight.remove(token)
            &&& v.lost(token).pending == v.pending
        },
        !v.in_flight.contains(token) ==> v.lost(token) == v,
{
    assert(v.retransmits.push(token) =~= v.retransmits + seq![token]);
}

/// Law: the next token is the first of those that were lost, or else the first of those
/// that were never sent; to send it takes it from there, and nothing is sent where none
/// waits.
pub proof fn law_the_first_token_is_sent(v: TokensView, token: Seq<u8>, rest: Seq<Seq<u8>>)
    ensures
        v.retransmits == seq![token] + rest ==> v.next() == Some(token) && v.sent()
            == (TokensView {
            retransmits: rest,
            in_flight: v.in_flight.insert(token),
            pending: v.pending,
        }),
        v.retransmits.len() == 0 && v.pending == seq![token] + rest ==> v.next() == Some(token)
            && v.sent() == (TokensView {
            retransmits: v.retransmits,
            in_flight: v.in_flight.insert(token),
            pending: rest,
        }),
        v.retransmits.len() == 0 && v.pending.len() == 0 ==> v.next() is None && v.sent() == v,
{
    assert((seq![token] + rest).drop_first() =~= rest);
    assert((seq![token] + rest)[0] == token);
}

} // verus!
