//! The peer session: the decisions of one download connection, as a state
//! machine from received messages to actions. The caller performs the
//! actions (sending, writing to the file) and feeds back what it receives.
use vstd::prelude::*;
use crate::messages::{BTMessage, Handshake, HandshakeError, Message};
use crate::planner::{
    blocks, count_pieces, piece_count, piece_size, plan, PlanError, BLOCK_SIZE,
};

verus! {

#[derive(Debug, Clone, Copy, PartialEq, Eq, Structural)]
pub enum SessionState {
    Connecting,
    HandshakeExchanged,
    AwaitingBitfieldOrChoke,
    Draining,
    Completed,
    Failed,
}

/// Why a session failed.
#[derive(Debug, Clone, Copy, PartialEq, Eq, Structural)]
pub enum SessionError {
    /// The peer's handshake reply was shorter than 68 bytes.
    HandshakeIncomplete,
}

/// What the caller must do next.
#[derive(Debug, PartialEq, Eq)]
pub enum Action {
    /// Send this message to the peer.
    Send(BTMessage),
    /// Write these bytes to the file at this offset.
    Write(u64, Vec<u8>),
}

/// The mathematical form of an `Action`.
pub enum Effect {
    Send(Message),
    Write(int, Seq<u8>),
}

impl View for Action {
    type V = Effect;

    open spec fn view(&self) -> Effect {
        match self {
            Action::Send(m) => Effect::Send(m@),
            Action::Write(o, d) => Effect::Write(*o as int, d@),
        }
    }
}

pub open spec fn effects(a: Seq<Action>) -> Seq<Effect> {
    Seq::new(a.len(), |i: int| a[i]@)
}

/// The requests `(piece, begin, length)` for one piece, block by block.
pub open spec fn piece_requests(total_length: int, piece_length: int, p: u32) -> Seq<(u32, u32, u32)> {
    let b = blocks(piece_size(total_length, piece_length, p as int), BLOCK_SIZE as int);
    Seq::new(b.len(), |k: int| (p, b[k].0, b[k].1))
}

/// The requests for all the pieces, piece by piece and block by block.
pub open spec fn all_requests(total_length: int, piece_length: int, pieces: Seq<u32>) -> Seq<
    (u32, u32, u32),
>
    decreases pieces.len(),
{
    if pieces.len() == 0 {
        Seq::empty()
    } else {
        all_requests(total_length, piece_length, pieces.drop_last()) + piece_requests(
            total_length,
            piece_length,
            pieces.last(),
        )
    }
}

/// One `Request` sent for each request.
pub open spec fn sends(reqs: Seq<(u32, u32, u32)>) -> Seq<Effect> {
    Seq::new(reqs.len(), |i: int| Effect::Send(Message::Request(reqs[i].0, reqs[i].1, reqs[i].2)))
}

/// What a session in state `st`, with `out` requests unanswered, does on a
/// message: its next state, its next count, and its effects. `reqs` are the
/// requests it issues when unchoked; `piece_length` places received blocks.
pub open spec fn step(
    st: SessionState,
    out: int,
    reqs: Seq<(u32, u32, u32)>,
    piece_length: int,
    m: Message,
) -> (SessionState, int, Seq<Effect>) {
    if st == SessionState::Completed || st == SessionState::Failed {
        (st, out, Seq::empty())
    } else {
        match m {
            Message::Bitfield(_) => (
                if st == SessionState::Connecting || st == SessionState::HandshakeExchanged {
                    SessionState::AwaitingBitfieldOrChoke
                } else {
                    st
                },
                out,
                seq![Effect::Send(Message::Interested)],
            ),
            Message::Unchoke => if st == SessionState::Draining {
                (st, out, Seq::empty())
            } else {
                (
                    if reqs.len() == 0 {
                        SessionState::Completed
                    } else {
                        SessionState::Draining
                    },
                    reqs.len() as int,
                    sends(reqs),
                )
            },
            Message::Piece(i, b, d) => {
                let e = seq![Effect::Write(i * piece_length + b, d)];
                if st == SessionState::Draining && out > 0 {
                    (
                        if out == 1 {
                            SessionState::Completed
                        } else {
                            SessionState::Draining
                        },
                        out - 1,
                        e,
                    )
                } else {
                    (st, out, e)
                }
            },
            _ => (st, out, Seq::empty()),
        }
    }
}

/// State and count after a run of messages.
pub open spec fn run(
    st: SessionState,
    out: int,
    reqs: Seq<(u32, u32, u32)>,
    piece_length: int,
    ms: Seq<Message>,
) -> (SessionState, int)
    decreases ms.len(),
{
    if ms.len() == 0 {
        (st, out)
    } else {
        let (s2, o2, _) = step(st, out, reqs, piece_length, ms[0]);
        run(s2, o2, reqs, piece_length, ms.drop_first())
    }
}

/// One download connection: the pieces it fetches and how far it got.
pub struct PeerSession {
    pub state: SessionState,
    pub total_length: u64,
    pub piece_length: u32,
    /// The pieces to request, in the order they are requested.
    pub pieces: Vec<u32>,
    /// Requests sent and not yet answered.
    pub outstanding: u64,
}

impl PeerSession {
    /// The piece length is not zero and every piece exists.
    pub open spec fn wf(&self) -> bool {
        &&& self.piece_length > 0
        &&& forall|i: int|
            0 <= i < self.pieces@.len() ==> (#[trigger] self.pieces@[i]) < piece_count(
                self.total_length as int,
                self.piece_length as int,
            )
    }

    /// The requests this session issues when unchoked.
    pub open spec fn requests(&self) -> Seq<(u32, u32, u32)> {
        all_requests(self.total_length as int, self.piece_length as int, self.pieces@)
    }

    /// A session that fetches `pieces` of a transfer of `total_length` bytes
    /// cut into pieces of `piece_length` bytes.
    pub fn new(total_length: u64, piece_length: u32, pieces: Vec<u32>) -> (r: Result<
        PeerSession,
        PlanError,
    >)
        ensures
            piece_length == 0 ==> r == Err::<PeerSession, PlanError>(PlanError::InvalidGeometry),
            piece_length > 0 && (exists|i: int|
                0 <= i < pieces@.len() && pieces@[i] >= piece_count(
                    total_length as int,
                    piece_length as int,
                )) ==> r == Err::<PeerSession, PlanError>(PlanError::NoSuchPiece),
            r matches Ok(s) ==> s.wf() && s.state == SessionState::Connecting && s.outstanding == 0
                && s.total_length == total_length && s.piece_length == piece_length && s.pieces@
                == pieces@,
            piece_length > 0 && (forall|i: int|
                0 <= i < pieces@.len() ==> pieces@[i] < piece_count(
                    total_length as int,
                    piece_length as int,
                )) ==> r is Ok,
    {
        let count = count_pieces(total_length, piece_length)?;
        let mut i: usize = 0;
        while i < pieces.len()
            invariant
                i <= pieces@.len(),
                piece_length > 0,
                count == piece_count(total_length as int, piece_length as int),
                forall|j: int| 0 <= j < i ==> pieces@[j] < count,
            decreases pieces@.len() - i,
        {
            if pieces[i] as u64 >= count {
                return Err(PlanError::NoSuchPiece);
            }
            i = i + 1;
        }
        Ok(
            PeerSession {
                state: SessionState::Connecting,
                total_length,
                piece_length,
                pieces,
                outstanding: 0,
            },
        )
    }

    /// Whether the session is over: completed or failed.
    pub fn is_finished(&self) -> (r: bool)
        ensures
            r == (self.state == SessionState::Completed || self.state == SessionState::Failed),
    {
        self.state == SessionState::Completed || self.state == SessionState::Failed
    }

    /// Takes the peer's handshake reply: at least 68 bytes move the session
    /// on, fewer fail it.
    pub fn on_handshake(&mut self, reply: &[u8]) -> (r: Result<Handshake, SessionError>)
        ensures
            final(self).total_length == old(self).total_length,
            final(self).piece_length == old(self).piece_length,
            final(self).pieces == old(self).pieces,
            final(self).outstanding == old(self).outstanding,
            reply@.len() < 68 ==> r == Err::<Handshake, SessionError>(
                SessionError::HandshakeIncomplete,
            ) && final(self).state == SessionState::Failed,
            reply@.len() >= 68 ==> (r matches Ok(h) && h.info_hash@ == reply@.subrange(28, 48)
                && h.peer_id@ == reply@.subrange(48, 68)) && final(self).state
                == SessionState::HandshakeExchanged,
    {
        match Handshake::deserialize(reply) {
            Ok(h) => {
                self.state = SessionState::HandshakeExchanged;
                Ok(h)
            },
            Err(HandshakeError::ShortHandshake) => {
                self.state = SessionState::Failed;
                Err(SessionError::HandshakeIncomplete)
            },
        }
    }

    /// A frame could not be read: the connection cannot go on.
    pub fn on_frame_error(&mut self)
        ensures
            final(self).state == SessionState::Failed,
            final(self).total_length == old(self).total_length,
            final(self).piece_length == old(self).piece_length,
            final(self).pieces == old(self).pieces,
            final(self).outstanding == old(self).outstanding,
    {
        self.state = SessionState::Failed;
    }

    fn request_all(&self) -> (r: Vec<Action>)
        requires
            self.wf(),
        ensures
            effects(r@) == sends(self.requests()),
    {
        let mut out: Vec<Action> = Vec::new();
        let mut i: usize = 0;
        proof {
            assert(self.pieces@.take(0) =~= Seq::<u32>::empty());
            assert(effects(out@) =~= sends(Seq::empty()));
        }
        while i < self.pieces.len()
            invariant
                self.wf(),
                i <= self.pieces@.len(),
                effects(out@) == sends(
                    all_requests(
                        self.total_length as int,
                        self.piece_length as int,
                        self.pieces@.take(i as int),
                    ),
                ),
            decreases self.pieces@.len() - i,
        {
            let p = self.pieces[i];
            let bl = match plan(self.total_length, self.piece_length, BLOCK_SIZE, p) {
                Ok(b) => b,
                Err(_) => {
                    // every piece of a well-formed session exists, so the plan
                    // cannot fail
                    proof {
                        assert(self.pieces@[i as int] == p);
                    }
                    return out;
                },
            };
            let ghost before = all_requests(
                self.total_length as int,
                self.piece_length as int,
                self.pieces@.take(i as int),
            );
            let ghost pr = piece_requests(self.total_length as int, self.piece_length as int, p);
            proof {
                assert(self.pieces@[i as int] == p);
                assert(self.pieces@.take(i + 1).drop_last() =~= self.pieces@.take(i as int));
            }
            let ghost start = out@;
            let mut k: usize = 0;
            while k < bl.len()
                invariant
                    k <= bl@.len() == pr.len(),
                    pr == piece_requests(self.total_length as int, self.piece_length as int, p),
                    bl@ == blocks(
                        piece_size(self.total_length as int, self.piece_length as int, p as int),
                        BLOCK_SIZE as int,
                    ),
                    effects(start) == sends(before),
                    effects(out@) == sends(before + pr.take(k as int)),
                decreases bl@.len() - k,
            {
                let (begin, length) = bl[k];
                let ghost prev = out@;
                out.push(Action::Send(BTMessage::Request(p, begin, length)));
                proof {
                    let x = before + pr.take(k as int);
                    let e = Effect::Send(Message::Request(p, begin, length));
                    assert(effects(out@) =~= effects(prev).push(e));
                    assert(sends(x.push((p, begin, length))) =~= sends(x).push(e));
                    assert(pr[k as int] == (p, begin, length));
                    assert(before + pr.take(k + 1) =~= (before + pr.take(k as int)).push(
                        (p, begin, length),
                    ));
                    assert(effects(out@) =~= sends(before + pr.take(k + 1)));
                }
                k = k + 1;
            }
            proof {
                assert(pr.take(k as int) =~= pr);
            }
            i = i + 1;
        }
        proof {
            assert(self.pieces@.take(i as int) =~= self.pieces@);
        }
        out
    }

    /// Handles one message from the peer and says what to do about it.
    pub fn dispatch(&mut self, msg: BTMessage) -> (r: Vec<Action>)
        requires
            old(self).wf(),
        ensures
            final(self).wf(),
            final(self).total_length == old(self).total_length,
            final(self).piece_length == old(self).piece_length,
            final(self).pieces == old(self).pieces,
            (final(self).state, final(self).outstanding as int, effects(r@)) == step(
                old(self).state,
                old(self).outstanding as int,
                old(self).requests(),
                old(self).piece_length as int,
                msg@,
            ),
    {
        let ghost m = msg@;
        if self.state == SessionState::Completed || self.state == SessionState::Failed {
            let r: Vec<Action> = Vec::new();
            proof {
                assert(effects(r@) =~= Seq::<Effect>::empty());
            }
            return r;
        }
        let mut r: Vec<Action> = Vec::new();
        match msg {
            BTMessage::Bitfield(_) => {
                if self.state == SessionState::Connecting || self.state
                    == SessionState::HandshakeExchanged {
                    self.state = SessionState::AwaitingBitfieldOrChoke;
                }
                r.push(Action::Send(BTMessage::Interested));
            },
            BTMessage::Unchoke => {
                if self.state != SessionState::Draining {
                    r = self.request_all();
                    proof {
                        assert(effects(r@).len() == sends(self.requests()).len());
                    }
                    self.outstanding = r.len() as u64;
                    self.state = if r.len() == 0 {
                        SessionState::Completed
                    } else {
                        SessionState::Draining
                    };
                }
            },
            BTMessage::Piece(i, b, data) => {
                proof {
                    assert(i as u64 * self.piece_length as u64 <= 4294967295u64 * 4294967295u64)
                        by (nonlinear_arith)
                        requires
                            i <= 4294967295u32,
                            self.piece_length <= 4294967295u32,
                    ;
                }
                let offset = i as u64 * self.piece_length as u64 + b as u64;
                r.push(Action::Write(offset, data));
                if self.state == SessionState::Draining && self.outstanding > 0 {
                    self.outstanding = self.outstanding - 1;
                    if self.outstanding == 0 {
                        self.state = SessionState::Completed;
                    }
                }
            },
            _ => {},
        }
        proof {
            assert(effects(r@) =~= step(
                old(self).state,
                old(self).outstanding as int,
                old(self).requests(),
                old(self).piece_length as int,
                m,
            ).2);
        }
        r
    }
}

/// A completed session stays completed, with its count unchanged, whatever
/// messages follow.
pub proof fn lemma_completed_stays(
    out: int,
    reqs: Seq<(u32, u32, u32)>,
    piece_length: int,
    ms: Seq<Message>,
)
    ensures
        run(SessionState::Completed, out, reqs, piece_length, ms) == (SessionState::Completed, out),
    decreases ms.len(),
{
    if ms.len() > 0 {
        lemma_completed_stays(out, reqs, piece_length, ms.drop_first());
    }
}

proof fn lemma_drain(
    n: int,
    reqs: Seq<(u32, u32, u32)>,
    piece_length: int,
    ms: Seq<Message>,
    rest: Seq<Message>,
)
    requires
        n == ms.len() > 0,
        forall|i: int| 0 <= i < ms.len() ==> (#[trigger] ms[i]) is Piece,
    ensures
        run(SessionState::Draining, n, reqs, piece_length, ms + rest).0 == SessionState::Completed,
    decreases ms.len(),
{
    let all = ms + rest;
    assert(all[0] == ms[0]);
    assert(all.drop_first() =~= ms.drop_first() + rest);
    if n == 1 {
        assert(ms.drop_first() + rest =~= rest);
        lemma_completed_stays(0, reqs, piece_length, rest);
    } else {
        let t = ms.drop_first();
        assert forall|i: int| 0 <= i < t.len() implies (#[trigger] t[i]) is Piece by {
            assert(t[i] == ms[i + 1]);
        }
        lemma_drain(n - 1, reqs, piece_length, t, rest);
    }
}

/// Once unchoked, a session that has not yet started draining issues all
/// its requests; after as many `Piece` messages as there were requests, in
/// any order and with any index and offset, it is completed, and nothing
/// that arrives afterwards changes that.
pub proof fn lemma_session_completes(
    st: SessionState,
    out: int,
    reqs: Seq<(u32, u32, u32)>,
    piece_length: int,
    pieces: Seq<Message>,
    rest: Seq<Message>,
)
    requires
        st != SessionState::Completed,
        st != SessionState::Failed,
        st != SessionState::Draining,
        reqs.len() > 0,
        pieces.len() == reqs.len(),
        forall|i: int| 0 <= i < pieces.len() ==> (#[trigger] pieces[i]) is Piece,
    ensures
        step(st, out, reqs, piece_length, Message::Unchoke) == (
            SessionState::Draining,
            reqs.len() as int,
            sends(reqs),
        ),
        run(st, out, reqs, piece_length, seq![Message::Unchoke] + pieces + rest).0
            == SessionState::Completed,
{
    let all = seq![Message::Unchoke] + pieces + rest;
    assert(all[0] == Message::Unchoke);
    assert(all.drop_first() =~= pieces + rest);
    lemma_drain(reqs.len() as int, reqs, piece_length, pieces, rest);
}

} // verus!
