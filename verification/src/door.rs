//! What the door does with each caller: whom an admission lets in under which
//! id, what a loss leaves behind, what is heard of whom and in which order,
//! and what a dialing end makes of what it is told.

use vstd::prelude::*;

use crate::dial::{answer, answers, mismatch_text, DialView};
use crate::frame::{ack_bytes, frame_bytes, inputs_of, FrameView};
use crate::link::{
    client_turn, heard_all, heard_one, reasons_for, served, told_all, told_one, turn, turns, HeardView,
};
use crate::schedule::filter_takes;
use crate::schema::{diff_text, schema_rows};
use crate::session::{
    admitted, admitted_all, admitted_at, datagram_at, drained_at, empty_sessions, frame_at,
    event_rows, frames_at, input_rows, live_holder, lost_at, new_conn, other_token, overdue,
    parked_peer, password_fits, place, within_grace, Close, ConnView, EventRow, InputRow, Parked,
    PeerEvent, PeerInput, Reason, SessionsView, Token,
};
use crate::text::utf8;
use crate::wire::{le32, le32_round_trip, un32};

verus! {

/// A handle leads to the first connection that has it, and nowhere only where
/// none has.
pub proof fn a_handle_leads_to_its_connection(conns: Seq<ConnView>, handle: usize)
    ensures
        place(conns, handle) matches Some(i) ==> {
            &&& 0 <= i < conns.len()
            &&& conns[i].handle == handle
            &&& forall|j: int| 0 <= j < i ==> (#[trigger] conns[j]).handle != handle
        },
        place(conns, handle) is None ==> forall|j: int|
            0 <= j < conns.len() ==> (#[trigger] conns[j]).handle != handle,
    decreases conns.len(),
{
    if conns.len() > 0 && conns[0].handle != handle {
        let rest = conns.drop_first();
        a_handle_leads_to_its_connection(rest, handle);
        assert forall|j: int| 1 <= j < conns.len() implies (#[trigger] conns[j]).handle == rest[j
            - 1].handle by {}
    }
}

/// Another connection in play with the token.
pub open spec fn plays_with(conns: Seq<ConnView>, i: int, token: Token, j: int) -> bool {
    0 <= j < conns.len() && j != i && conns[j].authed && !conns[j].gone && conns[j].token == token
}

/// The first connection in play with a token holds it; there is a holder
/// wherever one is in play.
pub proof fn the_first_in_play_holds_the_token(
    conns: Seq<ConnView>,
    i: int,
    token: Token,
    from: int,
)
    requires
        0 <= from,
    ensures
        live_holder(conns, i, token, from) matches Some(j) ==> from <= j && plays_with(
            conns,
            i,
            token,
            j,
        ) && forall|k: int| from <= k < j ==> !#[trigger] plays_with(conns, i, token, k),
        live_holder(conns, i, token, from) is None ==> forall|k: int|
            from <= k ==> !#[trigger] plays_with(conns, i, token, k),
    decreases conns.len() - from,
{
    if from < conns.len() && !plays_with(conns, i, token, from) {
        the_first_in_play_holds_the_token(conns, i, token, from + 1);
    }
}

/// A token's parked id is the first parked under it; there is one wherever
/// one is parked.
pub proof fn a_token_finds_its_parked_id(parked: Seq<Parked>, token: Token)
    ensures
        parked_peer(parked, token) matches Some(p) ==> exists|k: int|
            0 <= k < parked.len() && (#[trigger] parked[k]).token == token && parked[k].peer == p
                && forall|j: int| 0 <= j < k ==> (#[trigger] parked[j]).token != token,
        parked_peer(parked, token) is None ==> forall|k: int|
            0 <= k < parked.len() ==> (#[trigger] parked[k]).token != token,
    decreases parked.len(),
{
    if parked.len() > 0 {
        if parked[0].token == token {
            assert(parked[0].peer == parked_peer(parked, token)->0);
        } else {
            let rest = parked.drop_first();
            a_token_finds_its_parked_id(rest, token);
            if let Some(p) = parked_peer(parked, token) {
                let k = choose|k: int|
                    0 <= k < rest.len() && (#[trigger] rest[k]).token == token && rest[k].peer == p
                        && forall|j: int| 0 <= j < k ==> (#[trigger] rest[j]).token != token;
                assert(parked[k + 1].token == token);
                assert forall|j: int| 0 <= j < k + 1 implies (#[trigger] parked[j]).token
                    != token by {
                    if j > 0 {
                        assert(rest[j - 1].token != token);
                    }
                }
            } else {
                assert forall|k: int| 0 <= k < parked.len() implies (#[trigger] parked[k]).token
                    != token by {
                    if k > 0 {
                        assert(rest[k - 1].token != token);
                    }
                }
            }
        }
    }
}

/// The caller at `i` was let in under an id: it is told so behind what it was
/// told before, its id leads to it, it joined, and nothing else of it moved.
pub open spec fn let_in(d: SessionsView, out: SessionsView, i: int, peer: u8) -> bool {
    let c = d.conns[i];
    &&& out.conns.len() == d.conns.len()
    &&& out.conns[i] == (ConnView {
        peer,
        authed: true,
        stream_out: c.stream_out + frame_bytes(FrameView { ty: 2, payload: seq![peer] }),
        ..c
    })
    &&& out.routes[peer as int] == Some(c.handle)
    &&& out.joined == d.joined.push(peer)
}

/// Who is let in under which id. A token in play takes its id over, and the
/// connection that had it is put out and told to close; a token parked within
/// the grace gets its id back and is parked no longer; any other caller gets
/// the next id never given, or is turned away once none is left. Callers in
/// between keep everything, nobody leaves, and only those parked within the
/// grace stay parked.
pub proof fn who_is_let_in(d: SessionsView, i: int, now: u64)
    requires
        d.routes.len() == 256,
        0 <= i < d.conns.len(),
    ensures
        ({
            let token = d.conns[i].token;
            let known = token != (Token { lo: 0, hi: 0 });
            let (out, close) = admitted_at(d, i, now);
            let fresh = d.parked.filter(within_grace(now, d.grace));
            &&& forall|j: int| known && plays_with(d.conns, i, token, j) && (forall|k: int|
                0 <= k < j ==> !#[trigger] plays_with(d.conns, i, token, k))
                ==> #[trigger] let_in(d, out, i, d.conns[j].peer) && out.conns[j] == (ConnView {
                authed: false,
                ..d.conns[j]
            }) && close == Some(Close { handle: d.conns[j].handle, reason: Reason::Superseded })
                && out.parked == fresh && out.next_peer == d.next_peer
            &&& (!known || forall|j: int| !#[trigger] plays_with(d.conns, i, token, j)) ==> {
                &&& forall|j: int|
                    0 <= j < d.conns.len() && j != i ==> #[trigger] out.conns[j] == d.conns[j]
                &&& forall|k: int|
                    known && 0 <= k < fresh.len() && (#[trigger] fresh[k]).token == token && (
                    forall|j: int| 0 <= j < k ==> (#[trigger] fresh[j]).token != token) ==> let_in(
                        d,
                        out,
                        i,
                        fresh[k].peer,
                    ) && close is None && out.parked == fresh.filter(other_token(token))
                        && out.next_peer == d.next_peer
                &&& (!known || forall|k: int|
                    0 <= k < fresh.len() ==> (#[trigger] fresh[k]).token != token) ==> {
                    &&& d.next_peer < 255 ==> let_in(d, out, i, d.next_peer) && close is None
                        && out.next_peer == d.next_peer + 1 && out.parked == fresh
                    &&& d.next_peer == 255 ==> out == (SessionsView { parked: fresh, ..d })
                        && close == Some(
                        Close { handle: d.conns[i].handle, reason: Reason::ServerFull },
                    )
                }
            }
            &&& out.left == d.left
            &&& out.acks == d.acks
            &&& out.inputs == d.inputs
            &&& out.events == d.events
            &&& out.pending == d.pending
        }),
{
    let token = d.conns[i].token;
    let known = token != (Token { lo: 0, hi: 0 });
    let (out, close) = admitted_at(d, i, now);
    let fresh = d.parked.filter(within_grace(now, d.grace));
    the_first_in_play_holds_the_token(d.conns, i, token, 0);
    a_token_finds_its_parked_id(fresh, token);
    assert forall|j: int| known && plays_with(d.conns, i, token, j) && (forall|k: int|
        0 <= k < j ==> !#[trigger] plays_with(d.conns, i, token, k)) implies #[trigger] let_in(
        d,
        out,
        i,
        d.conns[j].peer,
    ) && out.conns[j] == (ConnView { authed: false, ..d.conns[j] }) && close == Some(
        Close { handle: d.conns[j].handle, reason: Reason::Superseded },
    ) && out.parked == fresh && out.next_peer == d.next_peer by {
        let h = live_holder(d.conns, i, token, 0)->0;
        assert(live_holder(d.conns, i, token, 0) is Some);
        if h < j {
            assert(!plays_with(d.conns, i, token, h));
        }
        if j < h {
            assert(!plays_with(d.conns, i, token, j));
        }
        assert(h == j);
    }
    if !known || forall|j: int| !#[trigger] plays_with(d.conns, i, token, j) {
        assert(known ==> live_holder(d.conns, i, token, 0) is None);
        assert forall|k: int|
            known && 0 <= k < fresh.len() && (#[trigger] fresh[k]).token == token && (forall|j: int|
                0 <= j < k ==> (#[trigger] fresh[j]).token != token) implies let_in(
            d,
            out,
            i,
            fresh[k].peer,
        ) && close is None && out.parked == fresh.filter(other_token(token)) && out.next_peer
            == d.next_peer by {
            assert(parked_peer(fresh, token) is Some);
            let p = parked_peer(fresh, token)->0;
            let m = choose|m: int|
                0 <= m < fresh.len() && (#[trigger] fresh[m]).token == token && fresh[m].peer == p
                    && forall|j: int| 0 <= j < m ==> (#[trigger] fresh[j]).token != token;
            if m < k {
                assert(fresh[m].token != token);
            }
            if k < m {
                assert(fresh[k].token != token);
            }
        }
        if !known || forall|k: int| 0 <= k < fresh.len() ==> (#[trigger] fresh[k]).token != token {
            if known && parked_peer(fresh, token) is Some {
                let p = parked_peer(fresh, token)->0;
                let m = choose|m: int|
                    0 <= m < fresh.len() && (#[trigger] fresh[m]).token == token && fresh[m].peer
                        == p && forall|j: int| 0 <= j < m ==> (#[trigger] fresh[j]).token != token;
                assert(fresh[m].token != token);
            }
        }
    }
}

/// A new server gives ids from 1, knows nobody, and keeps a parked id for
/// twenty seconds.
pub proof fn a_new_door_is_empty(schema: Seq<u8>, peer: int)
    ensures
        empty_sessions(schema).conns.len() == 0,
        empty_sessions(schema).parked.len() == 0,
        empty_sessions(schema).next_peer == 1,
        empty_sessions(schema).grace == 20_000_000_000,
        empty_sessions(schema).password is None,
        empty_sessions(schema).schema == schema,
        0 <= peer < 256 ==> empty_sessions(schema).routes[peer] is None,
{
}

/// Ids stay parked exactly while the grace since their loss runs.
pub proof fn the_grace_parks_exactly(parked: Seq<Parked>, now: u64, grace: u64) -> (at: Seq<int>)
    ensures
        parked.filter(within_grace(now, grace)).len() == at.len(),
        forall|k: int|
            0 <= k < at.len() ==> 0 <= #[trigger] at[k] < parked.len() && parked.filter(
                within_grace(now, grace),
            )[k] == parked[at[k]],
        forall|j: int, k: int| 0 <= j < k < at.len() ==> (#[trigger] at[j]) < (#[trigger] at[k]),
        forall|i: int|
            0 <= i < parked.len() ==> (#[trigger] at.contains(i) <==> now - parked[i].at <= grace),
{
    let at = filter_takes(parked, within_grace(now, grace));
    assert forall|i: int| 0 <= i < parked.len() implies (#[trigger] at.contains(i) <==> now
        - parked[i].at <= grace) by {
        assert(at.contains(i) <==> within_grace(now, grace)(parked[i]));
    }
    at
}

/// Unparking a token drops exactly its own.
pub proof fn unparking_drops_exactly_the_token(parked: Seq<Parked>, token: Token) -> (at: Seq<int>)
    ensures
        parked.filter(other_token(token)).len() == at.len(),
        forall|k: int|
            0 <= k < at.len() ==> 0 <= #[trigger] at[k] < parked.len() && parked.filter(
                other_token(token),
            )[k] == parked[at[k]],
        forall|j: int, k: int| 0 <= j < k < at.len() ==> (#[trigger] at[j]) < (#[trigger] at[k]),
        forall|i: int|
            0 <= i < parked.len() ==> (#[trigger] at.contains(i) <==> parked[i].token != token),
{
    let at = filter_takes(parked, other_token(token));
    assert forall|i: int| 0 <= i < parked.len() implies (#[trigger] at.contains(i)
        <==> parked[i].token != token) by {
        assert(at.contains(i) <==> other_token(token)(parked[i]));
    }
    at
}

/// A loss: the connection is gone and moves nothing else of itself; one that
/// was let in leaves, and its id is parked last, from now on, under its token,
/// if it has one.
pub proof fn a_loss_parks_the_id(d: SessionsView, i: int, now: u64)
    requires
        0 <= i < d.conns.len(),
    ensures
        ({
            let c = d.conns[i];
            let out = lost_at(d, i, now);
            let known = c.token != (Token { lo: 0, hi: 0 });
            &&& out.conns.len() == d.conns.len()
            &&& out.conns[i] == (ConnView { gone: true, ..c })
            &&& forall|j: int|
                0 <= j < d.conns.len() && j != i ==> #[trigger] out.conns[j] == d.conns[j]
            &&& c.authed ==> out.left == d.left.push(c.peer)
            &&& !c.authed ==> out.left == d.left
            &&& c.authed && known ==> out.parked == d.parked.filter(other_token(c.token)).push(
                Parked { token: c.token, peer: c.peer, at: now },
            )
            &&& !(c.authed && known) ==> out.parked == d.parked
            &&& out.routes == d.routes
            &&& out.joined == d.joined
            &&& out.next_peer == d.next_peer
            &&& out.pending == d.pending
        }),
{
}

/// A caller is overdue more than five seconds after it was accepted, unless it
/// was let in or is gone.
pub proof fn callers_have_five_seconds(c: ConnView, now: u64)
    ensures
        overdue(c, now) <==> !c.authed && !c.gone && now - c.since > 5_000_000_000,
{
}

/// Without a password anything opens; with one exactly its bytes do.
pub proof fn exactly_the_password_fits(password: Option<Seq<char>>, given: Seq<u8>)
    ensures
        password is None ==> password_fits(password, given),
        password matches Some(p) ==> (password_fits(password, given) <==> given == utf8(p)),
{
}

/// What a datagram of a player does, by its first byte: 1 records an ack, 2
/// the inputs newer than the last, 3 the pose; anything else, and anything too
/// short, does nothing. Only the sender's own connection moves.
pub proof fn a_datagram_is_heard_by_its_kind(
    d: SessionsView,
    i: int,
    tick: u32,
    seq: u32,
    rest: Seq<u8>,
    kind: u8,
)
    requires
        0 <= i < d.conns.len(),
        d.conns[i].authed,
    ensures
        ({
            let c = d.conns[i];
            let ack = datagram_at(d, i, ack_bytes(tick, seq) + rest);
            let input = datagram_at(d, i, seq![2u8] + rest);
            let pose = datagram_at(d, i, seq![3u8] + rest);
            let got = inputs_of(rest, c.last_input);
            &&& ack == (SessionsView { acks: d.acks.push((c.peer, tick, seq)), ..d })
            &&& rest.len() < 8 ==> datagram_at(d, i, seq![1u8] + rest) == d
            &&& input.inputs.len() == d.inputs.len() + got.0.len()
            &&& forall|k: int|
                0 <= k < d.inputs.len() ==> #[trigger] input.inputs[k] == d.inputs[k]
            &&& forall|k: int|
                0 <= k < got.0.len() ==> input.inputs[d.inputs.len() + k] == (PeerInput {
                    peer: c.peer,
                    seq: (#[trigger] got.0[k]).0,
                    payload: got.0[k].1,
                })
            &&& input.conns == d.conns.update(i, ConnView { last_input: got.1, ..c })
            &&& input.acks == d.acks
            &&& input.events == d.events
            &&& rest.len() < 24 ==> pose == d
            &&& rest.len() >= 24 ==> {
                let p = pose.conns[i].pose;
                &&& p is Some
                &&& (p->0).len() == 6
                &&& forall|k: int|
                    0 <= k < 6 ==> #[trigger] (p->0)[k] == un32(rest.subrange(4 * k, 4 * k + 4))
                &&& pose == (SessionsView {
                    conns: d.conns.update(i, ConnView { pose: p, ..c }),
                    ..d
                })
            }
            &&& !(1 <= kind <= 3) ==> datagram_at(d, i, seq![kind] + rest) == d
            &&& datagram_at(d, i, Seq::empty()) == d
        }),
{
    let data = ack_bytes(tick, seq) + rest;
    le32_round_trip(tick);
    le32_round_trip(seq);
    assert(data.subrange(1, 5) =~= le32(tick));
    assert(data.subrange(5, 9) =~= le32(seq));
    let input = seq![2u8] + rest;
    assert(input.skip(1) =~= rest);
    let pose = seq![3u8] + rest;
    if rest.len() >= 24 {
        let p = datagram_at(d, i, pose).conns[i].pose;
        assert forall|k: int| 0 <= k < 6 implies #[trigger] (p->0)[k] == un32(
            rest.subrange(4 * k, 4 * k + 4),
        ) by {
            assert(pose.subrange(1 + 4 * k, 5 + 4 * k) =~= rest.subrange(4 * k, 4 * k + 4));
        }
    }
}

/// A player's frame is an event where its type is one of the user's, and is
/// recorded last under its sender; anything else of a player does nothing.
pub proof fn a_players_frame_is_an_event(d: SessionsView, i: int, f: FrameView)
    requires
        0 <= i < d.conns.len(),
        d.conns[i].authed,
    ensures
        frame_at(d, i, f).1 is None,
        f.ty >= 16 ==> frame_at(d, i, f).0 == (SessionsView {
            events: d.events.push(
                PeerEvent { peer: d.conns[i].peer, ty: f.ty, payload: f.payload },
            ),
            ..d
        }),
        f.ty < 16 ==> frame_at(d, i, f).0 == d,
{
}

/// A caller's frame is its request to be let in where it is of type 1 and
/// holds a token and the password: it waits last, under that token. One too
/// short, or with another password, is refused and changes nothing.
pub proof fn a_callers_frame_is_its_request(
    d: SessionsView,
    i: int,
    token: Token,
    given: Seq<u8>,
    short: Seq<u8>,
    ty: u16,
)
    requires
        0 <= i < d.conns.len(),
        !d.conns[i].authed,
        !d.conns[i].gone,
        short.len() < 16,
        ty != 1,
    ensures
        ({
            let c = d.conns[i];
            let asks = frame_at(d, i, FrameView { ty: 1, payload: token.written() + given });
            let right = d.password is None || given == utf8(d.password->0);
            &&& right ==> asks == (
                SessionsView {
                    pending: d.pending.push(c.handle),
                    conns: d.conns.update(i, ConnView { token, ..c }),
                    ..d
                },
                None::<Reason>,
            )
            &&& !right ==> asks == (d, Some(Reason::BadPassword))
            &&& frame_at(d, i, FrameView { ty: 1, payload: short }) == (
                d,
                Some(Reason::BadSessionFrame),
            )
            &&& frame_at(d, i, FrameView { ty, payload: given }) == (d, None::<Reason>)
        }),
{
    crate::dial::token_round_trip(token, given);
}

/// Frames are answered one after another: a run's outcome is that of its first
/// part and of the rest on that, refusals in order; one frame is itself.
pub proof fn frames_are_answered_one_by_one(
    d: SessionsView,
    i: int,
    a: Seq<FrameView>,
    b: Seq<FrameView>,
    f: FrameView,
)
    ensures
        frames_at(d, i, Seq::empty()) == (d, Seq::<Reason>::empty()),
        frames_at(d, i, seq![f]).0 == frame_at(d, i, f).0,
        frame_at(d, i, f).1 is None ==> frames_at(d, i, seq![f]).1.len() == 0,
        frame_at(d, i, f).1 matches Some(r) ==> frames_at(d, i, seq![f]).1 == seq![r],
        frames_at(d, i, a + b) == (
            frames_at(frames_at(d, i, a).0, i, b).0,
            frames_at(d, i, a).1 + frames_at(frames_at(d, i, a).0, i, b).1,
        ),
    decreases b.len(),
{
    assert(seq![f].drop_last() =~= Seq::<FrameView>::empty());
    assert(frames_at(d, i, Seq::<FrameView>::empty()) == (d, Seq::<Reason>::empty()));
    let mid = frames_at(d, i, a);
    if b.len() == 0 {
        assert(a + b =~= a);
        assert(mid.1 + Seq::<Reason>::empty() =~= mid.1);
    } else {
        frames_are_answered_one_by_one(d, i, a, b.drop_last(), f);
        assert((a + b).drop_last() =~= a + b.drop_last());
        assert((a + b).last() == b.last());
        assert(frames_at(d, i, a + b).1 =~= mid.1 + frames_at(mid.0, i, b).1);
    }
}

/// Everybody waiting is admitted one after another, in the order they asked,
/// and every close is passed on in that order.
pub proof fn everybody_waiting_is_admitted(
    d: SessionsView,
    a: Seq<usize>,
    b: Seq<usize>,
    handle: usize,
    now: u64,
)
    ensures
        admitted_all(d, Seq::empty(), now) == (d, Seq::<Close>::empty()),
        admitted_all(d, seq![handle], now).0 == admitted(d, handle, now).0,
        admitted(d, handle, now).1 is None ==> admitted_all(d, seq![handle], now).1.len() == 0,
        admitted(d, handle, now).1 matches Some(c) ==> admitted_all(d, seq![handle], now).1
            == seq![c],
        admitted_all(d, a + b, now) == (
            admitted_all(admitted_all(d, a, now).0, b, now).0,
            admitted_all(d, a, now).1 + admitted_all(admitted_all(d, a, now).0, b, now).1,
        ),
    decreases b.len(),
{
    assert(seq![handle].drop_last() =~= Seq::<usize>::empty());
    assert(admitted_all(d, Seq::<usize>::empty(), now) == (d, Seq::<Close>::empty()));
    let mid = admitted_all(d, a, now);
    if b.len() == 0 {
        assert(a + b =~= a);
        assert(mid.1 + Seq::<Close>::empty() =~= mid.1);
    } else {
        everybody_waiting_is_admitted(d, a, b.drop_last(), handle, now);
        assert((a + b).drop_last() =~= a + b.drop_last());
        assert((a + b).last() == b.last());
        assert(admitted_all(d, a + b, now).1 =~= mid.1 + admitted_all(mid.0, b, now).1);
    }
}

/// An admission is for a caller still at the door: one unknown, gone or let
/// in already is passed over.
pub proof fn only_callers_at_the_door_are_admitted(d: SessionsView, handle: usize, now: u64)
    ensures
        place(d.conns, handle) is None ==> admitted(d, handle, now) == (d, None::<Close>),
        place(d.conns, handle) matches Some(i) ==> {
            &&& d.conns[i].gone || d.conns[i].authed ==> admitted(d, handle, now) == (
                d,
                None::<Close>,
            )
            &&& !d.conns[i].gone && !d.conns[i].authed ==> admitted(d, handle, now) == admitted_at(
                d,
                i,
                now,
            )
        },
{
}

/// A drained connection goes, the others stay in order; its id leads nowhere
/// any more, unless it leads to another by now.
pub proof fn a_drained_connection_goes(d: SessionsView, i: int)
    requires
        0 <= i < d.conns.len(),
        d.routes.len() == 256,
    ensures
        ({
            let c = d.conns[i];
            let out = drained_at(d, i);
            &&& out.conns.len() == d.conns.len() - 1
            &&& forall|j: int| 0 <= j < i ==> #[trigger] out.conns[j] == d.conns[j]
            &&& forall|j: int| i <= j < d.conns.len() - 1 ==> #[trigger] out.conns[j] == d.conns[j
                + 1]
            &&& d.routes[c.peer as int] == Some(c.handle) ==> out.routes[c.peer as int] is None
            &&& d.routes[c.peer as int] != Some(c.handle) ==> out.routes[c.peer as int]
                == d.routes[c.peer as int]
            &&& forall|p: int|
                0 <= p < 256 && p != c.peer ==> #[trigger] out.routes[p] == d.routes[p]
            &&& out.parked == d.parked
            &&& out.left == d.left
            &&& out.next_peer == d.next_peer
        }),
{
}

/// What one report does to the connection it is about, and that it does
/// nothing to any other.
pub proof fn a_report_is_about_its_connection(
    d: SessionsView,
    handle: usize,
    now: u64,
    h: HeardView,
    j: int,
)
    requires
        0 <= j < d.conns.len(),
    ensures
        ({
            let out = heard_one(d, handle, now, h);
            &&& place(d.conns, handle) is None ==> out == d
            &&& out.conns.len() == d.conns.len()
            &&& place(d.conns, handle) != Some(j) ==> out.conns[j] == d.conns[j]
            &&& place(d.conns, handle) matches Some(i) ==> {
                let c = d.conns[i];
                match h {
                    HeardView::Connected(opened) => out == (SessionsView {
                        conns: d.conns.update(
                            i,
                            ConnView {
                                connected: true,
                                streaming: c.streaming || opened,
                                stream_out: if opened {
                                    c.stream_out + frame_bytes(
                                        FrameView { ty: 0, payload: d.schema },
                                    )
                                } else {
                                    c.stream_out
                                },
                                ..c
                            },
                        ),
                        ..d
                    }),
                    HeardView::Lost(_) => out == lost_at(d, i, now),
                    HeardView::Fed(b) => out == (SessionsView {
                        conns: d.conns.update(i, ConnView { stream_in: c.stream_in + b, ..c }),
                        ..d
                    }),
                    HeardView::Datagram(b) => out == datagram_at(d, i, b),
                    HeardView::Idle => out == d,
                }
            }
        }),
{
    a_handle_leads_to_its_connection(d.conns, handle);
}

/// A connection's reports are heard one after another, in order.
pub proof fn reports_are_heard_one_by_one(
    d: SessionsView,
    handle: usize,
    now: u64,
    a: Seq<HeardView>,
    b: Seq<HeardView>,
    h: HeardView,
)
    ensures
        heard_all(d, handle, now, Seq::empty()) == d,
        heard_all(d, handle, now, seq![h]) == heard_one(d, handle, now, h),
        heard_all(d, handle, now, a + b) == heard_all(
            heard_all(d, handle, now, a),
            handle,
            now,
            b,
        ),
    decreases b.len(),
{
    assert(seq![h].drop_last() =~= Seq::<HeardView>::empty());
    assert(heard_all(d, handle, now, Seq::<HeardView>::empty()) == d);
    if b.len() == 0 {
        assert(a + b =~= a);
    } else {
        reports_are_heard_one_by_one(d, handle, now, a, b.drop_last(), h);
        assert((a + b).drop_last() =~= a + b.drop_last());
    }
}

/// Every connection gets its turn, in order, with what it said.
pub proof fn everybody_gets_a_turn(
    d: SessionsView,
    handles: Seq<usize>,
    now: u64,
    said: Seq<Seq<HeardView>>,
    k: int,
)
    requires
        handles.len() == said.len(),
        0 <= k < handles.len(),
    ensures
        turns(d, handles.take(0), now, said.take(0)) == d,
        turns(d, handles.take(k + 1), now, said.take(k + 1)) == turn(
            turns(d, handles.take(k), now, said.take(k)),
            handles[k],
            now,
            said[k],
        ).0,
{
    assert(handles.take(k + 1).drop_last() =~= handles.take(k));
    assert(said.take(k + 1).drop_last() =~= said.take(k));
}

/// A turn hears the reports, answers the whole frames that came and keeps the
/// rest; one still at the door after five seconds is closed for it, last.
pub proof fn a_turn_hears_reads_and_watches_the_clock(
    d: SessionsView,
    handle: usize,
    now: u64,
    hs: Seq<HeardView>,
)
    ensures
        ({
            let mid = heard_all(d, handle, now, hs);
            let out = turn(d, handle, now, hs);
            &&& place(mid.conns, handle) is None ==> out == (mid, Seq::<Reason>::empty())
            &&& place(mid.conns, handle) matches Some(i) ==> {
                let c = mid.conns[i];
                let came = crate::frame::frames_of(c.stream_in);
                let kept = SessionsView {
                    conns: mid.conns.update(i, ConnView { stream_in: came.1, ..c }),
                    ..mid
                };
                let read = frames_at(kept, i, came.0);
                &&& out.0 == read.0
                &&& place(read.0.conns, handle) matches Some(j) ==> {
                    let late = !read.0.conns[j].authed && !read.0.conns[j].gone && now
                        - read.0.conns[j].since > 5_000_000_000;
                    &&& late ==> out.1 == read.1.push(Reason::AuthTimeout)
                    &&& !late ==> out.1 == read.1
                }
            }
        }),
{
}

/// The reasons to close a connection are those given for it, all of them and
/// in order.
pub proof fn every_reason_reaches_its_connection(closes: Seq<Close>, handle: usize) -> (at: Seq<int>)
    ensures
        reasons_for(closes, handle).len() == at.len(),
        forall|k: int|
            0 <= k < at.len() ==> 0 <= #[trigger] at[k] < closes.len() && reasons_for(
                closes,
                handle,
            )[k] == closes[at[k]].reason,
        forall|j: int, k: int| 0 <= j < k < at.len() ==> (#[trigger] at[j]) < (#[trigger] at[k]),
        forall|i: int|
            0 <= i < closes.len() ==> (#[trigger] at.contains(i) <==> closes[i].handle == handle),
    decreases closes.len(),
{
    if closes.len() == 0 {
        Seq::empty()
    } else {
        let init = closes.drop_last();
        let before = every_reason_reaches_its_connection(init, handle);
        let n = closes.len() - 1;
        let at = if closes[n].handle == handle {
            before.push(n)
        } else {
            before
        };
        let out = reasons_for(closes, handle);
        assert forall|k: int| 0 <= k < at.len() implies 0 <= #[trigger] at[k] < closes.len()
            && out[k] == closes[at[k]].reason by {
            if k < before.len() {
                assert(at[k] == before[k]);
                assert(init[before[k]] == closes[at[k]]);
            }
        }
        assert forall|j: int, k: int| 0 <= j < k < at.len() implies (#[trigger] at[j]) < (
        #[trigger] at[k]) by {
            assert(at[j] == before[j]);
            if k < before.len() {
                assert(at[k] == before[k]);
            }
        }
        assert forall|i: int| 0 <= i < closes.len() implies (#[trigger] at.contains(i)
            <==> closes[i].handle == handle) by {
            crate::sort::contains_push(before, n, i);
            if i < n {
                assert(before.contains(i) <==> init[i].handle == handle);
            } else if before.contains(i) {
                let k = choose|k: int| 0 <= k < before.len() && before[k] == i;
                assert(before[k] < init.len());
            }
        }
        at
    }
}

// --- the dialing end --------------------------------------------------------

/// What one report tells a dialing end: a snapshot is kept whole and last
/// behind its kind byte, bytes go behind those before, the first error stays.
pub proof fn a_report_tells_the_dialer(d: DialView, h: HeardView)
    ensures
        ({
            let out = told_one(d, h);
            match h {
                HeardView::Connected(_) => out == (DialView { connected: true, ..d }),
                HeardView::Lost(why) => {
                    &&& out == (DialView { gone: true, error: out.error, ..d })
                    &&& d.error is Some ==> out.error == d.error
                    &&& d.error is None ==> out.error == Some(why)
                },
                HeardView::Fed(b) => out == (DialView { stream_in: d.stream_in + b, ..d }),
                HeardView::Datagram(b) => {
                    &&& b.len() > 0 && b[0] == 0 ==> out == (DialView {
                        snapshots: d.snapshots.push(b.subrange(1, b.len() as int)),
                        ..d
                    })
                    &&& b.len() == 0 || b[0] != 0 ==> out == d
                },
                HeardView::Idle => out == d,
            }
        }),
{
    if let HeardView::Datagram(b) = h {
        if b.len() > 0 {
            assert(b.skip(1) =~= b.subrange(1, b.len() as int));
        }
    }
}

/// A dialing end is told everything, in order.
pub proof fn reports_are_told_one_by_one(
    d: DialView,
    a: Seq<HeardView>,
    b: Seq<HeardView>,
    h: HeardView,
)
    ensures
        told_all(d, Seq::empty()) == d,
        told_all(d, seq![h]) == told_one(d, h),
        told_all(d, a + b) == told_all(told_all(d, a), b),
    decreases b.len(),
{
    assert(seq![h].drop_last() =~= Seq::<HeardView>::empty());
    assert(told_all(d, Seq::<HeardView>::empty()) == d);
    if b.len() == 0 {
        assert(a + b =~= a);
    } else {
        reports_are_told_one_by_one(d, a, b.drop_last(), h);
        assert((a + b).drop_last() =~= a + b.drop_last());
    }
}

/// Whether a report is a snapshot.
pub open spec fn is_snapshot(h: HeardView) -> bool {
    h matches HeardView::Datagram(b) && b.len() > 0 && b[0] == 0
}

/// A dialing end keeps exactly the snapshots it is told, in order.
pub proof fn every_snapshot_told_is_kept(d: DialView, hs: Seq<HeardView>) -> (at: Seq<int>)
    ensures
        told_all(d, hs).snapshots.len() == d.snapshots.len() + at.len(),
        forall|k: int|
            0 <= k < d.snapshots.len() ==> #[trigger] told_all(d, hs).snapshots[k]
                == d.snapshots[k],
        forall|k: int|
            0 <= k < at.len() ==> 0 <= #[trigger] at[k] < hs.len() && seq![0u8] + told_all(
                d,
                hs,
            ).snapshots[d.snapshots.len() + k] == hs[at[k]]->Datagram_0,
        forall|j: int, k: int| 0 <= j < k < at.len() ==> (#[trigger] at[j]) < (#[trigger] at[k]),
        forall|i: int| 0 <= i < hs.len() ==> (#[trigger] at.contains(i) <==> is_snapshot(hs[i])),
    decreases hs.len(),
{
    if hs.len() == 0 {
        Seq::empty()
    } else {
        let init = hs.drop_last();
        let before = every_snapshot_told_is_kept(d, init);
        let n = hs.len() - 1;
        let at = if is_snapshot(hs[n]) {
            before.push(n)
        } else {
            before
        };
        let was = told_all(d, init).snapshots;
        let out = told_all(d, hs).snapshots;
        let m = d.snapshots.len();
        if is_snapshot(hs[n]) {
            let b = hs[n]->Datagram_0;
            assert(seq![0u8] + b.skip(1) =~= b);
        }
        assert forall|k: int| 0 <= k < m implies #[trigger] out[k] == d.snapshots[k] by {
            assert(was[k] == d.snapshots[k]);
        }
        assert forall|k: int| 0 <= k < at.len() implies 0 <= #[trigger] at[k] < hs.len()
            && seq![0u8] + out[m + k] == hs[at[k]]->Datagram_0 by {
            if k < before.len() {
                assert(at[k] == before[k]);
                assert(init[before[k]] == hs[at[k]]);
                assert(out[m + k] == was[m + k]);
            }
        }
        assert forall|j: int, k: int| 0 <= j < k < at.len() implies (#[trigger] at[j]) < (
        #[trigger] at[k]) by {
            assert(at[j] == before[j]);
            if k < before.len() {
                assert(at[k] == before[k]);
            }
        }
        assert forall|i: int| 0 <= i < hs.len() implies (#[trigger] at.contains(i) <==> is_snapshot(
            hs[i],
        )) by {
            crate::sort::contains_push(before, n, i);
            if i < n {
                assert(before.contains(i) <==> is_snapshot(init[i]));
            } else if before.contains(i) {
                let k = choose|k: int| 0 <= k < before.len() && before[k] == i;
                assert(before[k] < init.len());
            }
        }
        at
    }
}

/// What a dialing end answers: to a greeting with its own schema its token and
/// password, to another a close with the difference; a welcome names its id.
pub proof fn a_dialer_answers_its_server(d: DialView, f: FrameView)
    ensures
        ({
            let (out, close) = answer(d, f);
            let secret = if d.password is Some {
                utf8(d.password->0)
            } else {
                Seq::empty()
            };
            &&& f.ty == 0 && f.payload == d.schema ==> close is None && out == (DialView {
                stream_out: d.stream_out + frame_bytes(
                    FrameView { ty: 1, payload: d.token.written() + secret },
                ),
                ..d
            })
            &&& f.ty == 0 && f.payload != d.schema ==> close == Some(Reason::SchemaMismatch) && out
                == (DialView { error: Some(mismatch_text(f.payload, d.schema)), ..d })
            &&& f.ty == 2 && f.payload.len() > 0 ==> close is None && out == (DialView {
                peer: Some(f.payload[0]),
                ..d
            })
            &&& f.ty != 0 && (f.ty != 2 || f.payload.len() == 0) ==> close is None && out == d
        }),
{
}

/// A dialing end answers frames one after another, its closes in order.
pub proof fn frames_are_answered_in_order(
    d: DialView,
    a: Seq<FrameView>,
    b: Seq<FrameView>,
    f: FrameView,
)
    ensures
        answers(d, Seq::empty()) == (d, Seq::<Reason>::empty()),
        answers(d, seq![f]).0 == answer(d, f).0,
        answer(d, f).1 is None ==> answers(d, seq![f]).1.len() == 0,
        answer(d, f).1 matches Some(r) ==> answers(d, seq![f]).1 == seq![r],
        answers(d, a + b) == (
            answers(answers(d, a).0, b).0,
            answers(d, a).1 + answers(answers(d, a).0, b).1,
        ),
    decreases b.len(),
{
    assert(seq![f].drop_last() =~= Seq::<FrameView>::empty());
    assert(answers(d, Seq::<FrameView>::empty()) == (d, Seq::<Reason>::empty()));
    let mid = answers(d, a);
    if b.len() == 0 {
        assert(a + b =~= a);
        assert(mid.1 + Seq::<Reason>::empty() =~= mid.1);
    } else {
        frames_are_answered_in_order(d, a, b.drop_last(), f);
        assert((a + b).drop_last() =~= a + b.drop_last());
        assert((a + b).last() == b.last());
        assert(answers(d, a + b).1 =~= mid.1 + answers(mid.0, b).1);
    }
}

/// A dialing end's turn: told everything, it answers the whole frames that
/// came and keeps the rest.
pub proof fn a_dialers_turn_answers_what_came(d: DialView, hs: Seq<HeardView>)
    ensures
        ({
            let mid = told_all(d, hs);
            let came = crate::frame::frames_of(mid.stream_in);
            client_turn(d, hs) == answers(DialView { stream_in: came.1, ..mid }, came.0)
        }),
{
}

/// A caller just accepted: known by its handle, not connected, not let in,
/// with nothing received or to send, timed from now.
pub proof fn a_caller_starts_outside(handle: usize, now: u64)
    ensures
        ({
            let c = new_conn(handle, now);
            &&& c.handle == handle && c.since == now
            &&& !c.connected && !c.gone && !c.streaming && !c.authed
            &&& c.stream_in.len() == 0 && c.stream_out.len() == 0
            &&& c.last_input == 0 && c.peer == 0
            &&& c.token == (Token { lo: 0, hi: 0 })
            &&& c.pose is None
        }),
{
}

/// Why two ends disagree is told by the difference of their schemas where
/// both can be read, and as undecodable otherwise.
pub proof fn a_mismatch_tells_the_difference(server: Seq<u8>, client: Seq<u8>)
    ensures
        schema_rows(server) is Some && schema_rows(client) is Some ==> mismatch_text(server, client)
            == "schema mismatch with server: "@ + diff_text(
            schema_rows(server)->0,
            schema_rows(client)->0,
        ),
        schema_rows(server) is None || schema_rows(client) is None ==> mismatch_text(server, client)
            == "schema mismatch with server: "@ + "undecodable schema"@,
{
}

/// Whom a server turn lets in: those waiting after everybody had a turn, and
/// nobody is left waiting for it.
pub proof fn the_waiting_are_let_in_after_the_turns(
    d: SessionsView,
    handles: Seq<usize>,
    now: u64,
    said: Seq<Seq<HeardView>>,
)
    ensures
        ({
            let mid = turns(d, handles, now, said);
            served(d, handles, now, said) == admitted_all(
                SessionsView { pending: Seq::empty(), ..mid },
                mid.pending,
                now,
            )
        }),
{
}

/// Inputs and events are kept with their sender and what they are, row for
/// row.
pub proof fn collected_rows_tell_their_sender(inputs: Seq<InputRow>, events: Seq<EventRow>, k: int)
    ensures
        input_rows(inputs).len() == inputs.len(),
        event_rows(events).len() == events.len(),
        0 <= k < inputs.len() ==> input_rows(inputs)[k].peer == inputs[k].peer && input_rows(
            inputs,
        )[k].seq == inputs[k].seq && input_rows(inputs)[k].payload == inputs[k].payload@,
        0 <= k < events.len() ==> event_rows(events)[k].peer == events[k].peer && event_rows(
            events,
        )[k].ty == events[k].ty && event_rows(events)[k].payload == events[k].payload@,
{
}

} // verus!
