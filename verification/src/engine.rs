//! Scheduler and message router: the top-level engine.
//!
//! The engine owns the guest roster, the entity–component store, the
//! per-channel subscription index, the host's external inbox and the
//! outbound network queue. Guest code itself runs outside the engine:
//! a pass (`init_plugins` or `dispatch`) hands out one serialized turn
//! per runnable system through [`Engine::next_turn`], and the caller
//! returns each guest's reply through [`Engine::reply`]. When a pass
//! has no turns left, the engine routes every emitted message in one
//! propagation pass.

use vstd::prelude::*;

use crate::ecs::{ecs_wf, Ecs, EcsV};
use crate::tables::{
    key_idx, key_idx_exists, keys_unique, lemma_key_idx_is, lemma_tbl_append, lemma_tbl_framed,
    tbl_append, tbl_find, tbl_get,
};
use crate::types::{
    inbox_tbl_view, msgs_view, ChanV, ChannelId, Locality, MessageData, MsgV, Stage, SysV,
    SystemDescriptor,
};

verus! {

/// Spec-level image of one loaded guest.
#[verifier::ext_equal]
pub struct GuestV {
    pub systems: Seq<SysV>,
    pub inbox: Seq<(ChanV, Seq<MsgV>)>,
    pub outbox: Seq<MsgV>,
    pub poisoned: bool,
}

struct Guest {
    systems: Vec<SystemDescriptor>,
    inbox: Vec<(ChannelId, Vec<MessageData>)>,
    outbox: Vec<MessageData>,
    poisoned: bool,
}

impl View for Guest {
    type V = GuestV;

    closed spec fn view(&self) -> GuestV {
        GuestV {
            systems: crate::types::systems_view(self.systems@),
            inbox: inbox_tbl_view(self.inbox@),
            outbox: msgs_view(self.outbox@),
            poisoned: self.poisoned,
        }
    }
}

/// Spec-level image of where a pass stands.
pub enum PhaseV {
    /// No pass is running.
    Idle,
    /// Init pass: the next init turn belongs to this guest.
    InitNext(usize),
    /// Init pass: this guest's init turn was handed out and its reply
    /// is owed.
    InitAwait(usize),
    /// Stage pass: the scan for the next runnable system stands at
    /// this guest and system index.
    StageNext(Stage, usize, usize),
    /// Stage pass: the turn of this guest and system was handed out;
    /// the recorded rows are the entities its query matched.
    StageAwait(Stage, usize, usize, Seq<u128>),
}

enum Phase {
    Idle,
    InitNext(usize),
    InitAwait(usize),
    StageNext(Stage, usize, usize),
    StageAwait(Stage, usize, usize, Vec<u128>),
}

/// Spec-level image of the whole engine.
#[verifier::ext_equal]
pub struct EngineV {
    pub guests: Seq<GuestV>,
    pub ecs: EcsV,
    pub subs: Seq<(ChanV, Seq<usize>)>,
    pub host_inbox: Seq<(ChanV, Seq<MsgV>)>,
    pub net_out: Seq<MsgV>,
    pub is_server: bool,
    pub inited: bool,
    pub phase: PhaseV,
}

/// The engine: guest roster, store, routing tables and host API.
pub struct Engine {
    guests: Vec<Guest>,
    ecs: Ecs,
    subs: Vec<(ChannelId, Vec<usize>)>,
    host_inbox: Vec<(ChannelId, Vec<MessageData>)>,
    net_out: Vec<MessageData>,
    is_server: bool,
    inited: bool,
    phase: Phase,
}

impl View for Engine {
    type V = EngineV;

    closed spec fn view(&self) -> EngineV {
        EngineV {
            guests: self.guests@.map_values(|g: Guest| g@),
            ecs: self.ecs@,
            subs: self.subs@.map_values(|e: (ChannelId, Vec<usize>)| (e.0@, e.1@)),
            host_inbox: inbox_tbl_view(self.host_inbox@),
            net_out: msgs_view(self.net_out@),
            is_server: self.is_server,
            inited: self.inited,
            phase: match &self.phase {
                Phase::Idle => PhaseV::Idle,
                Phase::InitNext(g) => PhaseV::InitNext(*g),
                Phase::InitAwait(g) => PhaseV::InitAwait(*g),
                Phase::StageNext(st, g, s) => PhaseV::StageNext(*st, *g, *s),
                Phase::StageAwait(st, g, s, rows) => PhaseV::StageAwait(*st, *g, *s, rows@),
            },
        }
    }
}

/// The guest's declared systems subscribe to channel `c`.
pub open spec fn declares(systems: Seq<SysV>, c: ChanV) -> bool {
    exists|i: int, k: int|
        0 <= i < systems.len() && 0 <= k < systems[i].subscriptions.len() && (#[trigger] systems[
            i
        ].subscriptions[k]) == c
}

/// The engine's invariant: the store is well formed, all tables have
/// unique keys, every subscription index entry points at a loaded
/// guest that declared that subscription, every pending inbox entry of
/// a guest is on a channel it declared, and a running pass points at a
/// loaded guest.
pub open spec fn engine_wf(v: EngineV) -> bool {
    &&& ecs_wf(v.ecs)
    &&& keys_unique(v.subs)
    &&& keys_unique(v.host_inbox)
    &&& forall|g: int| 0 <= g < v.guests.len() ==> keys_unique((#[trigger] v.guests[g]).inbox)
    &&& forall|si: int, k: int|
        0 <= si < v.subs.len() && 0 <= k < v.subs[si].1.len() ==> (#[trigger] v.subs[si].1[
            k
        ]) < v.guests.len() && declares(v.guests[v.subs[si].1[k] as int].systems, v.subs[si].0)
    &&& forall|g: int, ei: int|
        0 <= g < v.guests.len() && 0 <= ei < v.guests[g].inbox.len() ==> declares(
            v.guests[g].systems,
            (#[trigger] v.guests[g].inbox[ei]).0,
        )
    &&& (!v.inited ==> v.subs.len() == 0)
    &&& match v.phase {
        PhaseV::Idle => true,
        PhaseV::InitNext(g) => v.inited && g <= v.guests.len() && subs_below(v.subs, g),
        PhaseV::InitAwait(g) => v.inited && g < v.guests.len() && subs_below(v.subs, g)
            && v.guests[g as int].inbox.len() == 0,
        PhaseV::StageNext(_, g, _) => v.inited && g <= v.guests.len(),
        PhaseV::StageAwait(_, g, s, _) => v.inited && g < v.guests.len() && s < v.guests[
            g as int
        ].systems.len(),
    }
}

/// During an init pass every subscription entry points below the
/// guest whose init turn is next: a guest gains entries only when its
/// own init reply is applied.
pub open spec fn subs_below(subs: Seq<(ChanV, Seq<usize>)>, g: usize) -> bool {
    forall|si: int, k: int|
        0 <= si < subs.len() && 0 <= k < subs[si].1.len() ==> (#[trigger] subs[si].1[k]) < g
}

/// One guest with a message appended to its inbox queue of `c`.
pub open spec fn guest_deliver(g: GuestV, c: ChanV, m: MsgV) -> GuestV {
    GuestV { inbox: tbl_append(g.inbox, c, m), ..g }
}

/// The guests after delivering `m` to each index in `lst`, in order;
/// an index occurring twice receives the message twice.
pub open spec fn deliver_list(guests: Seq<GuestV>, lst: Seq<usize>, m: MsgV) -> Seq<GuestV>
    decreases lst.len(),
{
    if lst.len() == 0 {
        guests
    } else {
        let j = lst[0] as int;
        let gs2 = if 0 <= j < guests.len() {
            guests.update(j, guest_deliver(guests[j], m.channel, m))
        } else {
            guests
        };
        deliver_list(gs2, lst.drop_first(), m)
    }
}

/// The subscriber list of a channel; empty where no guest subscribed.
pub open spec fn sub_list(v: EngineV, c: ChanV) -> Seq<usize> {
    match tbl_get(v.subs, c) {
        Some(l) => l,
        None => Seq::empty(),
    }
}

/// Routing one message as local: a clone to every subscriber's inbox
/// in index order, and one to the host's external inbox where the
/// host has subscribed to the channel. Everything else is untouched.
pub open spec fn route_local_spec(v: EngineV, m: MsgV) -> EngineV {
    EngineV {
        guests: deliver_list(v.guests, sub_list(v, m.channel), m),
        host_inbox: if key_idx_exists(v.host_inbox, m.channel) {
            tbl_append(v.host_inbox, m.channel, m)
        } else {
            v.host_inbox
        },
        ..v
    }
}

/// Routing one message: a Remote channel goes to the network outbox
/// and nowhere else; a Local channel fans out to subscribers and the
/// host.
pub open spec fn broadcast_spec(v: EngineV, m: MsgV) -> EngineV {
    if m.channel.loc == Locality::Remote {
        EngineV { net_out: v.net_out.push(m), ..v }
    } else {
        route_local_spec(v, m)
    }
}

/// How many times `g` occurs in the subscriber list.
pub open spec fn occurrences(lst: Seq<usize>, g: int) -> nat
    decreases lst.len(),
{
    if lst.len() == 0 {
        0
    } else {
        (if lst[0] as int == g {
            1nat
        } else {
            0nat
        }) + occurrences(lst.drop_first(), g)
    }
}

/// `n` copies of one message.
pub open spec fn repeat_msg(m: MsgV, n: nat) -> Seq<MsgV> {
    Seq::new(n, |i: int| m)
}

/// Fan-out accounting: delivering along `lst` appends to each guest's
/// queue of the message's channel exactly as many copies as the guest
/// occurs in `lst`, touches no other queue, no other guest field, and
/// no other engine part.
pub proof fn lemma_deliver_list(guests: Seq<GuestV>, lst: Seq<usize>, m: MsgV)
    requires
        forall|k: int| 0 <= k < lst.len() ==> (#[trigger] lst[k]) < guests.len(),
        forall|g: int| 0 <= g < guests.len() ==> keys_unique((#[trigger] guests[g]).inbox),
    ensures
        deliver_list(guests, lst, m).len() == guests.len(),
        forall|g: int|
            0 <= g < guests.len() ==> {
                let out = #[trigger] deliver_list(guests, lst, m)[g];
                &&& out.systems == guests[g].systems
                &&& out.outbox == guests[g].outbox
                &&& out.poisoned == guests[g].poisoned
                &&& keys_unique(out.inbox)
            },
        forall|g: int|
            0 <= g < guests.len() ==> tbl_get(
                (#[trigger] deliver_list(guests, lst, m)[g]).inbox,
                m.channel,
            ) == (match tbl_get(guests[g].inbox, m.channel) {
                Some(q) => Some(q + repeat_msg(m, occurrences(lst, g))),
                None => if occurrences(lst, g) > 0 {
                    Some(repeat_msg(m, occurrences(lst, g)))
                } else {
                    None::<Seq<MsgV>>
                },
            }),
        forall|g: int, c2: ChanV|
            0 <= g < guests.len() && c2 != m.channel ==> #[trigger] tbl_get(
                deliver_list(guests, lst, m)[g].inbox,
                c2,
            ) == tbl_get(guests[g].inbox, c2),
        forall|g: int, ei: int|
            0 <= g < guests.len() && 0 <= ei < deliver_list(guests, lst, m)[g].inbox.len() ==> (
            ei < guests[g].inbox.len() && (#[trigger] deliver_list(guests, lst, m)[g].inbox[
                ei
            ]).0 == guests[g].inbox[ei].0) || deliver_list(guests, lst, m)[g].inbox[ei].0
                == m.channel,
        forall|g: int|
            0 <= g < guests.len() && occurrences(lst, g) == 0 ==> #[trigger] deliver_list(
                guests,
                lst,
                m,
            )[g] == guests[g],
    decreases lst.len(),
{
    if lst.len() == 0 {
        assert(deliver_list(guests, lst, m) == guests);
        assert forall|g: int| 0 <= g < guests.len() implies tbl_get(
            (#[trigger] deliver_list(guests, lst, m)[g]).inbox,
            m.channel,
        ) == (match tbl_get(guests[g].inbox, m.channel) {
            Some(q) => Some(q + repeat_msg(m, occurrences(lst, g))),
            None => if occurrences(lst, g) > 0 {
                Some(repeat_msg(m, occurrences(lst, g)))
            } else {
                None::<Seq<MsgV>>
            },
        }) by {
            if tbl_get(guests[g].inbox, m.channel) is Some {
                let q = tbl_get(guests[g].inbox, m.channel)->Some_0;
                assert(q + repeat_msg(m, 0) =~= q);
            }
        }
    } else {
        let j = lst[0] as int;
        let gs2 = guests.update(j, guest_deliver(guests[j], m.channel, m));
        lemma_tbl_append(guests[j].inbox, m.channel, m);
        assert forall|g: int| 0 <= g < gs2.len() implies keys_unique(
            (#[trigger] gs2[g]).inbox,
        ) by {
            assert(keys_unique(guests[g].inbox));
        }
        assert(forall|k: int|
            0 <= k < lst.drop_first().len() ==> (#[trigger] lst.drop_first()[k]) < gs2.len());
        lemma_deliver_list(gs2, lst.drop_first(), m);
        assert(deliver_list(guests, lst, m) == deliver_list(gs2, lst.drop_first(), m));
        assert forall|g: int| 0 <= g < guests.len() implies tbl_get(
            (#[trigger] deliver_list(guests, lst, m)[g]).inbox,
            m.channel,
        ) == (match tbl_get(guests[g].inbox, m.channel) {
            Some(q) => Some(q + repeat_msg(m, occurrences(lst, g))),
            None => if occurrences(lst, g) > 0 {
                Some(repeat_msg(m, occurrences(lst, g)))
            } else {
                None::<Seq<MsgV>>
            },
        }) by {
            let rest = lst.drop_first();
            let n2 = occurrences(rest, g);
            if g == j {
                match tbl_get(guests[g].inbox, m.channel) {
                    Some(q) => {
                        assert(tbl_get(gs2[g].inbox, m.channel) == Some(q.push(m)));
                        assert(q.push(m) + repeat_msg(m, n2) =~= q + repeat_msg(m, n2 + 1));
                    },
                    None => {
                        assert(tbl_get(gs2[g].inbox, m.channel) == Some(seq![m]));
                        assert(seq![m] + repeat_msg(m, n2) =~= repeat_msg(m, n2 + 1));
                    },
                }
            } else {
                assert(gs2[g] == guests[g]);
            }
        }
        assert forall|g: int|
            0 <= g < guests.len() && occurrences(lst, g) == 0 implies #[trigger] deliver_list(
            guests,
            lst,
            m,
        )[g] == guests[g] by {
            assert(lst[0] as int != g);
            assert(gs2[g] == guests[g]);
            assert(occurrences(lst.drop_first(), g) == 0);
        }
    }
}

/// Law: a message on a Remote channel goes to the network outbox
/// exactly once and to no guest inbox and not to the host inbox.
pub proof fn lemma_remote_separation(v: EngineV, m: MsgV)
    requires
        m.channel.loc == Locality::Remote,
    ensures
        broadcast_spec(v, m).net_out == v.net_out.push(m),
        broadcast_spec(v, m).guests == v.guests,
        broadcast_spec(v, m).host_inbox == v.host_inbox,
        broadcast_spec(v, m).ecs == v.ecs,
        broadcast_spec(v, m).subs == v.subs,
{
}

/// Law: a message on a Local channel with a subscriber list of length
/// S is appended once per occurrence to each subscriber's queue of
/// that channel — S guest deliveries in all — plus once to the host's
/// external inbox exactly where the host has subscribed; the network
/// outbox, the store and the subscription index are untouched.
pub proof fn lemma_local_fanout(v: EngineV, m: MsgV)
    requires
        engine_wf(v),
        m.channel.loc == Locality::Local,
    ensures
        broadcast_spec(v, m).guests.len() == v.guests.len(),
        forall|g: int|
            0 <= g < v.guests.len() ==> tbl_get(
                (#[trigger] broadcast_spec(v, m).guests[g]).inbox,
                m.channel,
            ) == (match tbl_get(v.guests[g].inbox, m.channel) {
                Some(q) => Some(q + repeat_msg(m, occurrences(sub_list(v, m.channel), g))),
                None => if occurrences(sub_list(v, m.channel), g) > 0 {
                    Some(repeat_msg(m, occurrences(sub_list(v, m.channel), g)))
                } else {
                    None::<Seq<MsgV>>
                },
            }),
        forall|g: int, c2: ChanV|
            0 <= g < v.guests.len() && c2 != m.channel ==> #[trigger] tbl_get(
                broadcast_spec(v, m).guests[g].inbox,
                c2,
            ) == tbl_get(v.guests[g].inbox, c2),
        tbl_get(broadcast_spec(v, m).host_inbox, m.channel) == (match tbl_get(
            v.host_inbox,
            m.channel,
        ) {
            Some(q) => Some(q.push(m)),
            None => None::<Seq<MsgV>>,
        }),
        forall|c2: ChanV|
            c2 != m.channel ==> tbl_get(broadcast_spec(v, m).host_inbox, c2) == tbl_get(
                v.host_inbox,
                c2,
            ),
        broadcast_spec(v, m).net_out == v.net_out,
        broadcast_spec(v, m).ecs == v.ecs,
        broadcast_spec(v, m).subs == v.subs,
{
    let lst = sub_list(v, m.channel);
    assert forall|k: int| 0 <= k < lst.len() implies (#[trigger] lst[k]) < v.guests.len() by {
        let si = key_idx(v.subs, m.channel);
        assert(v.subs[si].1[k] < v.guests.len());
    }
    lemma_deliver_list(v.guests, lst, m);
    if key_idx_exists(v.host_inbox, m.channel) {
        lemma_tbl_append(v.host_inbox, m.channel, m);
        lemma_key_idx_is(v.host_inbox, m.channel, key_idx(v.host_inbox, m.channel));
    }
}

/// Law: delivering one message as local keeps the engine well formed
/// and touches only subscriber inboxes and the host inbox.
pub proof fn lemma_route_local_wf(v: EngineV, m: MsgV)
    requires
        engine_wf(v),
    ensures
        engine_wf(route_local_spec(v, m)),
        route_local_spec(v, m).guests.len() == v.guests.len(),
        forall|g: int|
            0 <= g < v.guests.len() ==> (#[trigger] route_local_spec(v, m).guests[g]).systems
                == v.guests[g].systems && route_local_spec(v, m).guests[g].outbox == v.guests[
                g
            ].outbox && route_local_spec(v, m).guests[g].poisoned == v.guests[g].poisoned,
        route_local_spec(v, m).ecs == v.ecs,
        route_local_spec(v, m).subs == v.subs,
        route_local_spec(v, m).net_out == v.net_out,
        route_local_spec(v, m).inited == v.inited,
        route_local_spec(v, m).phase == v.phase,
        route_local_spec(v, m).is_server == v.is_server,
{
    let out = route_local_spec(v, m);
    {
        let lst = sub_list(v, m.channel);
        assert forall|k: int| 0 <= k < lst.len() implies (#[trigger] lst[k]) < v.guests.len() by {
            let si = key_idx(v.subs, m.channel);
            assert(v.subs[si].1[k] < v.guests.len());
        }
        lemma_deliver_list(v.guests, lst, m);
        if key_idx_exists(v.host_inbox, m.channel) {
            lemma_tbl_append(v.host_inbox, m.channel, m);
        }
        // pending inbox entries still sit on declared channels
        assert forall|g: int, ei: int|
            0 <= g < out.guests.len() && 0 <= ei < out.guests[g].inbox.len() implies declares(
            out.guests[g].systems,
            (#[trigger] out.guests[g].inbox[ei]).0,
        ) by {
            if (ei < v.guests[g].inbox.len() && out.guests[g].inbox[ei].0 == v.guests[g].inbox[
                ei
            ].0) {
                assert(declares(v.guests[g].systems, v.guests[g].inbox[ei].0));
            } else {
                assert(out.guests[g].inbox[ei].0 == m.channel);
                if occurrences(lst, g) > 0 {
                    // a delivery happened, so g occurs in the
                    // subscriber list and declared the channel
                    lemma_occurrence_declares(v, lst, m.channel, g);
                    assert(declares(v.guests[g].systems, m.channel));
                } else {
                    // no delivery to g: its queue of the channel is unchanged,
                    // so the entry already existed
                    match tbl_get(v.guests[g].inbox, m.channel) {
                        Some(q) => {
                            assert(q + repeat_msg(m, 0) =~= q);
                            assert(tbl_get(out.guests[g].inbox, m.channel) == Some(q));
                        },
                        None => {},
                    }
                    assert(keys_unique(out.guests[g].inbox));
                    lemma_key_idx_is(out.guests[g].inbox, m.channel, ei);
                    if tbl_get(v.guests[g].inbox, m.channel) is None {
                        assert(false);
                    } else {
                        let old_ei = key_idx(v.guests[g].inbox, m.channel);
                        assert(declares(v.guests[g].systems, v.guests[g].inbox[old_ei].0));
                    }
                }
            }
        }
        // the pass cursor facts survive routing
        match v.phase {
            PhaseV::InitAwait(gw) => {
                assert(occurrences(lst, gw as int) == 0) by {
                    if occurrences(lst, gw as int) > 0 {
                        lemma_occurrences_member(lst, gw as int);
                        let k = choose|k: int|
                            0 <= k < lst.len() && lst[k] as int == gw as int;
                        if key_idx_exists(v.subs, m.channel) {
                            let si = key_idx(v.subs, m.channel);
                            assert(v.subs[si].1[k] < gw);
                        }
                    }
                }
                assert(out.guests[gw as int] == v.guests[gw as int]);
            },
            PhaseV::StageAwait(_, gg, ss, _) => {
                assert(out.guests[gg as int].systems == v.guests[gg as int].systems);
            },
            _ => {},
        }
    }
}

/// Law: routing keeps the engine well formed.
pub proof fn lemma_broadcast_wf(v: EngineV, m: MsgV)
    requires
        engine_wf(v),
    ensures
        engine_wf(broadcast_spec(v, m)),
        broadcast_spec(v, m).guests.len() == v.guests.len(),
        forall|g: int|
            0 <= g < v.guests.len() ==> (#[trigger] broadcast_spec(v, m).guests[g]).systems
                == v.guests[g].systems && broadcast_spec(v, m).guests[g].outbox == v.guests[
                g
            ].outbox && broadcast_spec(v, m).guests[g].poisoned == v.guests[g].poisoned,
        broadcast_spec(v, m).ecs == v.ecs,
        broadcast_spec(v, m).subs == v.subs,
        broadcast_spec(v, m).inited == v.inited,
        broadcast_spec(v, m).phase == v.phase,
        broadcast_spec(v, m).is_server == v.is_server,
{
    if m.channel.loc == Locality::Remote {
    } else {
        lemma_route_local_wf(v, m);
    }
}

/// A guest occurring in a channel's subscriber list declared that
/// channel.
proof fn lemma_occurrence_declares(v: EngineV, lst: Seq<usize>, c: ChanV, g: int)
    requires
        engine_wf(v),
        lst == sub_list(v, c),
        occurrences(lst, g) > 0,
        0 <= g < v.guests.len(),
    ensures
        declares(v.guests[g].systems, c),
{
    if key_idx_exists(v.subs, c) {
        let si = key_idx(v.subs, c);
        lemma_occurrences_member(v.subs[si].1, g);
        let k = choose|k: int| 0 <= k < v.subs[si].1.len() && v.subs[si].1[k] as int == g;
        assert(declares(v.guests[v.subs[si].1[k] as int].systems, v.subs[si].0));
    } else {
        lemma_occurrences_member(lst, g);
        assert(false);
    }
}

/// A positive occurrence count means the value occurs.
proof fn lemma_occurrences_member(lst: Seq<usize>, g: int)
    requires
        occurrences(lst, g) > 0,
    ensures
        exists|k: int| 0 <= k < lst.len() && lst[k] as int == g,
    decreases lst.len(),
{
    if lst.len() > 0 {
        if lst[0] as int == g {
            assert(lst[0] as int == g);
        } else {
            lemma_occurrences_member(lst.drop_first(), g);
            let k = choose|k: int|
                0 <= k < lst.drop_first().len() && lst.drop_first()[k] as int == g;
            assert(lst[k + 1] as int == g);
        }
    }
}

/// The engine after the host subscribes to `c`: a fresh empty queue in
/// the host inbox, or nothing where one exists.
pub open spec fn subscribe_spec(v: EngineV, c: ChanV) -> EngineV {
    if key_idx_exists(v.host_inbox, c) {
        v
    } else {
        EngineV { host_inbox: v.host_inbox.push((c, Seq::empty())), ..v }
    }
}

impl Engine {
    /// An engine hosting `num_guests` guest slots, none initialized,
    /// with an empty store and no routes.
    pub fn new(num_guests: usize, is_server: bool) -> (r: Engine)
        ensures
            engine_wf(r@),
            r@.guests.len() == num_guests,
            forall|g: int|
                0 <= g < num_guests ==> #[trigger] r@.guests[g] == (GuestV {
                    systems: Seq::empty(),
                    inbox: Seq::empty(),
                    outbox: Seq::empty(),
                    poisoned: false,
                }),
            r@.ecs.columns == Seq::<crate::ecs::ColV>::empty(),
            r@.subs == Seq::<(ChanV, Seq<usize>)>::empty(),
            r@.host_inbox == Seq::<(ChanV, Seq<MsgV>)>::empty(),
            r@.net_out == Seq::<MsgV>::empty(),
            r@.is_server == is_server,
            !r@.inited,
            r@.phase == PhaseV::Idle,
    {
        let mut guests: Vec<Guest> = Vec::new();
        let mut g: usize = 0;
        while g < num_guests
            invariant
                0 <= g <= num_guests,
                guests@.len() == g,
                forall|k: int|
                    0 <= k < g ==> #[trigger] guests@[k]@ == (GuestV {
                        systems: Seq::empty(),
                        inbox: Seq::empty(),
                        outbox: Seq::empty(),
                        poisoned: false,
                    }),
            decreases num_guests - g,
        {
            let guest = Guest {
                systems: Vec::new(),
                inbox: Vec::new(),
                outbox: Vec::new(),
                poisoned: false,
            };
            proof {
                assert(guest@.systems =~= Seq::<SysV>::empty());
                assert(guest@.inbox =~= Seq::<(ChanV, Seq<MsgV>)>::empty());
                assert(guest@.outbox =~= Seq::<MsgV>::empty());
            }
            guests.push(guest);
            g = g + 1;
        }
        let r = Engine {
            guests,
            ecs: Ecs::new(),
            subs: Vec::new(),
            host_inbox: Vec::new(),
            net_out: Vec::new(),
            is_server,
            inited: false,
            phase: Phase::Idle,
        };
        proof {
            assert(r@.subs =~= Seq::<(ChanV, Seq<usize>)>::empty());
            assert(r@.host_inbox =~= Seq::<(ChanV, Seq<MsgV>)>::empty());
            assert(r@.net_out =~= Seq::<MsgV>::empty());
            assert(engine_wf(r@));
        }
        r
    }

    /// How many guest slots the engine holds.
    pub fn guest_count(&self) -> (r: usize)
        ensures
            r == self@.guests.len(),
    {
        self.guests.len()
    }

    /// Delivers one message as if it were local: a clone to every
    /// subscriber of its channel, and one to the host inbox where the
    /// host has subscribed.
    fn route_local(&mut self, msg: MessageData)
        requires
            engine_wf(old(self)@),
        ensures
            engine_wf(final(self)@),
            final(self)@ == route_local_spec(old(self)@, msg@),
    {
        let ghost oldv = self@;
        let ghost m = msg@;
        match tbl_find(&self.subs, &msg.channel) {
            Some(si) => {
                proof {
                    assert(oldv.subs[si as int] == (self.subs@[si as int].0@, self.subs@[
                        si as int
                    ].1@));
                    lemma_key_idx_is(oldv.subs, m.channel, si as int);
                    assert(sub_list(oldv, m.channel) == oldv.subs[si as int].1);
                }
                let ghost lst = oldv.subs[si as int].1;
                proof {
                    assert forall|k: int| 0 <= k < lst.len() implies (#[trigger] lst[k])
                        < oldv.guests.len() by {
                        assert(oldv.subs[si as int].1[k] < oldv.guests.len());
                    }
                    assert(lst.skip(0) =~= lst);
                }
                let ndest = self.subs[si].1.len();
                let mut k: usize = 0;
                while k < ndest
                    invariant
                        0 <= k <= ndest,
                        si < self@.subs.len(),
                        self@.subs == oldv.subs,
                        self@.host_inbox == oldv.host_inbox,
                        self@.net_out == oldv.net_out,
                        self@.ecs == oldv.ecs,
                        self@.is_server == oldv.is_server,
                        self@.inited == oldv.inited,
                        self@.phase == oldv.phase,
                        self@.guests.len() == oldv.guests.len(),
                        engine_wf(oldv),
                        lst == oldv.subs[si as int].1,
                        ndest == lst.len(),
                        m == msg@,
                        forall|j: int|
                            0 <= j < self@.guests.len() ==> keys_unique(
                                (#[trigger] self@.guests[j]).inbox,
                            ),
                        forall|j: int| 0 <= j < lst.len() ==> (#[trigger] lst[j])
                            < oldv.guests.len(),
                        deliver_list(oldv.guests, lst, m) == deliver_list(
                            self@.guests,
                            lst.skip(k as int),
                            m,
                        ),
                    decreases ndest - k,
                {
                    let ghost pre = self@.guests;
                    let ghost rest = lst.skip(k as int);
                    proof {
                        assert(self.subs@[si as int].1@ == oldv.subs[si as int].1);
                        assert(rest[0] == lst[k as int]);
                        assert(rest.drop_first() =~= lst.skip(k as int + 1));
                    }
                    let j = self.subs[si].1[k];
                    let mclone = crate::types::clone_msg(&msg);
                    let ghost jinbox = self@.guests[j as int].inbox;
                    match tbl_find(&self.guests[j].inbox, &msg.channel) {
                        Some(ei) => {
                            proof {
                                assert(jinbox[ei as int] == (
                                    self.guests@[j as int].inbox@[ei as int].0@,
                                    crate::types::msgs_view(
                                        self.guests@[j as int].inbox@[ei as int].1@,
                                    ),
                                ));
                                lemma_key_idx_is(jinbox, m.channel, ei as int);
                            }
                            let ghost oldq = self.guests@[j as int].inbox@[ei as int].1@;
                            let gref = &mut self.guests[j];
                            let entry = &mut gref.inbox[ei];
                            entry.1.push(mclone);
                            proof {
                                crate::types::lemma_map_push(
                                    oldq,
                                    |x: MessageData| x@,
                                    mclone,
                                );
                                assert(self@.guests[j as int].inbox =~= tbl_append(
                                    jinbox,
                                    m.channel,
                                    m,
                                ));
                                assert(self@.guests[j as int] =~= guest_deliver(
                                    pre[j as int],
                                    m.channel,
                                    m,
                                ));
                                assert(self@.guests =~= pre.update(
                                    j as int,
                                    guest_deliver(pre[j as int], m.channel, m),
                                ));
                                lemma_tbl_append(jinbox, m.channel, m);
                            }
                        },
                        None => {
                            proof {
                                assert(!key_idx_exists(jinbox, m.channel)) by {
                                    if key_idx_exists(jinbox, m.channel) {
                                        let q = key_idx(jinbox, m.channel);
                                        assert(jinbox[q] == (
                                            self.guests@[j as int].inbox@[q].0@,
                                            crate::types::msgs_view(
                                                self.guests@[j as int].inbox@[q].1@,
                                            ),
                                        ));
                                        assert(self.guests@[j as int].inbox@[q].0@ != m.channel);
                                    }
                                }
                            }
                            let key = crate::types::clone_chan(&msg.channel);
                            let mut q: Vec<MessageData> = Vec::new();
                            q.push(mclone);
                            let gref = &mut self.guests[j];
                            gref.inbox.push((key, q));
                            proof {
                                assert(crate::types::msgs_view(q@) =~= seq![m]);
                                assert(self@.guests[j as int].inbox =~= tbl_append(
                                    jinbox,
                                    m.channel,
                                    m,
                                ));
                                assert(self@.guests[j as int] =~= guest_deliver(
                                    pre[j as int],
                                    m.channel,
                                    m,
                                ));
                                assert(self@.guests =~= pre.update(
                                    j as int,
                                    guest_deliver(pre[j as int], m.channel, m),
                                ));
                                lemma_tbl_append(jinbox, m.channel, m);
                            }
                        },
                    }
                    proof {
                        assert(deliver_list(pre, rest, m) == deliver_list(
                            self@.guests,
                            lst.skip(k as int + 1),
                            m,
                        ));
                    }
                    k = k + 1;
                }
                proof {
                    assert(lst.skip(ndest as int) =~= Seq::<usize>::empty());
                    assert(deliver_list(self@.guests, lst.skip(ndest as int), m) == self@.guests);
                    assert(self@.guests == deliver_list(oldv.guests, sub_list(oldv, m.channel), m));
                }
            },
            None => {
                proof {
                    assert(!key_idx_exists(oldv.subs, m.channel)) by {
                        if key_idx_exists(oldv.subs, m.channel) {
                            let q = key_idx(oldv.subs, m.channel);
                            assert(oldv.subs[q] == (self.subs@[q].0@, self.subs@[q].1@));
                            assert(self.subs@[q].0@ != m.channel);
                        }
                    }
                    assert(sub_list(oldv, m.channel) =~= Seq::<usize>::empty());
                    assert(deliver_list(oldv.guests, sub_list(oldv, m.channel), m)
                        == oldv.guests);
                }
            },
        }
        // host inbox: append where the host has subscribed
        let ghost mid = self@;
        match tbl_find(&self.host_inbox, &msg.channel) {
            Some(ei) => {
                proof {
                    assert(mid.host_inbox == oldv.host_inbox);
                    assert(oldv.host_inbox[ei as int] == (
                        self.host_inbox@[ei as int].0@,
                        crate::types::msgs_view(self.host_inbox@[ei as int].1@),
                    ));
                    lemma_key_idx_is(oldv.host_inbox, m.channel, ei as int);
                }
                let ghost oldq = self.host_inbox@[ei as int].1@;
                let entry = &mut self.host_inbox[ei];
                entry.1.push(msg);
                proof {
                    crate::types::lemma_map_push(oldq, |x: MessageData| x@, msg);
                    assert(self@.host_inbox =~= tbl_append(oldv.host_inbox, m.channel, m));
                    assert(self@ =~= route_local_spec(oldv, m));
                    lemma_route_local_wf(oldv, m);
                }
            },
            None => {
                proof {
                    assert(!key_idx_exists(oldv.host_inbox, m.channel)) by {
                        if key_idx_exists(oldv.host_inbox, m.channel) {
                            let q = key_idx(oldv.host_inbox, m.channel);
                            assert(oldv.host_inbox[q] == (
                                self.host_inbox@[q].0@,
                                crate::types::msgs_view(self.host_inbox@[q].1@),
                            ));
                            assert(self.host_inbox@[q].0@ != m.channel);
                        }
                    }
                    assert(self@ =~= route_local_spec(oldv, m));
                    lemma_route_local_wf(oldv, m);
                }
            },
        }
    }

    /// Routes one message: Remote channels queue for the network,
    /// Local channels fan out to subscribers and the host.
    fn broadcast(&mut self, msg: MessageData)
        requires
            engine_wf(old(self)@),
        ensures
            engine_wf(final(self)@),
            final(self)@ == broadcast_spec(old(self)@, msg@),
    {
        let ghost oldv = self@;
        let is_remote = match msg.channel.locality {
            Locality::Remote => true,
            Locality::Local => false,
        };
        if is_remote {
            self.net_out.push(msg);
            proof {
                assert(self@ =~= broadcast_spec(oldv, msg@));
                lemma_broadcast_wf(oldv, msg@);
            }
        } else {
            self.route_local(msg);
        }
    }

    /// Broadcasts a local message from the host: it reaches every
    /// subscriber of the channel and, where the host itself
    /// subscribed, the host inbox.
    pub fn send(&mut self, channel: ChannelId, data: Vec<u8>)
        requires
            engine_wf(old(self)@),
        ensures
            engine_wf(final(self)@),
            final(self)@ == broadcast_spec(
                old(self)@,
                MsgV { channel: channel@, data: data@, client: None },
            ),
    {
        let msg = MessageData { channel, data, client: None };
        self.broadcast(msg);
    }

    /// Registers the channel in the host's external inbox, so that
    /// local messages on it accumulate for [`Engine::inbox`].
    pub fn subscribe(&mut self, channel: ChannelId)
        requires
            engine_wf(old(self)@),
        ensures
            engine_wf(final(self)@),
            final(self)@ == subscribe_spec(old(self)@, channel@),
    {
        let ghost oldv = self@;
        match tbl_find(&self.host_inbox, &channel) {
            Some(ei) => {
                proof {
                    assert(oldv.host_inbox[ei as int] == (
                        self.host_inbox@[ei as int].0@,
                        crate::types::msgs_view(self.host_inbox@[ei as int].1@),
                    ));
                    assert(key_idx_exists(oldv.host_inbox, channel@));
                }
            },
            None => {
                proof {
                    assert(!key_idx_exists(oldv.host_inbox, channel@)) by {
                        if key_idx_exists(oldv.host_inbox, channel@) {
                            let q = key_idx(oldv.host_inbox, channel@);
                            assert(oldv.host_inbox[q] == (
                                self.host_inbox@[q].0@,
                                crate::types::msgs_view(self.host_inbox@[q].1@),
                            ));
                            assert(self.host_inbox@[q].0@ != channel@);
                        }
                    }
                }
                let q: Vec<MessageData> = Vec::new();
                self.host_inbox.push((channel, q));
                proof {
                    assert(crate::types::msgs_view(q@) =~= Seq::<MsgV>::empty());
                    assert(self@.host_inbox =~= oldv.host_inbox.push(
                        (channel@, Seq::<MsgV>::empty()),
                    ));
                    assert(self@ =~= subscribe_spec(oldv, channel@));
                    assert forall|a: int, b: int|
                        0 <= a < b < self@.host_inbox.len() implies self@.host_inbox[a].0
                        != self@.host_inbox[b].0 by {
                        if b < oldv.host_inbox.len() {
                            assert(oldv.host_inbox[a].0 != oldv.host_inbox[b].0);
                        } else {
                            if oldv.host_inbox[a].0 == channel@ {
                                assert(key_idx_exists(oldv.host_inbox, channel@));
                            }
                        }
                    }
                    assert(engine_wf(self@));
                }
            },
        }
    }

    /// Whether the host has subscribed to the channel.
    pub fn is_subscribed(&self, channel: &ChannelId) -> (r: bool)
        ensures
            r <==> key_idx_exists(self@.host_inbox, channel@),
    {
        match tbl_find(&self.host_inbox, channel) {
            Some(ei) => {
                proof {
                    assert(self@.host_inbox[ei as int] == (
                        self.host_inbox@[ei as int].0@,
                        crate::types::msgs_view(self.host_inbox@[ei as int].1@),
                    ));
                }
                true
            },
            None => {
                proof {
                    if key_idx_exists(self@.host_inbox, channel@) {
                        let q = key_idx(self@.host_inbox, channel@);
                        assert(self@.host_inbox[q] == (
                            self.host_inbox@[q].0@,
                            crate::types::msgs_view(self.host_inbox@[q].1@),
                        ));
                        assert(self.host_inbox@[q].0@ != channel@);
                    }
                }
                false
            },
        }
    }

    /// Drains every message the host inbox accumulated on the channel,
    /// oldest first. The host must have subscribed to it.
    pub fn inbox(&mut self, channel: &ChannelId) -> (r: Vec<MessageData>)
        requires
            engine_wf(old(self)@),
            key_idx_exists(old(self)@.host_inbox, channel@),
        ensures
            engine_wf(final(self)@),
            msgs_view(r@) == tbl_get(old(self)@.host_inbox, channel@)->Some_0,
            final(self)@ == (EngineV {
                host_inbox: old(self)@.host_inbox.update(
                    key_idx(old(self)@.host_inbox, channel@),
                    (channel@, Seq::<MsgV>::empty()),
                ),
                ..old(self)@
            }),
    {
        let ghost oldv = self@;
        match tbl_find(&self.host_inbox, channel) {
            Some(ei) => {
                proof {
                    assert(oldv.host_inbox[ei as int] == (
                        self.host_inbox@[ei as int].0@,
                        crate::types::msgs_view(self.host_inbox@[ei as int].1@),
                    ));
                    lemma_key_idx_is(oldv.host_inbox, channel@, ei as int);
                }
                let mut out: Vec<MessageData> = Vec::new();
                let entry = &mut self.host_inbox[ei];
                core::mem::swap(&mut out, &mut entry.1);
                proof {
                    assert(crate::types::msgs_view(Seq::<MessageData>::empty()) =~= Seq::<
                        MsgV,
                    >::empty());
                    assert(self@.host_inbox =~= oldv.host_inbox.update(
                        key_idx(oldv.host_inbox, channel@),
                        (channel@, Seq::<MsgV>::empty()),
                    ));
                    assert(self@ =~= (EngineV {
                        host_inbox: oldv.host_inbox.update(
                            key_idx(oldv.host_inbox, channel@),
                            (channel@, Seq::<MsgV>::empty()),
                        ),
                        ..oldv
                    }));
                    assert forall|a: int, b: int|
                        0 <= a < b < self@.host_inbox.len() implies self@.host_inbox[a].0
                        != self@.host_inbox[b].0 by {
                        assert(oldv.host_inbox[a].0 != oldv.host_inbox[b].0);
                    }
                    assert(engine_wf(self@));
                }
                out
            },
            None => {
                proof {
                    let q = key_idx(oldv.host_inbox, channel@);
                    assert(oldv.host_inbox[q] == (
                        self.host_inbox@[q].0@,
                        crate::types::msgs_view(self.host_inbox@[q].1@),
                    ));
                    assert(self.host_inbox@[q].0@ != channel@);
                    assert(false);
                }
                Vec::new()
            },
        }
    }

    /// Injects an inbound remote message: it is routed as if it were a
    /// local message of its channel.
    pub fn network_inbox_push(&mut self, msg: MessageData)
        requires
            engine_wf(old(self)@),
        ensures
            engine_wf(final(self)@),
            final(self)@ == route_local_spec(old(self)@, msg@),
    {
        self.route_local(msg);
    }

    /// Hands over every message awaiting the remote transport, in
    /// emission order, leaving the network outbox empty.
    pub fn network_outbox_drain(&mut self) -> (r: Vec<MessageData>)
        requires
            engine_wf(old(self)@),
        ensures
            engine_wf(final(self)@),
            msgs_view(r@) == old(self)@.net_out,
            final(self)@ == (EngineV { net_out: Seq::empty(), ..old(self)@ }),
    {
        let ghost oldv = self@;
        let mut out: Vec<MessageData> = Vec::new();
        core::mem::swap(&mut out, &mut self.net_out);
        proof {
            assert(crate::types::msgs_view(Seq::<MessageData>::empty()) =~= Seq::<MsgV>::empty());
            assert(self@ =~= (EngineV { net_out: Seq::empty(), ..oldv }));
            assert(engine_wf(self@));
        }
        out
    }

    /// Direct mutable access to the store for host-side code. The
    /// engine stays well formed as long as the store is left well
    /// formed, which every store method guarantees.
    pub fn ecs(&mut self) -> (r: &mut Ecs)
        requires
            engine_wf(old(self)@),
        ensures
            r@ == old(self)@.ecs,
            ecs_wf(r@),
            final(self)@ == (EngineV { ecs: final(r)@, ..old(self)@ }),
            ecs_wf(final(r)@) ==> engine_wf(final(self)@),
    {
        &mut self.ecs
    }
}

/// Law: a guest whose declared systems carry no subscriptions has an
/// empty inbox in every well-formed engine state.
pub proof fn lemma_no_subscriptions_empty_inbox(v: EngineV, g: int)
    requires
        engine_wf(v),
        0 <= g < v.guests.len(),
        forall|i: int|
            0 <= i < v.guests[g].systems.len() ==> (#[trigger] v.guests[g].systems[
                i
            ]).subscriptions.len() == 0,
    ensures
        v.guests[g].inbox.len() == 0,
        forall|c: ChanV| tbl_get(v.guests[g].inbox, c) is None,
{
    if v.guests[g].inbox.len() > 0 {
        assert(declares(v.guests[g].systems, v.guests[g].inbox[0].0));
        let (i, k): (int, int) = choose|i: int, k: int|
            0 <= i < v.guests[g].systems.len() && 0 <= k < v.guests[g].systems[
                i
            ].subscriptions.len() && (#[trigger] v.guests[g].systems[i].subscriptions[k])
                == v.guests[g].inbox[0].0;
        assert(false);
    }
    assert forall|c: ChanV| tbl_get(v.guests[g].inbox, c) is None by {
        if key_idx_exists(v.guests[g].inbox, c) {
            let k = key_idx(v.guests[g].inbox, c);
            assert(0 <= k < v.guests[g].inbox.len());
        }
    }
}

/// The engine with guest `g`'s inbox drained.
pub open spec fn drain_inbox(v: EngineV, g: int) -> EngineV {
    EngineV {
        guests: v.guests.update(
            g,
            GuestV { inbox: Seq::empty(), ..v.guests[g] },
        ),
        ..v
    }
}

/// Routing a whole queue of messages, in order.
pub open spec fn route_msgs(v: EngineV, msgs: Seq<MsgV>) -> EngineV
    decreases msgs.len(),
{
    if msgs.len() == 0 {
        v
    } else {
        route_msgs(broadcast_spec(v, msgs[0]), msgs.drop_first())
    }
}

/// The engine with guest `g`'s outbox cleared.
pub open spec fn clear_outbox(v: EngineV, g: int) -> EngineV {
    EngineV {
        guests: v.guests.update(
            g,
            GuestV { outbox: Seq::empty(), ..v.guests[g] },
        ),
        ..v
    }
}

/// One propagation pass from guest `g` on: each guest's outbox is
/// drained and routed in emission order, guests in index order.
pub open spec fn propagate_from(v: EngineV, g: int) -> EngineV
    decreases v.guests.len() - g via propagate_from_decreases
{
    if g < 0 || g >= v.guests.len() {
        v
    } else {
        propagate_from(route_msgs(clear_outbox(v, g), v.guests[g].outbox), g + 1)
    }
}

#[via_fn]
proof fn propagate_from_decreases(v: EngineV, g: int) {
    if !(g < 0 || g >= v.guests.len()) {
        lemma_route_msgs_len(clear_outbox(v, g), v.guests[g].outbox);
    }
}

/// Routing never changes how many guests are loaded.
proof fn lemma_deliver_list_len(guests: Seq<GuestV>, lst: Seq<usize>, m: MsgV)
    ensures
        deliver_list(guests, lst, m).len() == guests.len(),
    decreases lst.len(),
{
    if lst.len() > 0 {
        let j = lst[0] as int;
        let gs2 = if 0 <= j < guests.len() {
            guests.update(j, guest_deliver(guests[j], m.channel, m))
        } else {
            guests
        };
        lemma_deliver_list_len(gs2, lst.drop_first(), m);
    }
}

/// Routing a queue never changes how many guests are loaded.
proof fn lemma_route_msgs_len(v: EngineV, msgs: Seq<MsgV>)
    ensures
        route_msgs(v, msgs).guests.len() == v.guests.len(),
    decreases msgs.len(),
{
    if msgs.len() > 0 {
        let v2 = broadcast_spec(v, msgs[0]);
        if msgs[0].channel.loc == Locality::Remote {
        } else {
            lemma_deliver_list_len(v.guests, sub_list(v, msgs[0].channel), msgs[0]);
        }
        lemma_route_msgs_len(v2, msgs.drop_first());
    }
}

/// A guest's reply is owed.
pub open spec fn awaiting(v: EngineV) -> bool {
    match v.phase {
        PhaseV::InitAwait(_) => true,
        PhaseV::StageAwait(_, _, _, _) => true,
        _ => false,
    }
}

/// The next runnable (guest, system) pair at or after `(g, s)`:
/// poisoned guests are skipped whole, other guests contribute their
/// systems of the requested stage in declaration order.
pub open spec fn next_runnable(v: EngineV, stage: Stage, g: int, s: int) -> Option<(int, int)>
    decreases v.guests.len() - g, v.guests[g].systems.len() - s,
{
    if g < 0 || s < 0 || g >= v.guests.len() {
        None
    } else if v.guests[g].poisoned || s >= v.guests[g].systems.len() {
        next_runnable(v, stage, g + 1, 0)
    } else if v.guests[g].systems[s].stage == stage {
        Some((g, s))
    } else {
        next_runnable(v, stage, g, s + 1)
    }
}

/// Routing a queue touches no outbox, no system list, no poison flag
/// and no scheduler state.
pub proof fn lemma_route_msgs_frames(v: EngineV, msgs: Seq<MsgV>)
    requires
        engine_wf(v),
    ensures
        engine_wf(route_msgs(v, msgs)),
        route_msgs(v, msgs).guests.len() == v.guests.len(),
        forall|g: int|
            0 <= g < v.guests.len() ==> (#[trigger] route_msgs(v, msgs).guests[g]).systems
                == v.guests[g].systems && route_msgs(v, msgs).guests[g].outbox == v.guests[
                g
            ].outbox && route_msgs(v, msgs).guests[g].poisoned == v.guests[g].poisoned,
        route_msgs(v, msgs).subs == v.subs,
        route_msgs(v, msgs).inited == v.inited,
        route_msgs(v, msgs).phase == v.phase,
        route_msgs(v, msgs).is_server == v.is_server,
    decreases msgs.len(),
{
    if msgs.len() == 0 {
    } else {
        lemma_broadcast_wf(v, msgs[0]);
        lemma_route_msgs_frames(broadcast_spec(v, msgs[0]), msgs.drop_first());
    }
}

/// Law: a finished propagation pass leaves every guest outbox empty —
/// all emitted messages have moved to subscriber inboxes, the host
/// inbox or the network outbox, and one without a destination is
/// dropped after its warning; no buffer inside the engine keeps it.
pub proof fn lemma_propagate_no_orphans(v: EngineV, g: int)
    requires
        engine_wf(v),
        0 <= g <= v.guests.len(),
        forall|k: int| 0 <= k < g ==> (#[trigger] v.guests[k]).outbox.len() == 0,
    ensures
        engine_wf(propagate_from(v, g)),
        propagate_from(v, g).guests.len() == v.guests.len(),
        forall|k: int|
            0 <= k < v.guests.len() ==> (#[trigger] propagate_from(v, g).guests[
                k
            ]).outbox.len() == 0,
        propagate_from(v, g).subs == v.subs,
        propagate_from(v, g).inited == v.inited,
        propagate_from(v, g).phase == v.phase,
        propagate_from(v, g).is_server == v.is_server,
        forall|k: int|
            0 <= k < v.guests.len() ==> (#[trigger] propagate_from(v, g).guests[k]).systems
                == v.guests[k].systems && propagate_from(v, g).guests[k].poisoned == v.guests[
                k
            ].poisoned,
    decreases v.guests.len() - g,
{
    if g >= v.guests.len() {
    } else {
        let cleared = clear_outbox(v, g);
        assert(engine_wf(cleared)) by {
            assert forall|gg: int, ei: int|
                0 <= gg < cleared.guests.len() && 0 <= ei < cleared.guests[gg].inbox.len()
                    implies declares(
                cleared.guests[gg].systems,
                (#[trigger] cleared.guests[gg].inbox[ei]).0,
            ) by {
                assert(declares(v.guests[gg].systems, v.guests[gg].inbox[ei].0));
            }
            assert forall|si: int, k: int|
                0 <= si < cleared.subs.len() && 0 <= k < cleared.subs[si].1.len() implies (
            #[trigger] cleared.subs[si].1[k]) < cleared.guests.len() && declares(
                cleared.guests[cleared.subs[si].1[k] as int].systems,
                cleared.subs[si].0,
            ) by {
                assert(v.subs[si].1[k] < v.guests.len());
                assert(declares(v.guests[v.subs[si].1[k] as int].systems, v.subs[si].0));
            }
        }
        let mid = route_msgs(cleared, v.guests[g].outbox);
        lemma_route_msgs_frames(cleared, v.guests[g].outbox);
        lemma_propagate_no_orphans(mid, g + 1);
    }
}

impl Engine {
    /// Begins the init pass. It must run exactly once, before any
    /// stage dispatch; each guest's first turn is then handed out by
    /// [`Engine::next_turn`].
    pub fn init_plugins(&mut self)
        requires
            engine_wf(old(self)@),
            !old(self)@.inited,
            old(self)@.phase == PhaseV::Idle,
        ensures
            engine_wf(final(self)@),
            final(self)@ == (EngineV {
                inited: true,
                phase: PhaseV::InitNext(0),
                ..old(self)@
            }),
    {
        self.inited = true;
        self.phase = Phase::InitNext(0);
        proof {
            assert(final(self)@ =~= (EngineV {
                inited: true,
                phase: PhaseV::InitNext(0),
                ..old(self)@
            }));
        }
    }

    /// Begins one stage pass: every declared system of the stage will
    /// get a turn, guests in index order, systems in declaration
    /// order, poisoned guests skipped.
    pub fn dispatch(&mut self, stage: Stage)
        requires
            engine_wf(old(self)@),
            old(self)@.inited,
            old(self)@.phase == PhaseV::Idle,
        ensures
            engine_wf(final(self)@),
            final(self)@ == (EngineV {
                phase: PhaseV::StageNext(stage, 0, 0),
                ..old(self)@
            }),
    {
        self.phase = Phase::StageNext(stage, 0, 0);
        proof {
            assert(final(self)@ =~= (EngineV {
                phase: PhaseV::StageNext(stage, 0, 0),
                ..old(self)@
            }));
        }
    }

    /// Scans for the next runnable system of the stage.
    fn scan(&self, stage: Stage, g: usize, s: usize) -> (r: Option<(usize, usize)>)
        ensures
            match r {
                Some((rg, rs)) => next_runnable(self@, stage, g as int, s as int) == Some(
                    (rg as int, rs as int),
                ),
                None => next_runnable(self@, stage, g as int, s as int) is None,
            },
        decreases self@.guests.len() - g, self@.guests[g as int].systems.len() - s,
    {
        if g >= self.guests.len() {
            None
        } else if self.guests[g].poisoned || s >= self.guests[g].systems.len() {
            proof {
                assert(self@.guests[g as int] == self.guests@[g as int]@);
            }
            self.scan(stage, g + 1, 0)
        } else {
            proof {
                assert(self@.guests[g as int] == self.guests@[g as int]@);
                assert(self@.guests[g as int].systems[s as int] == self.guests@[
                    g as int
                ].systems@[s as int]@);
            }
            let same = match (self.guests[g].systems[s].stage, stage) {
                (Stage::PreUpdate, Stage::PreUpdate) => true,
                (Stage::Update, Stage::Update) => true,
                (Stage::PostUpdate, Stage::PostUpdate) => true,
                _ => false,
            };
            if same {
                Some((g, s))
            } else {
                self.scan(stage, g, s + 1)
            }
        }
    }
}

/// The subscription index after appending guest `g` under every
/// channel in `chans` from position `k` on, in order.
pub open spec fn add_chans(
    subs: Seq<(ChanV, Seq<usize>)>,
    chans: Seq<ChanV>,
    g: usize,
    k: int,
) -> Seq<(ChanV, Seq<usize>)>
    decreases chans.len() - k,
{
    if k < 0 || k >= chans.len() {
        subs
    } else {
        add_chans(tbl_append(subs, chans[k], g), chans, g, k + 1)
    }
}

/// The subscription index after registering every subscription of the
/// systems from position `i` on for guest `g`.
pub open spec fn add_subs(
    subs: Seq<(ChanV, Seq<usize>)>,
    systems: Seq<SysV>,
    g: usize,
    i: int,
) -> Seq<(ChanV, Seq<usize>)>
    decreases systems.len() - i,
{
    if i < 0 || i >= systems.len() {
        subs
    } else {
        add_subs(add_chans(subs, systems[i].subscriptions, g, 0), systems, g, i + 1)
    }
}

/// A subscription index fit for the engine invariant: unique keys and
/// every entry below `bound`, pointing at a loaded guest that declared
/// the entry's channel.
pub open spec fn subs_ok(
    subs: Seq<(ChanV, Seq<usize>)>,
    guests: Seq<GuestV>,
    bound: int,
) -> bool {
    &&& keys_unique(subs)
    &&& forall|si: int, k: int|
        0 <= si < subs.len() && 0 <= k < subs[si].1.len() ==> (#[trigger] subs[si].1[k]) < bound
            && subs[si].1[k] < guests.len() && declares(
            guests[subs[si].1[k] as int].systems,
            subs[si].0,
        )
}

/// Registering one guest under channels it declared keeps the index
/// fit.
proof fn lemma_add_chans_ok(
    subs: Seq<(ChanV, Seq<usize>)>,
    chans: Seq<ChanV>,
    g: usize,
    k: int,
    guests: Seq<GuestV>,
    bound: int,
)
    requires
        subs_ok(subs, guests, bound),
        g < bound,
        g < guests.len(),
        forall|kk: int|
            0 <= kk < chans.len() ==> declares(guests[g as int].systems, #[trigger] chans[kk]),
    ensures
        subs_ok(add_chans(subs, chans, g, k), guests, bound),
    decreases chans.len() - k,
{
    if k < 0 || k >= chans.len() {
    } else {
        lemma_tbl_append(subs, chans[k], g);
        let mid = tbl_append(subs, chans[k], g);
        assert forall|si: int, kk: int|
            0 <= si < mid.len() && 0 <= kk < mid[si].1.len() implies (#[trigger] mid[si].1[kk])
            < bound && mid[si].1[kk] < guests.len() && declares(
            guests[mid[si].1[kk] as int].systems,
            mid[si].0,
        ) by {
            if si < subs.len() && kk < subs[si].1.len() && mid[si].1[kk] == subs[si].1[kk] {
                assert(subs[si].1[kk] < bound);
                if mid[si].0 == subs[si].0 {
                } else {
                    assert(mid[si].0 == chans[k]);
                    assert(key_idx_exists(subs, chans[k]));
                    lemma_key_idx_is(subs, chans[k], si);
                    assert(mid[si].0 == subs[si].0);
                }
            } else {
                assert(mid[si].1[kk] == g);
                assert((si < subs.len() && mid[si].0 == subs[si].0) || mid[si].0 == chans[k]);
                if si < subs.len() && mid[si].0 == subs[si].0 {
                    // g was appended into the queue of an existing key,
                    // which must be the key of the appended channel
                    if key_idx_exists(subs, chans[k]) {
                        let ki = key_idx(subs, chans[k]);
                        if si == ki {
                            assert(declares(guests[g as int].systems, chans[k]));
                            assert(mid[si].0 == chans[k]);
                        } else {
                            assert(mid[si] == subs[si]);
                            assert(subs[si].1[kk] == g || kk >= subs[si].1.len());
                            if kk < subs[si].1.len() {
                                assert(subs[si].1[kk] < bound);
                                assert(declares(guests[subs[si].1[kk] as int].systems, subs[si].0));
                            } else {
                                assert(false);
                            }
                        }
                    } else {
                        if si < subs.len() {
                            assert(mid[si] == subs[si]);
                            if kk < subs[si].1.len() {
                            } else {
                                assert(false);
                            }
                        }
                    }
                } else {
                    assert(mid[si].0 == chans[k]);
                    assert(declares(guests[g as int].systems, chans[k]));
                }
            }
        }
        lemma_add_chans_ok(mid, chans, g, k + 1, guests, bound);
    }
}

/// Registering every subscription of a guest's declared systems keeps
/// the index fit.
proof fn lemma_add_subs_ok(
    subs: Seq<(ChanV, Seq<usize>)>,
    systems: Seq<SysV>,
    g: usize,
    i: int,
    guests: Seq<GuestV>,
    bound: int,
)
    requires
        subs_ok(subs, guests, bound),
        g < bound,
        g < guests.len(),
        guests[g as int].systems == systems,
    ensures
        subs_ok(add_subs(subs, systems, g, i), guests, bound),
    decreases systems.len() - i,
{
    if i < 0 || i >= systems.len() {
    } else {
        assert forall|kk: int|
            0 <= kk < systems[i].subscriptions.len() implies declares(
            guests[g as int].systems,
            #[trigger] systems[i].subscriptions[kk],
        ) by {
            assert(guests[g as int].systems[i].subscriptions[kk] == systems[i].subscriptions[kk]);
        }
        lemma_add_chans_ok(subs, systems[i].subscriptions, g, 0, guests, bound);
        lemma_add_subs_ok(add_chans(subs, systems[i].subscriptions, g, 0), systems, g, i + 1, guests, bound);
    }
}

/// What a guest hands back for one turn, or that its run failed.
pub enum TurnOutcome {
    /// The decoded reply.
    Response(crate::types::SendBuf),
    /// The guest trapped, overran its sandbox, or returned bytes that
    /// do not decode.
    Fault,
}

/// The engine after applying one init reply of guest `g`, with the
/// error (if any) that aborted the pass: the commands are replayed
/// first; on success the guest's declared systems are recorded, its
/// subscriptions registered, and its outbox staged for propagation.
pub open spec fn init_apply_spec(v: EngineV, g: int, sb: crate::types::SendV) -> (
    EngineV,
    Option<crate::types::EngineError>,
) {
    let outcome = crate::commands::apply_commands(v.ecs, sb.commands);
    if outcome.1 is Some {
        (EngineV { ecs: outcome.0, phase: PhaseV::Idle, ..v }, outcome.1)
    } else {
        (
            EngineV {
                ecs: outcome.0,
                guests: v.guests.update(
                    g,
                    GuestV { systems: sb.systems, outbox: sb.outbox, ..v.guests[g] },
                ),
                subs: add_subs(v.subs, sb.systems, g as usize, 0),
                phase: PhaseV::InitNext((g + 1) as usize),
                ..v
            },
            None::<crate::types::EngineError>,
        )
    }
}

/// The engine after applying one stage reply of guest `g`, system
/// `s`, with the error (if any) that aborted the pass: the write
/// columns are checked against the recorded rows and replayed, then
/// the commands; on success the guest's outbox is staged and the scan
/// moves past the system.
pub open spec fn stage_apply_spec(
    v: EngineV,
    stage: Stage,
    g: int,
    s: int,
    rows: Seq<u128>,
    sb: crate::types::SendV,
) -> (EngineV, Option<crate::types::EngineError>) {
    let terms = v.guests[g].systems[s].query;
    if !crate::query::shape_ok(terms, rows, sb.ecs.columns) {
        (
            EngineV { phase: PhaseV::Idle, ..v },
            Some(crate::types::EngineError::QueryShapeMismatch),
        )
    } else {
        let wr = crate::commands::apply_commands(
            v.ecs,
            crate::query::write_cmds(terms, rows, sb.ecs.columns, 0),
        );
        if wr.1 is Some {
            (EngineV { ecs: wr.0, phase: PhaseV::Idle, ..v }, wr.1)
        } else {
            let cr = crate::commands::apply_commands(wr.0, sb.commands);
            if cr.1 is Some {
                (EngineV { ecs: cr.0, phase: PhaseV::Idle, ..v }, cr.1)
            } else {
                (
                    EngineV {
                        ecs: cr.0,
                        guests: v.guests.update(g, GuestV { outbox: sb.outbox, ..v.guests[g] }),
                        phase: PhaseV::StageNext(stage, g as usize, (s + 1) as usize),
                        ..v
                    },
                    None::<crate::types::EngineError>,
                )
            }
        }
    }
}

impl Engine {
    /// Drains every guest outbox through the router, guests in index
    /// order, messages in emission order.
    fn propagate(&mut self)
        requires
            engine_wf(old(self)@),
        ensures
            engine_wf(final(self)@),
            final(self)@ == propagate_from(old(self)@, 0),
    {
        let ghost oldv = self@;
        let n = self.guests.len();
        let mut g: usize = 0;
        while g < n
            invariant
                0 <= g <= n,
                n == self@.guests.len(),
                engine_wf(self@),
                propagate_from(oldv, 0) == propagate_from(self@, g as int),
            decreases n - g,
        {
            let ghost atstart = self@;
            let mut out: Vec<MessageData> = Vec::new();
            let gref = &mut self.guests[g];
            core::mem::swap(&mut out, &mut gref.outbox);
            let ghost msgsv = msgs_view(out@);
            proof {
                assert(msgs_view(Seq::<MessageData>::empty()) =~= Seq::<MsgV>::empty());
                assert(self@.guests[g as int] =~= (GuestV {
                    outbox: Seq::empty(),
                    ..atstart.guests[g as int]
                }));
                assert(self@ =~= clear_outbox(atstart, g as int));
                assert(engine_wf(self@)) by {
                    assert forall|gg: int, ei: int|
                        0 <= gg < self@.guests.len() && 0 <= ei < self@.guests[gg].inbox.len()
                            implies declares(
                        self@.guests[gg].systems,
                        (#[trigger] self@.guests[gg].inbox[ei]).0,
                    ) by {
                        assert(declares(atstart.guests[gg].systems, atstart.guests[gg].inbox[ei].0));
                    }
                    assert forall|si: int, k: int|
                        0 <= si < self@.subs.len() && 0 <= k < self@.subs[si].1.len() implies (
                    #[trigger] self@.subs[si].1[k]) < self@.guests.len() && declares(
                        self@.guests[self@.subs[si].1[k] as int].systems,
                        self@.subs[si].0,
                    ) by {
                        assert(atstart.subs[si].1[k] < atstart.guests.len());
                        assert(declares(
                            atstart.guests[atstart.subs[si].1[k] as int].systems,
                            atstart.subs[si].0,
                        ));
                    }
                }
                assert(msgsv.skip(0) =~= msgsv);
            }
            let ghost mid = self@;
            let nm = out.len();
            let mut k: usize = 0;
            while k < nm
                invariant
                    0 <= k <= nm,
                    nm == out@.len(),
                    msgsv == msgs_view(out@),
                    engine_wf(self@),
                    route_msgs(mid, msgsv) == route_msgs(self@, msgsv.skip(k as int)),
                decreases nm - k,
            {
                let ghost pre = self@;
                let ghost rest = msgsv.skip(k as int);
                proof {
                    assert(rest[0] == msgsv[k as int]);
                    assert(msgsv[k as int] == out@[k as int]@);
                    assert(rest.drop_first() =~= msgsv.skip(k as int + 1));
                }
                let m = crate::types::clone_msg(&out[k]);
                self.broadcast(m);
                proof {
                    assert(route_msgs(pre, rest) == route_msgs(self@, msgsv.skip(k as int + 1)));
                }
                k = k + 1;
            }
            proof {
                assert(msgsv.skip(nm as int) =~= Seq::<MsgV>::empty());
                assert(route_msgs(self@, msgsv.skip(nm as int)) == self@);
                assert(self@ == route_msgs(mid, msgsv));
                lemma_route_msgs_len(mid, msgsv);
                assert(self@.guests.len() == n);
                assert(atstart.guests[g as int].outbox == msgsv);
                assert(propagate_from(atstart, g as int) == propagate_from(self@, g as int + 1));
            }
            g = g + 1;
        }
        proof {
            assert(propagate_from(self@, n as int) == self@);
        }
    }

    /// Hands out the next turn of the running pass: the guest's index
    /// and its request, with the guest's inbox drained into it. When
    /// the pass has no turns left, one propagation pass routes every
    /// emitted message, the engine goes idle and `None` comes back;
    /// with no pass running, `None` comes back and nothing changes.
    pub fn next_turn(&mut self) -> (r: Option<(usize, crate::types::ReceiveBuf)>)
        requires
            engine_wf(old(self)@),
            !awaiting(old(self)@),
        ensures
            engine_wf(final(self)@),
            match old(self)@.phase {
                PhaseV::Idle => r is None && final(self)@ == old(self)@,
                PhaseV::InitNext(g) => if g == old(self)@.guests.len() {
                    r is None && final(self)@ == (EngineV {
                        phase: PhaseV::Idle,
                        ..propagate_from(old(self)@, 0)
                    })
                } else {
                    match r {
                        Some(p) => p.0 == g && p.1@ == (crate::types::RecvV {
                            system: None,
                            inbox: old(self)@.guests[g as int].inbox,
                            ecs: crate::types::EcsDataV {
                                entities: Seq::empty(),
                                columns: Seq::empty(),
                            },
                            is_server: old(self)@.is_server,
                        }) && final(self)@ == (EngineV {
                            guests: old(self)@.guests.update(
                                g as int,
                                GuestV { inbox: Seq::empty(), ..old(self)@.guests[g as int] },
                            ),
                            phase: PhaseV::InitAwait(g),
                            ..old(self)@
                        }),
                        None => false,
                    }
                },
                PhaseV::StageNext(stage, g0, s0) => match next_runnable(
                    old(self)@,
                    stage,
                    g0 as int,
                    s0 as int,
                ) {
                    None => r is None && final(self)@ == (EngineV {
                        phase: PhaseV::Idle,
                        ..propagate_from(old(self)@, 0)
                    }),
                    Some((g, s)) => {
                        let terms = old(self)@.guests[g].systems[s].query;
                        let rows = crate::query::query_rows(old(self)@.ecs, terms);
                        match r {
                            Some(p) => p.0 == g && p.1@ == (crate::types::RecvV {
                                system: Some(s as u64),
                                inbox: old(self)@.guests[g].inbox,
                                ecs: crate::types::EcsDataV {
                                    entities: rows,
                                    columns: crate::query::query_cols(old(self)@.ecs, terms, rows),
                                },
                                is_server: old(self)@.is_server,
                            }) && final(self)@ == (EngineV {
                                guests: old(self)@.guests.update(
                                    g,
                                    GuestV { inbox: Seq::empty(), ..old(self)@.guests[g] },
                                ),
                                phase: PhaseV::StageAwait(stage, g as usize, s as usize, rows),
                                ..old(self)@
                            }),
                            None => false,
                        }
                    },
                },
                _ => false,
            },
    {
        let ghost oldv = self@;
        let (is_init, is_stage) = match &self.phase {
            Phase::Idle => (false, false),
            Phase::InitNext(_) => (true, false),
            Phase::StageNext(_, _, _) => (false, true),
            _ => (false, false),
        };
        if is_init {
            let g = match &self.phase {
                Phase::InitNext(g) => *g,
                _ => 0,
            };
            if g == self.guests.len() {
                self.phase = Phase::Idle;
                proof {
                    assert(self@ =~= (EngineV { phase: PhaseV::Idle, ..oldv }));
                    assert(propagate_from(self@, 0) =~= (EngineV {
                        phase: PhaseV::Idle,
                        ..propagate_from(oldv, 0)
                    })) by {
                        lemma_propagate_phase_only(oldv, self@, 0);
                    }
                }
                self.propagate();
                return None;
            }
            let mut inbox: Vec<(ChannelId, Vec<MessageData>)> = Vec::new();
            let gref = &mut self.guests[g];
            core::mem::swap(&mut inbox, &mut gref.inbox);
            self.phase = Phase::InitAwait(g);
            let buf = crate::types::ReceiveBuf {
                system: None,
                inbox,
                ecs: crate::types::EcsData::empty(),
                is_server: self.is_server,
            };
            proof {
                assert(inbox_tbl_view(Seq::<(ChannelId, Vec<MessageData>)>::empty()) =~= Seq::<
                    (ChanV, Seq<MsgV>),
                >::empty());
                assert(buf@.inbox == oldv.guests[g as int].inbox);
                assert(buf@ =~= (crate::types::RecvV {
                    system: None,
                    inbox: oldv.guests[g as int].inbox,
                    ecs: crate::types::EcsDataV { entities: Seq::empty(), columns: Seq::empty() },
                    is_server: oldv.is_server,
                }));
                assert(self@.guests[g as int] =~= (GuestV {
                    inbox: Seq::empty(),
                    ..oldv.guests[g as int]
                }));
                assert(self@ =~= (EngineV {
                    guests: oldv.guests.update(
                        g as int,
                        GuestV { inbox: Seq::empty(), ..oldv.guests[g as int] },
                    ),
                    phase: PhaseV::InitAwait(g),
                    ..oldv
                }));
                assert(engine_wf(self@)) by {
                    assert forall|gg: int, ei: int|
                        0 <= gg < self@.guests.len() && 0 <= ei < self@.guests[gg].inbox.len()
                            implies declares(
                        self@.guests[gg].systems,
                        (#[trigger] self@.guests[gg].inbox[ei]).0,
                    ) by {
                        assert(gg != g ==> self@.guests[gg] == oldv.guests[gg]);
                        assert(declares(oldv.guests[gg].systems, oldv.guests[gg].inbox[ei].0));
                    }
                    assert forall|si: int, k: int|
                        0 <= si < self@.subs.len() && 0 <= k < self@.subs[si].1.len() implies (
                    #[trigger] self@.subs[si].1[k]) < self@.guests.len() && declares(
                        self@.guests[self@.subs[si].1[k] as int].systems,
                        self@.subs[si].0,
                    ) by {
                        assert(oldv.subs[si].1[k] < g);
                        assert(self@.guests[oldv.subs[si].1[k] as int].systems == oldv.guests[
                            oldv.subs[si].1[k] as int
                        ].systems);
                        assert(declares(
                            oldv.guests[oldv.subs[si].1[k] as int].systems,
                            oldv.subs[si].0,
                        ));
                    }
                }
            }
            return Some((g, buf));
        }
        if is_stage {
            let (stage, g0, s0) = match &self.phase {
                Phase::StageNext(st, g0, s0) => (*st, *g0, *s0),
                _ => (Stage::Update, 0, 0),
            };
            match self.scan(stage, g0, s0) {
                None => {
                    self.phase = Phase::Idle;
                    proof {
                        assert(self@ =~= (EngineV { phase: PhaseV::Idle, ..oldv }));
                        assert(propagate_from(self@, 0) =~= (EngineV {
                            phase: PhaseV::Idle,
                            ..propagate_from(oldv, 0)
                        })) by {
                            lemma_propagate_phase_only(oldv, self@, 0);
                        }
                    }
                    self.propagate();
                    None
                },
                Some((g, s)) => {
                    proof {
                        lemma_next_runnable_props(self@, stage, g0 as int, s0 as int);
                        assert(self@.guests[g as int] == self.guests@[g as int]@);
                        assert(self@.guests[g as int].systems[s as int] == self.guests@[
                            g as int
                        ].systems@[s as int]@);
                    }
                    let data = crate::query::query_ecs_data(
                        &self.ecs,
                        &self.guests[g].systems[s].query,
                    );
                    let rows = crate::clone_u128s(&data.entities);
                    let mut inbox: Vec<(ChannelId, Vec<MessageData>)> = Vec::new();
                    let gref = &mut self.guests[g];
                    core::mem::swap(&mut inbox, &mut gref.inbox);
                    self.phase = Phase::StageAwait(stage, g, s, rows);
                    let buf = crate::types::ReceiveBuf {
                        system: Some(s as u64),
                        inbox,
                        ecs: data,
                        is_server: self.is_server,
                    };
                    proof {
                        let terms = oldv.guests[g as int].systems[s as int].query;
                        let rowsv = crate::query::query_rows(oldv.ecs, terms);
                        assert(inbox_tbl_view(Seq::<(ChannelId, Vec<MessageData>)>::empty())
                            =~= Seq::<(ChanV, Seq<MsgV>)>::empty());
                        assert(buf@ =~= (crate::types::RecvV {
                            system: Some(s as u64),
                            inbox: oldv.guests[g as int].inbox,
                            ecs: crate::types::EcsDataV {
                                entities: rowsv,
                                columns: crate::query::query_cols(oldv.ecs, terms, rowsv),
                            },
                            is_server: oldv.is_server,
                        }));
                        assert(self@.guests[g as int] =~= (GuestV {
                            inbox: Seq::empty(),
                            ..oldv.guests[g as int]
                        }));
                        assert(self@ =~= (EngineV {
                            guests: oldv.guests.update(
                                g as int,
                                GuestV { inbox: Seq::empty(), ..oldv.guests[g as int] },
                            ),
                            phase: PhaseV::StageAwait(stage, g, s, rowsv),
                            ..oldv
                        }));
                        assert(engine_wf(self@)) by {
                            assert forall|gg: int, ei: int|
                                0 <= gg < self@.guests.len() && 0 <= ei < self@.guests[
                                gg
                            ].inbox.len() implies declares(
                                self@.guests[gg].systems,
                                (#[trigger] self@.guests[gg].inbox[ei]).0,
                            ) by {
                                assert(gg != g ==> self@.guests[gg] == oldv.guests[gg]);
                                assert(declares(
                                    oldv.guests[gg].systems,
                                    oldv.guests[gg].inbox[ei].0,
                                ));
                            }
                            assert forall|si: int, k: int|
                                0 <= si < self@.subs.len() && 0 <= k < self@.subs[si].1.len()
                                    implies (#[trigger] self@.subs[si].1[k])
                                < self@.guests.len() && declares(
                                self@.guests[self@.subs[si].1[k] as int].systems,
                                self@.subs[si].0,
                            ) by {
                                assert(oldv.subs[si].1[k] < oldv.guests.len());
                                assert(self@.guests[oldv.subs[si].1[k] as int].systems
                                    == oldv.guests[oldv.subs[si].1[k] as int].systems);
                                assert(declares(
                                    oldv.guests[oldv.subs[si].1[k] as int].systems,
                                    oldv.subs[si].0,
                                ));
                            }
                        }
                    }
                    Some((g, buf))
                },
            }
        } else {
            proof {
                assert(self@ == oldv);
            }
            None
        }
    }
}

/// A runnable pair found by the scan is in bounds, not poisoned, and
/// of the requested stage.
proof fn lemma_next_runnable_props(v: EngineV, stage: Stage, g0: int, s0: int)
    ensures
        match next_runnable(v, stage, g0, s0) {
            Some((g, s)) => 0 <= g < v.guests.len() && 0 <= s < v.guests[g].systems.len()
                && !v.guests[g].poisoned && v.guests[g].systems[s].stage == stage,
            None => true,
        },
    decreases v.guests.len() - g0, v.guests[g0].systems.len() - s0,
{
    if g0 < 0 || s0 < 0 || g0 >= v.guests.len() {
    } else if v.guests[g0].poisoned || s0 >= v.guests[g0].systems.len() {
        lemma_next_runnable_props(v, stage, g0 + 1, 0);
    } else if v.guests[g0].systems[s0].stage == stage {
    } else {
        lemma_next_runnable_props(v, stage, g0, s0 + 1);
    }
}

/// Changing only the phase commutes with propagation.
proof fn lemma_propagate_phase_only(v: EngineV, v2: EngineV, g: int)
    requires
        v2 == (EngineV { phase: v2.phase, ..v }),
    ensures
        propagate_from(v2, g) == (EngineV { phase: v2.phase, ..propagate_from(v, g) }),
    decreases v.guests.len() - g,
{
    if g < 0 || g >= v.guests.len() {
        assert(propagate_from(v2, g) =~= (EngineV { phase: v2.phase, ..propagate_from(v, g) }));
    } else {
        let c1 = clear_outbox(v, g);
        let c2 = clear_outbox(v2, g);
        assert(c2 =~= (EngineV { phase: v2.phase, ..c1 }));
        lemma_route_msgs_phase_only(c1, c2, v.guests[g].outbox);
        lemma_route_msgs_len(c1, v.guests[g].outbox);
        lemma_propagate_phase_only(
            route_msgs(c1, v.guests[g].outbox),
            route_msgs(c2, v2.guests[g].outbox),
            g + 1,
        );
    }
}

/// Changing only the phase commutes with routing a queue.
proof fn lemma_route_msgs_phase_only(v: EngineV, v2: EngineV, msgs: Seq<MsgV>)
    requires
        v2 == (EngineV { phase: v2.phase, ..v }),
    ensures
        route_msgs(v2, msgs) == (EngineV { phase: v2.phase, ..route_msgs(v, msgs) }),
    decreases msgs.len(),
{
    if msgs.len() == 0 {
        assert(route_msgs(v2, msgs) =~= (EngineV { phase: v2.phase, ..route_msgs(v, msgs) }));
    } else {
        let b1 = broadcast_spec(v, msgs[0]);
        let b2 = broadcast_spec(v2, msgs[0]);
        assert(sub_list(v2, msgs[0].channel) == sub_list(v, msgs[0].channel));
        assert(b2 =~= (EngineV { phase: v2.phase, ..b1 }));
        lemma_route_msgs_phase_only(b1, b2, msgs.drop_first());
    }
}

impl Engine {
    /// Applies one guest reply. A fault poisons the guest and aborts
    /// the pass; a reply whose commands or write columns fail aborts
    /// the pass with that error, keeping what was already applied; a
    /// good reply stages the guest's outbox and moves the pass on.
    pub fn reply(&mut self, outcome: TurnOutcome) -> (r: Result<(), crate::types::EngineError>)
        requires
            engine_wf(old(self)@),
            awaiting(old(self)@),
        ensures
            engine_wf(final(self)@),
            match old(self)@.phase {
                PhaseV::InitAwait(g) => match outcome {
                    TurnOutcome::Fault => r == Result::<(), crate::types::EngineError>::Err(
                        crate::types::EngineError::GuestFault,
                    ) && final(self)@ == (EngineV {
                        guests: old(self)@.guests.update(
                            g as int,
                            GuestV { poisoned: true, ..old(self)@.guests[g as int] },
                        ),
                        phase: PhaseV::Idle,
                        ..old(self)@
                    }),
                    TurnOutcome::Response(sb) => {
                        let applied = init_apply_spec(old(self)@, g as int, sb@);
                        final(self)@ == applied.0 && (match r {
                            Ok(()) => applied.1 is None,
                            Err(e) => applied.1 == Some(e),
                        })
                    },
                },
                PhaseV::StageAwait(stage, g, sys, rows) => match outcome {
                    TurnOutcome::Fault => r == Result::<(), crate::types::EngineError>::Err(
                        crate::types::EngineError::GuestFault,
                    ) && final(self)@ == (EngineV {
                        guests: old(self)@.guests.update(
                            g as int,
                            GuestV { poisoned: true, ..old(self)@.guests[g as int] },
                        ),
                        phase: PhaseV::Idle,
                        ..old(self)@
                    }),
                    TurnOutcome::Response(sb) => {
                        let applied = stage_apply_spec(
                            old(self)@,
                            stage,
                            g as int,
                            sys as int,
                            rows,
                            sb@,
                        );
                        final(self)@ == applied.0 && (match r {
                            Ok(()) => applied.1 is None,
                            Err(e) => applied.1 == Some(e),
                        })
                    },
                },
                _ => false,
            },
    {
        let ghost oldv = self@;
        let mut ph = Phase::Idle;
        core::mem::swap(&mut ph, &mut self.phase);
        proof {
            assert(self@ =~= (EngineV { phase: PhaseV::Idle, ..oldv }));
        }
        match ph {
            Phase::InitAwait(g) => {
                match outcome {
                    TurnOutcome::Fault => {
                        let gref = &mut self.guests[g];
                        gref.poisoned = true;
                        proof {
                            assert(self@.guests[g as int] =~= (GuestV {
                                poisoned: true,
                                ..oldv.guests[g as int]
                            }));
                            assert(self@ =~= (EngineV {
                                guests: oldv.guests.update(
                                    g as int,
                                    GuestV { poisoned: true, ..oldv.guests[g as int] },
                                ),
                                phase: PhaseV::Idle,
                                ..oldv
                            }));
                            lemma_poison_wf(oldv, self@, g as int);
                        }
                        Err(crate::types::EngineError::GuestFault)
                    },
                    TurnOutcome::Response(sb) => {
                        let ghost sbv = sb@;
                        let crate::types::SendBuf { systems, commands, ecs: _, outbox } = sb;
                        let ghost sysv = crate::types::systems_view(systems@);
                        match crate::commands::apply_ecs_commands(&mut self.ecs, &commands) {
                            Err(e) => {
                                proof {
                                    assert(self@ =~= (EngineV {
                                        ecs: crate::commands::apply_commands(
                                            oldv.ecs,
                                            sbv.commands,
                                        ).0,
                                        phase: PhaseV::Idle,
                                        ..oldv
                                    }));
                                    assert(self@ == init_apply_spec(oldv, g as int, sbv).0);
                                    assert(engine_wf(self@));
                                }
                                Err(e)
                            },
                            Ok(()) => {
                                let ghost subs0 = self@.subs;
                                let ghost afterecs = self@;
                                // register every declared subscription of g
                                let nsys = systems.len();
                                let mut i: usize = 0;
                                while i < nsys
                                    invariant
                                        0 <= i <= nsys,
                                        nsys == systems@.len(),
                                        sysv == crate::types::systems_view(systems@),
                                        g < self@.guests.len(),
                                        keys_unique(self@.subs),
                                        self@ == (EngineV { subs: self@.subs, ..afterecs }),
                                        add_subs(subs0, sysv, g, 0) == add_subs(
                                            self@.subs,
                                            sysv,
                                            g,
                                            i as int,
                                        ),
                                    decreases nsys - i,
                                {
                                    let ghost subs_i = self@.subs;
                                    let ghost chans = sysv[i as int].subscriptions;
                                    proof {
                                        assert(sysv[i as int] == systems@[i as int]@);
                                        assert(add_chans(subs_i, chans, g, 0).len() >= 0);
                                    }
                                    let nch = systems[i].subscriptions.len();
                                    let mut k: usize = 0;
                                    while k < nch
                                        invariant
                                            0 <= k <= nch,
                                            i < nsys,
                                            nsys == systems@.len(),
                                            sysv == crate::types::systems_view(systems@),
                                            nch == systems@[i as int].subscriptions@.len(),
                                            chans == sysv[i as int].subscriptions,
                                            sysv[i as int] == systems@[i as int]@,
                                            g < self@.guests.len(),
                                            keys_unique(self@.subs),
                                            self@ == (EngineV { subs: self@.subs, ..afterecs }),
                                            add_chans(subs_i, chans, g, 0) == add_chans(
                                                self@.subs,
                                                chans,
                                                g,
                                                k as int,
                                            ),
                                        decreases nch - k,
                                    {
                                        let ghost pre = self@.subs;
                                        proof {
                                            assert(chans[k as int] == systems@[
                                                i as int
                                            ].subscriptions@[k as int]@);
                                        }
                                        let c = crate::types::clone_chan(
                                            &systems[i].subscriptions[k],
                                        );
                                        match tbl_find(&self.subs, &c) {
                                            Some(ei) => {
                                                proof {
                                                    assert(pre[ei as int] == (
                                                        self.subs@[ei as int].0@,
                                                        self.subs@[ei as int].1@,
                                                    ));
                                                    lemma_key_idx_is(pre, c@, ei as int);
                                                }
                                                let entry = &mut self.subs[ei];
                                                entry.1.push(g);
                                                proof {
                                                    assert(self@.subs =~= tbl_append(
                                                        pre,
                                                        chans[k as int],
                                                        g,
                                                    ));
                                                    lemma_tbl_append(pre, chans[k as int], g);
                                                }
                                            },
                                            None => {
                                                proof {
                                                    assert(!key_idx_exists(pre, c@)) by {
                                                        if key_idx_exists(pre, c@) {
                                                            let q = key_idx(pre, c@);
                                                            assert(pre[q] == (
                                                                self.subs@[q].0@,
                                                                self.subs@[q].1@,
                                                            ));
                                                            assert(self.subs@[q].0@ != c@);
                                                        }
                                                    }
                                                }
                                                let mut lst: Vec<usize> = Vec::new();
                                                lst.push(g);
                                                self.subs.push((c, lst));
                                                proof {
                                                    assert(self@.subs =~= tbl_append(
                                                        pre,
                                                        chans[k as int],
                                                        g,
                                                    ));
                                                    lemma_tbl_append(pre, chans[k as int], g);
                                                }
                                            },
                                        }
                                        proof {
                                            assert(self@ =~= (EngineV {
                                                subs: self@.subs,
                                                ..afterecs
                                            }));
                                            assert(add_chans(pre, chans, g, k as int) == add_chans(
                                                self@.subs,
                                                chans,
                                                g,
                                                k as int + 1,
                                            ));
                                        }
                                        k = k + 1;
                                    }
                                    proof {
                                        assert(add_chans(self@.subs, chans, g, nch as int)
                                            == self@.subs);
                                        assert(add_subs(subs_i, sysv, g, i as int) == add_subs(
                                            self@.subs,
                                            sysv,
                                            g,
                                            i as int + 1,
                                        ));
                                    }
                                    i = i + 1;
                                }
                                proof {
                                    assert(add_subs(self@.subs, sysv, g, nsys as int)
                                        == self@.subs);
                                    assert(self@.subs == add_subs(subs0, sysv, g, 0));
                                }
                                // record the declared systems and stage the outbox
                                let glen = self.guests.len();
                                proof {
                                    assert(g < glen);
                                }
                                let gref = &mut self.guests[g];
                                gref.systems = systems;
                                gref.outbox = outbox;
                                self.phase = Phase::InitNext(g + 1);
                                proof {
                                    assert(self@.guests[g as int] =~= (GuestV {
                                        systems: sysv,
                                        outbox: crate::types::msgs_view(outbox@),
                                        ..oldv.guests[g as int]
                                    }));
                                    assert(self@ =~= (EngineV {
                                        ecs: crate::commands::apply_commands(
                                            oldv.ecs,
                                            sbv.commands,
                                        ).0,
                                        guests: oldv.guests.update(
                                            g as int,
                                            GuestV {
                                                systems: sbv.systems,
                                                outbox: sbv.outbox,
                                                ..oldv.guests[g as int]
                                            },
                                        ),
                                        subs: add_subs(oldv.subs, sbv.systems, g, 0),
                                        phase: PhaseV::InitNext((g + 1) as usize),
                                        ..oldv
                                    }));
                                    assert(self@ == init_apply_spec(oldv, g as int, sbv).0);
                                    lemma_init_reply_wf(oldv, g, sbv, self@);
                                }
                                Ok(())
                            },
                        }
                    },
                }
            },
            Phase::StageAwait(stage, g, sys, rows) => {
                match outcome {
                    TurnOutcome::Fault => {
                        let gref = &mut self.guests[g];
                        gref.poisoned = true;
                        proof {
                            assert(self@.guests[g as int] =~= (GuestV {
                                poisoned: true,
                                ..oldv.guests[g as int]
                            }));
                            assert(self@ =~= (EngineV {
                                guests: oldv.guests.update(
                                    g as int,
                                    GuestV { poisoned: true, ..oldv.guests[g as int] },
                                ),
                                phase: PhaseV::Idle,
                                ..oldv
                            }));
                            lemma_poison_wf(oldv, self@, g as int);
                        }
                        Err(crate::types::EngineError::GuestFault)
                    },
                    TurnOutcome::Response(sb) => {
                        let ghost sbv = sb@;
                        let crate::types::SendBuf { systems: _, commands, ecs: returned, outbox } =
                            sb;
                        let ghost terms = oldv.guests[g as int].systems[sys as int].query;
                        proof {
                            assert(self@.guests[g as int] == self.guests@[g as int]@);
                            assert(self@.guests[g as int].systems[sys as int] == self.guests@[
                                g as int
                            ].systems@[sys as int]@);
                            assert(crate::types::terms_view(
                                self.guests@[g as int].systems@[sys as int].query@,
                            ) == terms);
                        }
                        match crate::query::apply_query_writes(
                            &mut self.ecs,
                            &self.guests[g].systems[sys].query,
                            &rows,
                            &returned,
                        ) {
                            Err(e) => {
                                proof {
                                    if !crate::query::shape_ok(terms, rows@, sbv.ecs.columns) {
                                        assert(self@ =~= (EngineV {
                                            phase: PhaseV::Idle,
                                            ..oldv
                                        }));
                                        assert(e == crate::types::EngineError::QueryShapeMismatch);
                                    } else {
                                        assert(self@ =~= (EngineV {
                                            ecs: crate::commands::apply_commands(
                                                oldv.ecs,
                                                crate::query::write_cmds(
                                                    terms,
                                                    rows@,
                                                    sbv.ecs.columns,
                                                    0,
                                                ),
                                            ).0,
                                            phase: PhaseV::Idle,
                                            ..oldv
                                        }));
                                    }
                                    assert(self@ == stage_apply_spec(
                                        oldv,
                                        stage,
                                        g as int,
                                        sys as int,
                                        rows@,
                                        sbv,
                                    ).0);
                                    assert(engine_wf(self@));
                                }
                                Err(e)
                            },
                            Ok(()) => {
                                match crate::commands::apply_ecs_commands(
                                    &mut self.ecs,
                                    &commands,
                                ) {
                                    Err(e) => {
                                        proof {
                                            assert(self@ == stage_apply_spec(
                                                oldv,
                                                stage,
                                                g as int,
                                                sys as int,
                                                rows@,
                                                sbv,
                                            ).0);
                                            assert(engine_wf(self@));
                                        }
                                        Err(e)
                                    },
                                    Ok(()) => {
                                        let slen = self.guests[g].systems.len();
                                        proof {
                                            assert(sys < slen);
                                        }
                                        let gref = &mut self.guests[g];
                                        gref.outbox = outbox;
                                        self.phase = Phase::StageNext(stage, g, sys + 1);
                                        proof {
                                            assert(self@.guests[g as int] =~= (GuestV {
                                                outbox: sbv.outbox,
                                                ..oldv.guests[g as int]
                                            }));
                                            assert(self@ =~= stage_apply_spec(
                                                oldv,
                                                stage,
                                                g as int,
                                                sys as int,
                                                rows@,
                                                sbv,
                                            ).0);
                                            assert(engine_wf(self@)) by {
                                                lemma_outbox_swap_wf(oldv, self@, g as int);
                                            }
                                        }
                                        Ok(())
                                    },
                                }
                            },
                        }
                    },
                }
            },
            _ => {
                proof {
                    assert(false);
                }
                Err(crate::types::EngineError::GuestFault)
            },
        }
    }
}

/// Poisoning one guest keeps the engine well formed.
proof fn lemma_poison_wf(v: EngineV, v2: EngineV, g: int)
    requires
        engine_wf(v),
        0 <= g < v.guests.len(),
        v2 == (EngineV {
            guests: v.guests.update(g, GuestV { poisoned: true, ..v.guests[g] }),
            phase: PhaseV::Idle,
            ..v
        }),
    ensures
        engine_wf(v2),
{
    assert forall|gg: int, ei: int|
        0 <= gg < v2.guests.len() && 0 <= ei < v2.guests[gg].inbox.len() implies declares(
        v2.guests[gg].systems,
        (#[trigger] v2.guests[gg].inbox[ei]).0,
    ) by {
        assert(declares(v.guests[gg].systems, v.guests[gg].inbox[ei].0));
    }
    assert forall|si: int, k: int|
        0 <= si < v2.subs.len() && 0 <= k < v2.subs[si].1.len() implies (#[trigger] v2.subs[
        si
    ].1[k]) < v2.guests.len() && declares(
        v2.guests[v2.subs[si].1[k] as int].systems,
        v2.subs[si].0,
    ) by {
        assert(v.subs[si].1[k] < v.guests.len());
        assert(declares(v.guests[v.subs[si].1[k] as int].systems, v.subs[si].0));
    }
}

/// Replacing one guest's outbox keeps the engine well formed.
proof fn lemma_outbox_swap_wf(v: EngineV, v2: EngineV, g: int)
    requires
        engine_wf(v),
        0 <= g < v.guests.len(),
        v2.guests == v.guests.update(g, GuestV { outbox: v2.guests[g].outbox, ..v.guests[g] }),
        v2.subs == v.subs,
        ecs_wf(v2.ecs),
        v2.host_inbox == v.host_inbox,
        v2.inited == v.inited,
        match v2.phase {
            PhaseV::StageNext(_, gg, _) => v2.inited && gg <= v2.guests.len(),
            _ => false,
        },
    ensures
        engine_wf(v2),
{
    assert forall|gg: int, ei: int|
        0 <= gg < v2.guests.len() && 0 <= ei < v2.guests[gg].inbox.len() implies declares(
        v2.guests[gg].systems,
        (#[trigger] v2.guests[gg].inbox[ei]).0,
    ) by {
        assert(declares(v.guests[gg].systems, v.guests[gg].inbox[ei].0));
    }
    assert forall|si: int, k: int|
        0 <= si < v2.subs.len() && 0 <= k < v2.subs[si].1.len() implies (#[trigger] v2.subs[
        si
    ].1[k]) < v2.guests.len() && declares(
        v2.guests[v2.subs[si].1[k] as int].systems,
        v2.subs[si].0,
    ) by {
        assert(v.subs[si].1[k] < v.guests.len());
        assert(declares(v.guests[v.subs[si].1[k] as int].systems, v.subs[si].0));
    }
}

/// A good init reply keeps the engine well formed.
proof fn lemma_init_reply_wf(v: EngineV, g: usize, sb: crate::types::SendV, v2: EngineV)
    requires
        engine_wf(v),
        v.phase == PhaseV::InitAwait(g),
        g < v.guests.len(),
        g < usize::MAX,
        crate::commands::apply_commands(v.ecs, sb.commands).1 is None,
        ecs_wf(crate::commands::apply_commands(v.ecs, sb.commands).0),
        v2 == init_apply_spec(v, g as int, sb).0,
    ensures
        engine_wf(v2),
{
    let guests2 = v.guests.update(
        g as int,
        GuestV { systems: sb.systems, outbox: sb.outbox, ..v.guests[g as int] },
    );
    assert(subs_ok(v.subs, guests2, g + 1)) by {
        assert forall|si: int, k: int|
            0 <= si < v.subs.len() && 0 <= k < v.subs[si].1.len() implies (#[trigger] v.subs[
            si
        ].1[k]) < g + 1 && v.subs[si].1[k] < guests2.len() && declares(
            guests2[v.subs[si].1[k] as int].systems,
            v.subs[si].0,
        ) by {
            assert(v.subs[si].1[k] < g);
            assert(v.subs[si].1[k] < v.guests.len());
            assert(guests2[v.subs[si].1[k] as int].systems == v.guests[v.subs[si].1[
                k
            ] as int].systems);
            assert(declares(v.guests[v.subs[si].1[k] as int].systems, v.subs[si].0));
        }
    }
    lemma_add_subs_ok(v.subs, sb.systems, g, 0, guests2, g + 1);
    assert forall|gg: int, ei: int|
        0 <= gg < v2.guests.len() && 0 <= ei < v2.guests[gg].inbox.len() implies declares(
        v2.guests[gg].systems,
        (#[trigger] v2.guests[gg].inbox[ei]).0,
    ) by {
        assert(v.guests[g as int].inbox.len() == 0);
        assert(gg != g as int);
        assert(declares(v.guests[gg].systems, v.guests[gg].inbox[ei].0));
    }
    assert forall|gg: int| 0 <= gg < v2.guests.len() implies keys_unique(
        (#[trigger] v2.guests[gg]).inbox,
    ) by {
        assert(keys_unique(v.guests[gg].inbox));
    }
    assert(subs_below(v2.subs, (g + 1) as usize));
}

/// Replaying a concatenation replays the first part, then — if it
/// succeeded — the second.
pub proof fn lemma_apply_commands_append(v: EcsV, a: Seq<crate::types::CmdV>, b: Seq<crate::types::CmdV>)
    ensures
        crate::commands::apply_commands(v, a + b) == (if crate::commands::apply_commands(
            v,
            a,
        ).1 is Some {
            (crate::commands::apply_commands(v, a).0, crate::commands::apply_commands(v, a).1)
        } else {
            crate::commands::apply_commands(crate::commands::apply_commands(v, a).0, b)
        }),
    decreases a.len(),
{
    if a.len() == 0 {
        assert(a + b =~= b);
        assert(crate::commands::apply_commands(v, a) == (v, None::<crate::types::EngineError>));
    } else {
        assert((a + b)[0] == a[0]);
        assert((a + b).drop_first() =~= a.drop_first() + b);
        match a[0] {
            crate::types::CmdV::Create(e) => {
                lemma_apply_commands_append(crate::ecs::ecs_register(v, e), a.drop_first(), b);
            },
            crate::types::CmdV::Delete(e) => {
                lemma_apply_commands_append(crate::ecs::ecs_destroy(v, e), a.drop_first(), b);
            },
            crate::types::CmdV::AddComponent(e, cid, bb) => {
                if crate::ecs::ecs_add_ok(v, cid, bb) {
                    lemma_apply_commands_append(
                        crate::ecs::ecs_add(v, e, cid, bb),
                        a.drop_first(),
                        b,
                    );
                }
            },
        }
    }
}

/// Writing back, row by row, exactly the bytes each pair already
/// holds leaves the store untouched.
proof fn lemma_term_writes_identity(v: EcsV, cid: Seq<u8>, rows: Seq<u128>, col: Seq<Seq<u8>>)
    requires
        ecs_wf(v),
        col.len() == rows.len(),
        forall|r: int|
            0 <= r < rows.len() ==> crate::ecs::ecs_lookup(v, cid, #[trigger] rows[r]) == Some(
                col[r],
            ),
    ensures
        crate::commands::apply_commands(v, crate::query::term_write_cmds(cid, rows, col)) == (
            v,
            None::<crate::types::EngineError>,
        ),
    decreases rows.len(),
{
    let cmds = crate::query::term_write_cmds(cid, rows, col);
    if rows.len() == 0 {
    } else {
        assert(cmds[0] == crate::types::CmdV::AddComponent(rows[0], cid, col[0]));
        crate::ecs::lemma_add_same_identity(v, rows[0], cid, col[0]);
        assert(cmds.drop_first() =~= crate::query::term_write_cmds(
            cid,
            rows.drop_first(),
            col.drop_first(),
        ));
        lemma_term_writes_identity(v, cid, rows.drop_first(), col.drop_first());
    }
}

/// Writing back every write column unchanged leaves the store
/// untouched.
proof fn lemma_write_back_identity(
    v: EcsV,
    terms: Seq<crate::types::TermV>,
    rows: Seq<u128>,
    cols: Seq<Seq<Seq<u8>>>,
    t: int,
)
    requires
        ecs_wf(v),
        crate::query::shape_ok(terms, rows, cols),
        forall|tt: int, r: int|
            0 <= tt < terms.len() && (#[trigger] terms[tt]).access == crate::types::Access::Write
                && 0 <= r < rows.len() ==> crate::ecs::ecs_lookup(
                v,
                terms[tt].component,
                #[trigger] rows[r],
            ) == Some(cols[tt][r]),
    ensures
        crate::commands::apply_commands(v, crate::query::write_cmds(terms, rows, cols, t)) == (
            v,
            None::<crate::types::EngineError>,
        ),
    decreases terms.len() - t,
{
    if t < 0 || t >= terms.len() {
    } else if terms[t].access == crate::types::Access::Write {
        let tw = crate::query::term_write_cmds(terms[t].component, rows, cols[t]);
        lemma_term_writes_identity(v, terms[t].component, rows, cols[t]);
        lemma_write_back_identity(v, terms, rows, cols, t + 1);
        lemma_apply_commands_append(v, tw, crate::query::write_cmds(terms, rows, cols, t + 1));
    } else {
        lemma_write_back_identity(v, terms, rows, cols, t + 1);
    }
}

/// Law: with every guest outbox already empty, a propagation pass
/// changes nothing.
pub proof fn lemma_propagate_empty_identity(v: EngineV, g: int)
    requires
        0 <= g <= v.guests.len(),
        forall|k: int| 0 <= k < v.guests.len() ==> (#[trigger] v.guests[k]).outbox.len() == 0,
    ensures
        propagate_from(v, g) == v,
    decreases v.guests.len() - g,
{
    if g < 0 || g >= v.guests.len() {
    } else {
        assert(v.guests[g].outbox =~= Seq::<MsgV>::empty());
        assert(clear_outbox(v, g).guests[g] =~= v.guests[g]);
        assert(clear_outbox(v, g).guests =~= v.guests);
        assert(clear_outbox(v, g) =~= v);
        assert(route_msgs(v, v.guests[g].outbox) == v);
        lemma_propagate_empty_identity(v, g + 1);
    }
}

/// Law: a turn whose reply has no side effects — no commands, no
/// outgoing messages, and every write column exactly the values the
/// query reported — leaves the store untouched and every inbox as it
/// was; only the pass cursor moves. Together with
/// [`lemma_propagate_empty_identity`], a whole stage pass of such
/// replies is a no-op on the store and on all inboxes besides the
/// draining that handing out each turn performs.
pub proof fn lemma_dispatch_noop(
    v: EngineV,
    stage: Stage,
    g: int,
    s: int,
    rows: Seq<u128>,
    sb: crate::types::SendV,
)
    requires
        engine_wf(v),
        0 <= g < v.guests.len(),
        0 <= s < v.guests[g].systems.len(),
        rows == crate::query::query_rows(v.ecs, v.guests[g].systems[s].query),
        sb.ecs.columns == crate::query::query_cols(
            v.ecs,
            v.guests[g].systems[s].query,
            rows,
        ),
        sb.commands == Seq::<crate::types::CmdV>::empty(),
        sb.outbox == Seq::<MsgV>::empty(),
    ensures
        stage_apply_spec(v, stage, g, s, rows, sb).1 is None,
        stage_apply_spec(v, stage, g, s, rows, sb).0.ecs == v.ecs,
        forall|k: int|
            0 <= k < v.guests.len() ==> (#[trigger] stage_apply_spec(
                v,
                stage,
                g,
                s,
                rows,
                sb,
            ).0.guests[k]).inbox == v.guests[k].inbox,
        stage_apply_spec(v, stage, g, s, rows, sb).0.host_inbox == v.host_inbox,
        stage_apply_spec(v, stage, g, s, rows, sb).0.net_out == v.net_out,
        forall|k: int|
            0 <= k < v.guests.len() ==> (#[trigger] stage_apply_spec(
                v,
                stage,
                g,
                s,
                rows,
                sb,
            ).0.guests[k]).outbox.len() == 0 || stage_apply_spec(
                v,
                stage,
                g,
                s,
                rows,
                sb,
            ).0.guests[k].outbox == v.guests[k].outbox,
{
    let terms = v.guests[g].systems[s].query;
    let cols = sb.ecs.columns;
    assert(crate::query::shape_ok(terms, rows, cols)) by {
        assert forall|t: int|
            0 <= t < terms.len() && (#[trigger] terms[t]).access
                == crate::types::Access::Write implies t < cols.len() && cols[t].len()
            == rows.len() by {
            assert(cols[t] == crate::query::query_cols(v.ecs, terms, rows)[t]);
        }
    }
    assert forall|tt: int, r: int|
        0 <= tt < terms.len() && (#[trigger] terms[tt]).access == crate::types::Access::Write && 0
            <= r < rows.len() implies crate::ecs::ecs_lookup(
        v.ecs,
        terms[tt].component,
        #[trigger] rows[r],
    ) == Some(cols[tt][r]) by {
        broadcast use vstd::seq_lib::group_filter_ensures;

        if terms.len() > 0 && crate::ecs::col_idx_exists(v.ecs.columns, terms[0].component) {
            let base = v.ecs.columns[crate::ecs::col_idx(v.ecs.columns, terms[0].component)]
                .rows.map_values(|p: (u128, Seq<u8>)| p.0);
            let pred = crate::query::query_pred(v.ecs, terms);
            assert(rows == base.filter(pred));
            assert(pred(rows[r]));
            assert(crate::ecs::ecs_has_all(v.ecs, crate::query::terms_cids(terms), rows[r]));
            assert(crate::ecs::ecs_lookup(
                v.ecs,
                crate::query::terms_cids(terms)[tt],
                rows[r],
            ) is Some);
            assert(cols[tt][r] == crate::query::query_cols(v.ecs, terms, rows)[tt][r]);
        } else {
            assert(rows.len() == 0);
        }
    }
    lemma_write_back_identity(v.ecs, terms, rows, cols, 0);
    assert(crate::commands::apply_commands(v.ecs, sb.commands) == (
        v.ecs,
        None::<crate::types::EngineError>,
    ));
    let out = stage_apply_spec(v, stage, g, s, rows, sb).0;
    assert forall|k: int| 0 <= k < v.guests.len() implies (#[trigger] out.guests[k]).inbox
        == v.guests[k].inbox by {
        if k != g {
            assert(out.guests[k] == v.guests[k]);
        }
    }
}

} // verus!
