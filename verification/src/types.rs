//! Data model shared by the store, the router, the scheduler and the codec.

use vstd::prelude::*;

verus! {

/// Whether a channel stays on this host or crosses the network.
#[derive(Clone, Copy, Debug, PartialEq, Eq, Structural)]
pub enum Locality {
    Local,
    Remote,
}

/// Phase of one logical frame; systems declare the stage they run in.
#[derive(Clone, Copy, Debug, PartialEq, Eq, Structural)]
pub enum Stage {
    PreUpdate,
    Update,
    PostUpdate,
}

/// Access mode of one query term.
#[derive(Clone, Copy, Debug, PartialEq, Eq, Structural)]
pub enum Access {
    Read,
    Write,
}

/// Everything that can go wrong while running guest turns.
#[derive(Clone, Copy, Debug, PartialEq, Eq, Structural)]
pub enum EngineError {
    /// A guest trapped, overran its sandbox, or returned bytes that do
    /// not decode; the guest is poisoned and skipped from then on.
    GuestFault,
    /// A reply blob failed structural decoding.
    DecodeError,
    /// A component write whose byte length differs from the length the
    /// component id was first registered with.
    SizeMismatch,
    /// A returned write column whose row count differs from the rows of
    /// the query that produced it.
    QueryShapeMismatch,
}

/// Spec-level image of a [`ChannelId`].
#[verifier::ext_equal]
pub struct ChanV {
    pub id: Seq<u8>,
    pub loc: Locality,
}

/// A named message stream: a stable byte-string id plus a locality.
/// Two channels with the same id but different locality are distinct.
#[derive(Clone, Debug)]
pub struct ChannelId {
    pub id: Vec<u8>,
    pub locality: Locality,
}

impl View for ChannelId {
    type V = ChanV;

    open spec fn view(&self) -> ChanV {
        ChanV { id: self.id@, loc: self.locality }
    }
}

/// Spec-level image of a [`MessageData`].
#[verifier::ext_equal]
pub struct MsgV {
    pub channel: ChanV,
    pub data: Seq<u8>,
    pub client: Option<u64>,
}

/// One message: a channel, an opaque payload, and (server side only)
/// the remote client that originated or should receive it.
#[derive(Clone, Debug)]
pub struct MessageData {
    pub channel: ChannelId,
    pub data: Vec<u8>,
    pub client: Option<u64>,
}

impl View for MessageData {
    type V = MsgV;

    open spec fn view(&self) -> MsgV {
        MsgV { channel: self.channel@, data: self.data@, client: self.client }
    }
}

/// Spec-level image of a [`QueryTerm`].
#[verifier::ext_equal]
pub struct TermV {
    pub component: Seq<u8>,
    pub access: Access,
}

/// One term of a query: a component id and an access mode.
#[derive(Clone, Debug)]
pub struct QueryTerm {
    pub component: Vec<u8>,
    pub access: Access,
}

impl View for QueryTerm {
    type V = TermV;

    open spec fn view(&self) -> TermV {
        TermV { component: self.component@, access: self.access }
    }
}

/// Spec-level image of a [`SystemDescriptor`].
#[verifier::ext_equal]
pub struct SysV {
    pub stage: Stage,
    pub query: Seq<TermV>,
    pub subscriptions: Seq<ChanV>,
}

/// A guest-declared unit of work: the stage it runs in, the query it
/// sees, and the channels it wants delivered into its inbox.
#[derive(Clone, Debug)]
pub struct SystemDescriptor {
    pub stage: Stage,
    pub query: Vec<QueryTerm>,
    pub subscriptions: Vec<ChannelId>,
}

impl View for SystemDescriptor {
    type V = SysV;

    open spec fn view(&self) -> SysV {
        SysV {
            stage: self.stage,
            query: self.query@.map_values(|t: QueryTerm| t@),
            subscriptions: self.subscriptions@.map_values(|c: ChannelId| c@),
        }
    }
}

/// Spec-level image of an [`EcsCommand`].
pub enum CmdV {
    Create(u128),
    Delete(u128),
    AddComponent(u128, Seq<u8>, Seq<u8>),
}

/// One store mutation emitted by a guest, applied in emission order.
#[derive(Clone, Debug)]
pub enum EcsCommand {
    /// Register a guest-minted entity id if it is not present yet.
    Create(u128),
    /// Destroy the entity and every component attached to it.
    Delete(u128),
    /// Install or replace a component instance: entity, component id,
    /// component bytes.
    AddComponent(u128, Vec<u8>, Vec<u8>),
}

impl View for EcsCommand {
    type V = CmdV;

    open spec fn view(&self) -> CmdV {
        match self {
            EcsCommand::Create(e) => CmdV::Create(*e),
            EcsCommand::Delete(e) => CmdV::Delete(*e),
            EcsCommand::AddComponent(e, c, b) => CmdV::AddComponent(*e, c@, b@),
        }
    }
}

/// Spec-level image of an [`EcsData`] block.
#[verifier::ext_equal]
pub struct EcsDataV {
    pub entities: Seq<u128>,
    pub columns: Seq<Seq<Seq<u8>>>,
}

/// A materialized query result: the matching entities in row order and,
/// for each query term, a parallel column of component byte values.
#[derive(Clone, Debug)]
pub struct EcsData {
    pub entities: Vec<u128>,
    pub columns: Vec<Vec<Vec<u8>>>,
}

impl View for EcsData {
    type V = EcsDataV;

    open spec fn view(&self) -> EcsDataV {
        EcsDataV {
            entities: self.entities@,
            columns: self.columns@.map_values(|col: Vec<Vec<u8>>| col@.map_values(|b: Vec<u8>| b@)),
        }
    }
}

impl EcsData {
    /// An empty block: no rows, no columns.
    pub fn empty() -> (r: EcsData)
        ensures
            r@.entities == Seq::<u128>::empty(),
            r@.columns == Seq::<Seq<Seq<u8>>>::empty(),
    {
        let r = EcsData { entities: Vec::new(), columns: Vec::new() };
        proof {
            assert(r@.columns =~= Seq::<Seq<Seq<u8>>>::empty());
        }
        r
    }
}

/// Spec-level image of a [`ReceiveBuf`].
#[verifier::ext_equal]
pub struct RecvV {
    pub system: Option<u64>,
    pub inbox: Seq<(ChanV, Seq<MsgV>)>,
    pub ecs: EcsDataV,
    pub is_server: bool,
}

/// The request handed to a guest on each turn: which declared system to
/// run (none on the init turn), the guest's drained inbox, the query
/// snapshot, and the host's role flag.
#[derive(Clone, Debug)]
pub struct ReceiveBuf {
    pub system: Option<u64>,
    pub inbox: Vec<(ChannelId, Vec<MessageData>)>,
    pub ecs: EcsData,
    pub is_server: bool,
}

impl View for ReceiveBuf {
    type V = RecvV;

    open spec fn view(&self) -> RecvV {
        RecvV {
            system: self.system,
            inbox: self.inbox@.map_values(
                |e: (ChannelId, Vec<MessageData>)| (e.0@, e.1@.map_values(|m: MessageData| m@)),
            ),
            ecs: self.ecs@,
            is_server: self.is_server,
        }
    }
}

/// Spec-level image of a [`SendBuf`].
#[verifier::ext_equal]
pub struct SendV {
    pub systems: Seq<SysV>,
    pub commands: Seq<CmdV>,
    pub ecs: EcsDataV,
    pub outbox: Seq<MsgV>,
}

/// The reply a guest hands back: declared systems (init turn only),
/// store commands, the written-back query columns, and outgoing
/// messages.
#[derive(Clone, Debug)]
pub struct SendBuf {
    pub systems: Vec<SystemDescriptor>,
    pub commands: Vec<EcsCommand>,
    pub ecs: EcsData,
    pub outbox: Vec<MessageData>,
}

impl View for SendBuf {
    type V = SendV;

    open spec fn view(&self) -> SendV {
        SendV {
            systems: self.systems@.map_values(|s: SystemDescriptor| s@),
            commands: self.commands@.map_values(|c: EcsCommand| c@),
            ecs: self.ecs@,
            outbox: self.outbox@.map_values(|m: MessageData| m@),
        }
    }
}

/// Mapping a view function commutes with appending one element.
pub proof fn lemma_map_push<A, B>(s: Seq<A>, f: spec_fn(A) -> B, v: A)
    ensures
        s.push(v).map_values(f) == s.map_values(f).push(f(v)),
{
    assert(s.push(v).map_values(f) =~= s.map_values(f).push(f(v)));
}

/// A prefix one longer is the prefix plus the next element.
pub proof fn lemma_subrange_push<A>(s: Seq<A>, i: int)
    requires
        0 <= i < s.len(),
    ensures
        s.subrange(0, i + 1) == s.subrange(0, i).push(s[i]),
{
    assert(s.subrange(0, i + 1) =~= s.subrange(0, i).push(s[i]));
}

/// View of a query term sequence.
pub open spec fn terms_view(s: Seq<QueryTerm>) -> Seq<TermV> {
    s.map_values(|t: QueryTerm| t@)
}

/// View of a command sequence.
pub open spec fn cmds_view(s: Seq<EcsCommand>) -> Seq<CmdV> {
    s.map_values(|c: EcsCommand| c@)
}

/// View of a system descriptor sequence.
pub open spec fn systems_view(s: Seq<SystemDescriptor>) -> Seq<SysV> {
    s.map_values(|d: SystemDescriptor| d@)
}

/// View of a message sequence.
pub open spec fn msgs_view(s: Seq<MessageData>) -> Seq<MsgV> {
    s.map_values(|m: MessageData| m@)
}

/// View of a channel sequence.
pub open spec fn chans_view(s: Seq<ChannelId>) -> Seq<ChanV> {
    s.map_values(|c: ChannelId| c@)
}

/// View of an inbox table.
pub open spec fn inbox_tbl_view(s: Seq<(ChannelId, Vec<MessageData>)>) -> Seq<(ChanV, Seq<MsgV>)> {
    s.map_values(|e: (ChannelId, Vec<MessageData>)| (e.0@, msgs_view(e.1@)))
}

/// Copies a channel id.
pub fn clone_chan(c: &ChannelId) -> (r: ChannelId)
    ensures
        r@ == c@,
{
    let r = ChannelId { id: crate::clone_bytes(&c.id), locality: c.locality };
    proof {
        assert(r@ =~= c@);
    }
    r
}

/// Copies a message.
pub fn clone_msg(m: &MessageData) -> (r: MessageData)
    ensures
        r@ == m@,
{
    let r = MessageData {
        channel: clone_chan(&m.channel),
        data: crate::clone_bytes(&m.data),
        client: m.client,
    };
    proof {
        assert(r@ =~= m@);
    }
    r
}

/// Compares two channels; equal channels have the same id bytes and the
/// same locality.
pub fn chan_eq(a: &ChannelId, b: &ChannelId) -> (r: bool)
    ensures
        r <==> a@ == b@,
{
    let loc_eq = match (a.locality, b.locality) {
        (Locality::Local, Locality::Local) => true,
        (Locality::Remote, Locality::Remote) => true,
        _ => false,
    };
    if !loc_eq {
        return false;
    }
    let ids = crate::bytes_eq(&a.id, &b.id);
    proof {
        if ids {
            assert(a@ =~= b@);
        }
    }
    ids
}

} // verus!
