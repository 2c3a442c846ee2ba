//! Serialization layer: the version-tagged, little-endian, binary
//! shape of the request and reply blobs crossing the sandbox boundary.
//!
//! The format is deterministic — one value has one encoding — and the
//! decoders accept exactly the encoders' output: every successful
//! decode of a whole blob proves that re-encoding the value gives the
//! input bytes back byte for byte.

use vstd::prelude::*;

use crate::types::{Access, ChanV, Locality, Stage};

verus! {

/// The format's version tag, the first byte of every blob.
pub const FORMAT_VERSION: u8 = 1;

/// Encoding of a 64-bit integer: eight bytes, little-endian.
pub open spec fn enc_u64(x: u64) -> Seq<u8> {
    seq![
        (x & 0xff) as u8,
        ((x >> 8) & 0xff) as u8,
        ((x >> 16) & 0xff) as u8,
        ((x >> 24) & 0xff) as u8,
        ((x >> 32) & 0xff) as u8,
        ((x >> 40) & 0xff) as u8,
        ((x >> 48) & 0xff) as u8,
        ((x >> 56) & 0xff) as u8,
    ]
}

/// The value read back from eight little-endian bytes.
pub open spec fn u64_of(b: Seq<u8>) -> u64
    recommends
        b.len() == 8,
{
    (b[0] as u64) | (b[1] as u64) << 8 | (b[2] as u64) << 16 | (b[3] as u64) << 24 | (
    b[4] as u64) << 32 | (b[5] as u64) << 40 | (b[6] as u64) << 48 | (b[7] as u64) << 56
}

/// Decoding a 64-bit integer.
pub open spec fn dec_u64(b: Seq<u8>, i: int) -> Option<(u64, int)> {
    if 0 <= i && i + 8 <= b.len() {
        Some((u64_of(b.subrange(i, i + 8)), i + 8))
    } else {
        None
    }
}

/// Eight little-endian bytes read back give the bytes written.
pub proof fn lemma_u64_round_trip(b: Seq<u8>)
    requires
        b.len() == 8,
    ensures
        enc_u64(u64_of(b)) == b,
{
    let x = u64_of(b);
    let b0 = b[0] as u64;
    let b1 = b[1] as u64;
    let b2 = b[2] as u64;
    let b3 = b[3] as u64;
    let b4 = b[4] as u64;
    let b5 = b[5] as u64;
    let b6 = b[6] as u64;
    let b7 = b[7] as u64;
    assert(((x == b0 | b1 << 8 | b2 << 16 | b3 << 24 | b4 << 32 | b5 << 40 | b6 << 48 | b7 << 56)
        && b0 < 256 && b1 < 256 && b2 < 256 && b3 < 256 && b4 < 256 && b5 < 256 && b6 < 256 && b7
        < 256) ==> (b0 == x & 0xff && b1 == (x >> 8) & 0xff && b2 == (x >> 16) & 0xff && b3 == (x
        >> 24) & 0xff && b4 == (x >> 32) & 0xff && b5 == (x >> 40) & 0xff && b6 == (x >> 48) & 0xff
        && b7 == (x >> 56) & 0xff)) by (bit_vector);
    assert(enc_u64(x) =~= b);
}

/// Encoding of a 128-bit entity id: two 64-bit halves, low first.
pub open spec fn enc_u128(x: u128) -> Seq<u8> {
    enc_u64((x & 0xffff_ffff_ffff_ffff) as u64) + enc_u64((x >> 64) as u64)
}

/// Decoding a 128-bit entity id.
pub open spec fn dec_u128(b: Seq<u8>, i: int) -> Option<(u128, int)> {
    match dec_u64(b, i) {
        Some((lo, j)) => match dec_u64(b, j) {
            Some((hi, k)) => Some(((lo as u128) | (hi as u128) << 64, k)),
            None => None,
        },
        None => None,
    }
}

/// Recombining halves and splitting again is lossless.
pub proof fn lemma_u128_recombine(lo: u64, hi: u64)
    ensures
        ((((lo as u128) | (hi as u128) << 64) & 0xffff_ffff_ffff_ffff) as u64) == lo,
        ((((lo as u128) | (hi as u128) << 64) >> 64) as u64) == hi,
{
    assert(((((lo as u128) | (hi as u128) << 64) & 0xffff_ffff_ffff_ffff) as u64) == lo
        && ((((lo as u128) | (hi as u128) << 64) >> 64) as u64) == hi) by (bit_vector);
}

/// Encoding of a length: a 64-bit little-endian count.
pub open spec fn enc_len(n: nat) -> Seq<u8> {
    enc_u64(n as u64)
}

/// Decoding of a length; counts beyond the address space are refused.
pub open spec fn dec_len(b: Seq<u8>, i: int) -> Option<(usize, int)> {
    match dec_u64(b, i) {
        Some((x, j)) => if x <= usize::MAX as u64 {
            Some((x as usize, j))
        } else {
            None
        },
        None => None,
    }
}

/// Encoding of an opaque byte string: its length, then its bytes.
pub open spec fn enc_bytes(s: Seq<u8>) -> Seq<u8> {
    enc_len(s.len()) + s
}

/// Decoding of an opaque byte string.
pub open spec fn dec_bytes(b: Seq<u8>, i: int) -> Option<(Seq<u8>, int)> {
    match dec_len(b, i) {
        Some((n, j)) => if j + n <= b.len() {
            Some((b.subrange(j, j + n), j + n))
        } else {
            None
        },
        None => None,
    }
}

/// Encoding of a flag: one byte, zero or one.
pub open spec fn enc_bool(x: bool) -> Seq<u8> {
    seq![
        if x {
            1u8
        } else {
            0u8
        },
    ]
}

/// Decoding of a flag; any other byte is refused.
pub open spec fn dec_bool(b: Seq<u8>, i: int) -> Option<(bool, int)> {
    if 0 <= i && i + 1 <= b.len() {
        if b[i] == 0 {
            Some((false, i + 1))
        } else if b[i] == 1 {
            Some((true, i + 1))
        } else {
            None
        }
    } else {
        None
    }
}

/// Encoding of a locality: one byte.
pub open spec fn enc_loc(l: Locality) -> Seq<u8> {
    match l {
        Locality::Local => seq![0u8],
        Locality::Remote => seq![1u8],
    }
}

/// Decoding of a locality.
pub open spec fn dec_loc(b: Seq<u8>, i: int) -> Option<(Locality, int)> {
    if 0 <= i && i + 1 <= b.len() {
        if b[i] == 0 {
            Some((Locality::Local, i + 1))
        } else if b[i] == 1 {
            Some((Locality::Remote, i + 1))
        } else {
            None
        }
    } else {
        None
    }
}

/// Encoding of a stage: one byte.
pub open spec fn enc_stage(s: Stage) -> Seq<u8> {
    match s {
        Stage::PreUpdate => seq![0u8],
        Stage::Update => seq![1u8],
        Stage::PostUpdate => seq![2u8],
    }
}

/// Decoding of a stage.
pub open spec fn dec_stage(b: Seq<u8>, i: int) -> Option<(Stage, int)> {
    if 0 <= i && i + 1 <= b.len() {
        if b[i] == 0 {
            Some((Stage::PreUpdate, i + 1))
        } else if b[i] == 1 {
            Some((Stage::Update, i + 1))
        } else if b[i] == 2 {
            Some((Stage::PostUpdate, i + 1))
        } else {
            None
        }
    } else {
        None
    }
}

/// Encoding of an access mode: one byte.
pub open spec fn enc_access(a: Access) -> Seq<u8> {
    match a {
        Access::Read => seq![0u8],
        Access::Write => seq![1u8],
    }
}

/// Decoding of an access mode.
pub open spec fn dec_access(b: Seq<u8>, i: int) -> Option<(Access, int)> {
    if 0 <= i && i + 1 <= b.len() {
        if b[i] == 0 {
            Some((Access::Read, i + 1))
        } else if b[i] == 1 {
            Some((Access::Write, i + 1))
        } else {
            None
        }
    } else {
        None
    }
}

/// Encoding of an optional 64-bit value: a presence byte, then the
/// value where present.
pub open spec fn enc_opt_u64(o: Option<u64>) -> Seq<u8> {
    match o {
        None => seq![0u8],
        Some(x) => seq![1u8] + enc_u64(x),
    }
}

/// Decoding of an optional 64-bit value.
pub open spec fn dec_opt_u64(b: Seq<u8>, i: int) -> Option<(Option<u64>, int)> {
    if 0 <= i && i + 1 <= b.len() {
        if b[i] == 0 {
            Some((None, i + 1))
        } else if b[i] == 1 {
            match dec_u64(b, i + 1) {
                Some((x, j)) => Some((Some(x), j)),
                None => None,
            }
        } else {
            None
        }
    } else {
        None
    }
}

/// Every primitive decode consumes exactly the encoding of the value
/// it returns.
pub proof fn lemma_dec_u64(b: Seq<u8>, i: int)
    ensures
        match dec_u64(b, i) {
            Some((v, j)) => i <= j <= b.len() && b.subrange(i, j) == enc_u64(v),
            None => true,
        },
{
    if dec_u64(b, i) is Some {
        lemma_u64_round_trip(b.subrange(i, i + 8));
    }
}

/// See [`lemma_dec_u64`]; the same for 128-bit ids.
pub proof fn lemma_dec_u128(b: Seq<u8>, i: int)
    ensures
        match dec_u128(b, i) {
            Some((v, j)) => i <= j <= b.len() && b.subrange(i, j) == enc_u128(v),
            None => true,
        },
{
    if dec_u128(b, i) is Some {
        let (lo, j) = dec_u64(b, i)->Some_0;
        let (hi, k) = dec_u64(b, j)->Some_0;
        lemma_dec_u64(b, i);
        lemma_dec_u64(b, j);
        lemma_u128_recombine(lo, hi);
        let x = (lo as u128) | (hi as u128) << 64;
        assert(b.subrange(i, k) =~= b.subrange(i, j) + b.subrange(j, k));
        assert(enc_u128(x) == enc_u64(lo) + enc_u64(hi));
    }
}

/// See [`lemma_dec_u64`]; the same for lengths.
pub proof fn lemma_dec_len(b: Seq<u8>, i: int)
    ensures
        match dec_len(b, i) {
            Some((v, j)) => i <= j <= b.len() && b.subrange(i, j) == enc_len(v as nat),
            None => true,
        },
{
    if dec_len(b, i) is Some {
        lemma_dec_u64(b, i);
    }
}

/// See [`lemma_dec_u64`]; the same for byte strings.
pub proof fn lemma_dec_bytes(b: Seq<u8>, i: int)
    ensures
        match dec_bytes(b, i) {
            Some((v, j)) => i <= j <= b.len() && b.subrange(i, j) == enc_bytes(v) && v.len()
                <= usize::MAX,
            None => true,
        },
{
    if dec_bytes(b, i) is Some {
        lemma_dec_len(b, i);
        let (n, j) = dec_len(b, i)->Some_0;
        assert(b.subrange(i, j + n) =~= b.subrange(i, j) + b.subrange(j, j + n));
    }
}

/// Encoding of a channel: id bytes, then locality.
pub open spec fn enc_chan(c: ChanV) -> Seq<u8> {
    enc_bytes(c.id) + enc_loc(c.loc)
}

/// Decoding of a channel.
pub open spec fn dec_chan(b: Seq<u8>, i: int) -> Option<(ChanV, int)> {
    match dec_bytes(b, i) {
        Some((id, j)) => match dec_loc(b, j) {
            Some((loc, k)) => Some((ChanV { id: id, loc: loc }, k)),
            None => None,
        },
        None => None,
    }
}

/// Encoding of a message: channel, payload, origin client.
pub open spec fn enc_msg(m: crate::types::MsgV) -> Seq<u8> {
    enc_chan(m.channel) + enc_bytes(m.data) + enc_opt_u64(m.client)
}

/// Decoding of a message.
pub open spec fn dec_msg(b: Seq<u8>, i: int) -> Option<(crate::types::MsgV, int)> {
    match dec_chan(b, i) {
        Some((c, j)) => match dec_bytes(b, j) {
            Some((d, k)) => match dec_opt_u64(b, k) {
                Some((cl, l)) => Some((
                    crate::types::MsgV { channel: c, data: d, client: cl },
                    l,
                )),
                None => None,
            },
            None => None,
        },
        None => None,
    }
}

/// Encoding of a query term: component id, access mode.
pub open spec fn enc_term(t: crate::types::TermV) -> Seq<u8> {
    enc_bytes(t.component) + enc_access(t.access)
}

/// Decoding of a query term.
pub open spec fn dec_term(b: Seq<u8>, i: int) -> Option<(crate::types::TermV, int)> {
    match dec_bytes(b, i) {
        Some((comp, j)) => match dec_access(b, j) {
            Some((a, k)) => Some((crate::types::TermV { component: comp, access: a }, k)),
            None => None,
        },
        None => None,
    }
}

/// Encoding of the items of a message list, in order.
pub open spec fn enc_msg_items(s: Seq<crate::types::MsgV>, k: int) -> Seq<u8>
    decreases s.len() - k,
{
    if k < 0 || k >= s.len() {
        Seq::empty()
    } else {
        enc_msg(s[k]) + enc_msg_items(s, k + 1)
    }
}

/// Decoding of `n` messages.
pub open spec fn dec_msg_items(b: Seq<u8>, i: int, n: nat) -> Option<(
    Seq<crate::types::MsgV>,
    int,
)>
    decreases n,
{
    if n == 0 {
        if 0 <= i <= b.len() {
            Some((Seq::empty(), i))
        } else {
            None
        }
    } else {
        match dec_msg(b, i) {
            Some((m, j)) => match dec_msg_items(b, j, (n - 1) as nat) {
                Some((rest, k)) => Some((seq![m] + rest, k)),
                None => None,
            },
            None => None,
        }
    }
}

/// Encoding of a message list: count, then items.
pub open spec fn enc_msgs(s: Seq<crate::types::MsgV>) -> Seq<u8> {
    enc_len(s.len()) + enc_msg_items(s, 0)
}

/// Decoding of a message list.
pub open spec fn dec_msgs(b: Seq<u8>, i: int) -> Option<(Seq<crate::types::MsgV>, int)> {
    match dec_len(b, i) {
        Some((n, j)) => dec_msg_items(b, j, n as nat),
        None => None,
    }
}

/// Encoding of the items of a channel list, in order.
pub open spec fn enc_chan_items(s: Seq<ChanV>, k: int) -> Seq<u8>
    decreases s.len() - k,
{
    if k < 0 || k >= s.len() {
        Seq::empty()
    } else {
        enc_chan(s[k]) + enc_chan_items(s, k + 1)
    }
}

/// Decoding of `n` channels.
pub open spec fn dec_chan_items(b: Seq<u8>, i: int, n: nat) -> Option<(Seq<ChanV>, int)>
    decreases n,
{
    if n == 0 {
        if 0 <= i <= b.len() {
            Some((Seq::empty(), i))
        } else {
            None
        }
    } else {
        match dec_chan(b, i) {
            Some((m, j)) => match dec_chan_items(b, j, (n - 1) as nat) {
                Some((rest, k)) => Some((seq![m] + rest, k)),
                None => None,
            },
            None => None,
        }
    }
}

/// Encoding of the items of a term list, in order.
pub open spec fn enc_term_items(s: Seq<crate::types::TermV>, k: int) -> Seq<u8>
    decreases s.len() - k,
{
    if k < 0 || k >= s.len() {
        Seq::empty()
    } else {
        enc_term(s[k]) + enc_term_items(s, k + 1)
    }
}

/// Decoding of `n` terms.
pub open spec fn dec_term_items(b: Seq<u8>, i: int, n: nat) -> Option<(
    Seq<crate::types::TermV>,
    int,
)>
    decreases n,
{
    if n == 0 {
        if 0 <= i <= b.len() {
            Some((Seq::empty(), i))
        } else {
            None
        }
    } else {
        match dec_term(b, i) {
            Some((m, j)) => match dec_term_items(b, j, (n - 1) as nat) {
                Some((rest, k)) => Some((seq![m] + rest, k)),
                None => None,
            },
            None => None,
        }
    }
}

/// Encoding of a system descriptor: stage, query, subscriptions.
pub open spec fn enc_system(s: crate::types::SysV) -> Seq<u8> {
    enc_stage(s.stage) + enc_len(s.query.len()) + enc_term_items(s.query, 0) + enc_len(
        s.subscriptions.len(),
    ) + enc_chan_items(s.subscriptions, 0)
}

/// Decoding of a system descriptor.
pub open spec fn dec_system(b: Seq<u8>, i: int) -> Option<(crate::types::SysV, int)> {
    match dec_stage(b, i) {
        Some((st, j)) => match dec_len(b, j) {
            Some((nq, j2)) => match dec_term_items(b, j2, nq as nat) {
                Some((q, j3)) => match dec_len(b, j3) {
                    Some((ns, j4)) => match dec_chan_items(b, j4, ns as nat) {
                        Some((subs, j5)) => Some((
                            crate::types::SysV { stage: st, query: q, subscriptions: subs },
                            j5,
                        )),
                        None => None,
                    },
                    None => None,
                },
                None => None,
            },
            None => None,
        },
        None => None,
    }
}

/// Encoding of the items of a system list, in order.
pub open spec fn enc_system_items(s: Seq<crate::types::SysV>, k: int) -> Seq<u8>
    decreases s.len() - k,
{
    if k < 0 || k >= s.len() {
        Seq::empty()
    } else {
        enc_system(s[k]) + enc_system_items(s, k + 1)
    }
}

/// Decoding of `n` system descriptors.
pub open spec fn dec_system_items(b: Seq<u8>, i: int, n: nat) -> Option<(
    Seq<crate::types::SysV>,
    int,
)>
    decreases n,
{
    if n == 0 {
        if 0 <= i <= b.len() {
            Some((Seq::empty(), i))
        } else {
            None
        }
    } else {
        match dec_system(b, i) {
            Some((m, j)) => match dec_system_items(b, j, (n - 1) as nat) {
                Some((rest, k)) => Some((seq![m] + rest, k)),
                None => None,
            },
            None => None,
        }
    }
}

/// Encoding of one store command, tag first.
pub open spec fn enc_cmd(c: crate::types::CmdV) -> Seq<u8> {
    match c {
        crate::types::CmdV::Create(e) => seq![0u8] + enc_u128(e),
        crate::types::CmdV::Delete(e) => seq![1u8] + enc_u128(e),
        crate::types::CmdV::AddComponent(e, cid, bb) => seq![2u8] + enc_u128(e) + enc_bytes(cid)
            + enc_bytes(bb),
    }
}

/// Decoding of one store command.
pub open spec fn dec_cmd(b: Seq<u8>, i: int) -> Option<(crate::types::CmdV, int)> {
    if 0 <= i && i + 1 <= b.len() {
        if b[i] == 0 {
            match dec_u128(b, i + 1) {
                Some((e, j)) => Some((crate::types::CmdV::Create(e), j)),
                None => None,
            }
        } else if b[i] == 1 {
            match dec_u128(b, i + 1) {
                Some((e, j)) => Some((crate::types::CmdV::Delete(e), j)),
                None => None,
            }
        } else if b[i] == 2 {
            match dec_u128(b, i + 1) {
                Some((e, j)) => match dec_bytes(b, j) {
                    Some((cid, j2)) => match dec_bytes(b, j2) {
                        Some((bb, j3)) => Some((
                            crate::types::CmdV::AddComponent(e, cid, bb),
                            j3,
                        )),
                        None => None,
                    },
                    None => None,
                },
                None => None,
            }
        } else {
            None
        }
    } else {
        None
    }
}

/// Encoding of the items of a command list, in order.
pub open spec fn enc_cmd_items(s: Seq<crate::types::CmdV>, k: int) -> Seq<u8>
    decreases s.len() - k,
{
    if k < 0 || k >= s.len() {
        Seq::empty()
    } else {
        enc_cmd(s[k]) + enc_cmd_items(s, k + 1)
    }
}

/// Decoding of `n` commands.
pub open spec fn dec_cmd_items(b: Seq<u8>, i: int, n: nat) -> Option<(
    Seq<crate::types::CmdV>,
    int,
)>
    decreases n,
{
    if n == 0 {
        if 0 <= i <= b.len() {
            Some((Seq::empty(), i))
        } else {
            None
        }
    } else {
        match dec_cmd(b, i) {
            Some((m, j)) => match dec_cmd_items(b, j, (n - 1) as nat) {
                Some((rest, k)) => Some((seq![m] + rest, k)),
                None => None,
            },
            None => None,
        }
    }
}

/// Encoding of one inbox entry: its channel, then its queue.
pub open spec fn enc_entry(e: (ChanV, Seq<crate::types::MsgV>)) -> Seq<u8> {
    enc_chan(e.0) + enc_msgs(e.1)
}

/// Decoding of one inbox entry.
pub open spec fn dec_entry(b: Seq<u8>, i: int) -> Option<((ChanV, Seq<crate::types::MsgV>), int)> {
    match dec_chan(b, i) {
        Some((c, j)) => match dec_msgs(b, j) {
            Some((q, k)) => Some(((c, q), k)),
            None => None,
        },
        None => None,
    }
}

/// Encoding of the items of an inbox table, in order.
pub open spec fn enc_entry_items(s: Seq<(ChanV, Seq<crate::types::MsgV>)>, k: int) -> Seq<u8>
    decreases s.len() - k,
{
    if k < 0 || k >= s.len() {
        Seq::empty()
    } else {
        enc_entry(s[k]) + enc_entry_items(s, k + 1)
    }
}

/// Decoding of `n` inbox entries.
pub open spec fn dec_entry_items(b: Seq<u8>, i: int, n: nat) -> Option<(
    Seq<(ChanV, Seq<crate::types::MsgV>)>,
    int,
)>
    decreases n,
{
    if n == 0 {
        if 0 <= i <= b.len() {
            Some((Seq::empty(), i))
        } else {
            None
        }
    } else {
        match dec_entry(b, i) {
            Some((m, j)) => match dec_entry_items(b, j, (n - 1) as nat) {
                Some((rest, k)) => Some((seq![m] + rest, k)),
                None => None,
            },
            None => None,
        }
    }
}

/// Encoding of the items of an entity list, in order.
pub open spec fn enc_ent_items(s: Seq<u128>, k: int) -> Seq<u8>
    decreases s.len() - k,
{
    if k < 0 || k >= s.len() {
        Seq::empty()
    } else {
        enc_u128(s[k]) + enc_ent_items(s, k + 1)
    }
}

/// Decoding of `n` entity ids.
pub open spec fn dec_ent_items(b: Seq<u8>, i: int, n: nat) -> Option<(Seq<u128>, int)>
    decreases n,
{
    if n == 0 {
        if 0 <= i <= b.len() {
            Some((Seq::empty(), i))
        } else {
            None
        }
    } else {
        match dec_u128(b, i) {
            Some((m, j)) => match dec_ent_items(b, j, (n - 1) as nat) {
                Some((rest, k)) => Some((seq![m] + rest, k)),
                None => None,
            },
            None => None,
        }
    }
}

/// Encoding of the cells of one value column, in row order.
pub open spec fn enc_cell_items(s: Seq<Seq<u8>>, k: int) -> Seq<u8>
    decreases s.len() - k,
{
    if k < 0 || k >= s.len() {
        Seq::empty()
    } else {
        enc_bytes(s[k]) + enc_cell_items(s, k + 1)
    }
}

/// Decoding of `n` cells of one value column.
pub open spec fn dec_cell_items(b: Seq<u8>, i: int, n: nat) -> Option<(Seq<Seq<u8>>, int)>
    decreases n,
{
    if n == 0 {
        if 0 <= i <= b.len() {
            Some((Seq::empty(), i))
        } else {
            None
        }
    } else {
        match dec_bytes(b, i) {
            Some((m, j)) => match dec_cell_items(b, j, (n - 1) as nat) {
                Some((rest, k)) => Some((seq![m] + rest, k)),
                None => None,
            },
            None => None,
        }
    }
}

/// Encoding of the columns of a query block; every column holds one
/// cell per row.
pub open spec fn enc_col_items(s: Seq<Seq<Seq<u8>>>, k: int) -> Seq<u8>
    decreases s.len() - k,
{
    if k < 0 || k >= s.len() {
        Seq::empty()
    } else {
        enc_cell_items(s[k], 0) + enc_col_items(s, k + 1)
    }
}

/// Decoding of `ncols` columns of `nrows` cells each.
pub open spec fn dec_col_items(b: Seq<u8>, i: int, ncols: nat, nrows: nat) -> Option<(
    Seq<Seq<Seq<u8>>>,
    int,
)>
    decreases ncols,
{
    if ncols == 0 {
        if 0 <= i <= b.len() {
            Some((Seq::empty(), i))
        } else {
            None
        }
    } else {
        match dec_cell_items(b, i, nrows) {
            Some((col, j)) => match dec_col_items(b, j, (ncols - 1) as nat, nrows) {
                Some((rest, k)) => Some((seq![col] + rest, k)),
                None => None,
            },
            None => None,
        }
    }
}

/// A query block is wire-consistent: one cell per row in each column.
pub open spec fn ecs_data_wire_wf(d: crate::types::EcsDataV) -> bool {
    forall|t: int| 0 <= t < d.columns.len() ==> (#[trigger] d.columns[t]).len()
        == d.entities.len()
}

/// Encoding of a query block: the matching entities, then the value
/// columns, each with exactly one cell per entity.
pub open spec fn enc_ecs_data(d: crate::types::EcsDataV) -> Seq<u8> {
    enc_len(d.entities.len()) + enc_ent_items(d.entities, 0) + enc_len(d.columns.len())
        + enc_col_items(d.columns, 0)
}

/// Decoding of a query block.
pub open spec fn dec_ecs_data(b: Seq<u8>, i: int) -> Option<(crate::types::EcsDataV, int)> {
    match dec_len(b, i) {
        Some((n, j)) => match dec_ent_items(b, j, n as nat) {
            Some((ents, j2)) => match dec_len(b, j2) {
                Some((nc, j3)) => match dec_col_items(b, j3, nc as nat, n as nat) {
                    Some((cols, j4)) => Some((
                        crate::types::EcsDataV { entities: ents, columns: cols },
                        j4,
                    )),
                    None => None,
                },
                None => None,
            },
            None => None,
        },
        None => None,
    }
}

/// Encoding of a turn request.
pub open spec fn enc_recv(r: crate::types::RecvV) -> Seq<u8> {
    seq![FORMAT_VERSION] + enc_opt_u64(r.system) + enc_bool(r.is_server) + enc_len(r.inbox.len())
        + enc_entry_items(r.inbox, 0) + enc_ecs_data(r.ecs)
}

/// Decoding of a turn request.
pub open spec fn dec_recv(b: Seq<u8>, i: int) -> Option<(crate::types::RecvV, int)> {
    if 0 <= i && i + 1 <= b.len() && b[i] == FORMAT_VERSION {
        match dec_opt_u64(b, i + 1) {
            Some((sys, j)) => match dec_bool(b, j) {
                Some((srv, j2)) => match dec_len(b, j2) {
                    Some((n, j3)) => match dec_entry_items(b, j3, n as nat) {
                        Some((inbox, j4)) => match dec_ecs_data(b, j4) {
                            Some((d, j5)) => Some((
                                crate::types::RecvV {
                                    system: sys,
                                    inbox: inbox,
                                    ecs: d,
                                    is_server: srv,
                                },
                                j5,
                            )),
                            None => None,
                        },
                        None => None,
                    },
                    None => None,
                },
                None => None,
            },
            None => None,
        }
    } else {
        None
    }
}

/// Encoding of a turn reply.
pub open spec fn enc_send(r: crate::types::SendV) -> Seq<u8> {
    seq![FORMAT_VERSION] + enc_len(r.systems.len()) + enc_system_items(r.systems, 0) + enc_len(
        r.commands.len(),
    ) + enc_cmd_items(r.commands, 0) + enc_ecs_data(r.ecs) + enc_len(r.outbox.len())
        + enc_msg_items(r.outbox, 0)
}

/// Decoding of the head of a turn reply: version, systems, commands.
pub open spec fn dec_send_head(b: Seq<u8>, i: int) -> Option<(
    (Seq<crate::types::SysV>, Seq<crate::types::CmdV>),
    int,
)> {
    if 0 <= i && i + 1 <= b.len() && b[i] == FORMAT_VERSION {
        match dec_len(b, i + 1) {
            Some((ns, j)) => match dec_system_items(b, j, ns as nat) {
                Some((systems, j2)) => match dec_len(b, j2) {
                    Some((nc, j3)) => match dec_cmd_items(b, j3, nc as nat) {
                        Some((commands, j4)) => Some(((systems, commands), j4)),
                        None => None,
                    },
                    None => None,
                },
                None => None,
            },
            None => None,
        }
    } else {
        None
    }
}

/// Decoding of a turn reply.
pub open spec fn dec_send(b: Seq<u8>, i: int) -> Option<(crate::types::SendV, int)> {
    match dec_send_head(b, i) {
        Some(((systems, commands), j4)) => match dec_ecs_data(b, j4) {
            Some((d, j5)) => match dec_len(b, j5) {
                Some((no, j6)) => match dec_msg_items(b, j6, no as nat) {
                    Some((outbox, j7)) => Some((
                        crate::types::SendV {
                            systems: systems,
                            commands: commands,
                            ecs: d,
                            outbox: outbox,
                        },
                        j7,
                    )),
                    None => None,
                },
                None => None,
            },
            None => None,
        },
        None => None,
    }
}

/// A decoded reply head consumes exactly the encodings of its parts.
pub proof fn lemma_dec_send_head(b: Seq<u8>, i: int)
    ensures
        match dec_send_head(b, i) {
            Some((p, j4)) => i <= j4 <= b.len() && b.subrange(i, j4) == seq![FORMAT_VERSION]
                + enc_len(p.0.len()) + enc_system_items(p.0, 0) + enc_len(p.1.len())
                + enc_cmd_items(p.1, 0),
            None => true,
        },
{
    if dec_send_head(b, i) is Some {
        let (ns, j) = dec_len(b, i + 1)->Some_0;
        let (systems, j2) = dec_system_items(b, j, ns as nat)->Some_0;
        let (nc, j3) = dec_len(b, j2)->Some_0;
        let (commands, j4) = dec_cmd_items(b, j3, nc as nat)->Some_0;
        lemma_dec_len(b, i + 1);
        lemma_dec_system_items(b, j, ns as nat);
        lemma_dec_len(b, j2);
        lemma_dec_cmd_items(b, j3, nc as nat);
        assert(b.subrange(i, i + 1) =~= seq![FORMAT_VERSION]);
        assert(b.subrange(i, j) =~= b.subrange(i, i + 1) + b.subrange(i + 1, j));
        assert(b.subrange(i, j2) =~= b.subrange(i, j) + b.subrange(j, j2));
        assert(b.subrange(i, j3) =~= b.subrange(i, j2) + b.subrange(j2, j3));
        assert(b.subrange(i, j4) =~= b.subrange(i, j3) + b.subrange(j3, j4));
    }
}


/// Item encodings are position-independent.
proof fn lemma_msg_items_shift(m: crate::types::MsgV, rest: Seq<crate::types::MsgV>, k: int)
    requires
        0 <= k <= rest.len(),
    ensures
        enc_msg_items(seq![m] + rest, k + 1) == enc_msg_items(rest, k),
    decreases rest.len() - k,
{
    let s = seq![m] + rest;
    if k >= rest.len() {
    } else {
        assert(s[k + 1] == rest[k]);
        lemma_msg_items_shift(m, rest, k + 1);
    }
}

/// Decoding `n` items consumes exactly their encodings, in order.
#[verifier::rlimit(100)]
#[verifier::spinoff_prover]
pub proof fn lemma_dec_msg_items(b: Seq<u8>, i: int, n: nat)
    ensures
        match dec_msg_items(b, i, n) {
            Some((v, j)) => i <= j <= b.len() && v.len() == n && b.subrange(i, j) == enc_msg_items(
                v,
                0,
            ),
            None => true,
        },
    decreases n,
{
    if n == 0 {
        if 0 <= i <= b.len() {
            assert(b.subrange(i, i) =~= Seq::<u8>::empty());
        }
    } else {
        if dec_msg(b, i) is Some {
            let (m, j) = dec_msg(b, i)->Some_0;
            lemma_dec_msg(b, i);
            lemma_dec_msg_items(b, j, (n - 1) as nat);
            if dec_msg_items(b, j, (n - 1) as nat) is Some {
                let (rest, k) = dec_msg_items(b, j, (n - 1) as nat)->Some_0;
                let v = seq![m] + rest;
                assert(v[0] == m);
                lemma_msg_items_shift(m, rest, 0);
                assert(enc_msg_items(v, 0) == enc_msg(m) + enc_msg_items(rest, 0));
                assert(b.subrange(i, k) =~= b.subrange(i, j) + b.subrange(j, k));
            }
        }
    }
}

/// Item encodings are position-independent.
proof fn lemma_chan_items_shift(m: ChanV, rest: Seq<ChanV>, k: int)
    requires
        0 <= k <= rest.len(),
    ensures
        enc_chan_items(seq![m] + rest, k + 1) == enc_chan_items(rest, k),
    decreases rest.len() - k,
{
    let s = seq![m] + rest;
    if k >= rest.len() {
    } else {
        assert(s[k + 1] == rest[k]);
        lemma_chan_items_shift(m, rest, k + 1);
    }
}

/// Decoding `n` items consumes exactly their encodings, in order.
#[verifier::rlimit(100)]
#[verifier::spinoff_prover]
pub proof fn lemma_dec_chan_items(b: Seq<u8>, i: int, n: nat)
    ensures
        match dec_chan_items(b, i, n) {
            Some((v, j)) => i <= j <= b.len() && v.len() == n && b.subrange(i, j) == enc_chan_items(
                v,
                0,
            ),
            None => true,
        },
    decreases n,
{
    if n == 0 {
        if 0 <= i <= b.len() {
            assert(b.subrange(i, i) =~= Seq::<u8>::empty());
        }
    } else {
        if dec_chan(b, i) is Some {
            let (m, j) = dec_chan(b, i)->Some_0;
            lemma_dec_chan(b, i);
            lemma_dec_chan_items(b, j, (n - 1) as nat);
            if dec_chan_items(b, j, (n - 1) as nat) is Some {
                let (rest, k) = dec_chan_items(b, j, (n - 1) as nat)->Some_0;
                let v = seq![m] + rest;
                assert(v[0] == m);
                lemma_chan_items_shift(m, rest, 0);
                assert(enc_chan_items(v, 0) == enc_chan(m) + enc_chan_items(rest, 0));
                assert(b.subrange(i, k) =~= b.subrange(i, j) + b.subrange(j, k));
            }
        }
    }
}

/// Item encodings are position-independent.
proof fn lemma_term_items_shift(m: crate::types::TermV, rest: Seq<crate::types::TermV>, k: int)
    requires
        0 <= k <= rest.len(),
    ensures
        enc_term_items(seq![m] + rest, k + 1) == enc_term_items(rest, k),
    decreases rest.len() - k,
{
    let s = seq![m] + rest;
    if k >= rest.len() {
    } else {
        assert(s[k + 1] == rest[k]);
        lemma_term_items_shift(m, rest, k + 1);
    }
}

/// Decoding `n` items consumes exactly their encodings, in order.
proof fn lemma_dec_term_items(b: Seq<u8>, i: int, n: nat)
    ensures
        match dec_term_items(b, i, n) {
            Some((v, j)) => i <= j <= b.len() && v.len() == n && b.subrange(i, j) == enc_term_items(
                v,
                0,
            ),
            None => true,
        },
    decreases n,
{
    if n == 0 {
        if 0 <= i <= b.len() {
            assert(b.subrange(i, i) =~= Seq::<u8>::empty());
        }
    } else {
        if dec_term(b, i) is Some {
            let (m, j) = dec_term(b, i)->Some_0;
            lemma_dec_term(b, i);
            lemma_dec_term_items(b, j, (n - 1) as nat);
            if dec_term_items(b, j, (n - 1) as nat) is Some {
                let (rest, k) = dec_term_items(b, j, (n - 1) as nat)->Some_0;
                let v = seq![m] + rest;
                assert(v[0] == m);
                lemma_term_items_shift(m, rest, 0);
                assert(enc_term_items(v, 0) == enc_term(m) + enc_term_items(rest, 0));
                assert(b.subrange(i, k) =~= b.subrange(i, j) + b.subrange(j, k));
            }
        }
    }
}

/// Item encodings are position-independent.
proof fn lemma_system_items_shift(m: crate::types::SysV, rest: Seq<crate::types::SysV>, k: int)
    requires
        0 <= k <= rest.len(),
    ensures
        enc_system_items(seq![m] + rest, k + 1) == enc_system_items(rest, k),
    decreases rest.len() - k,
{
    let s = seq![m] + rest;
    if k >= rest.len() {
    } else {
        assert(s[k + 1] == rest[k]);
        lemma_system_items_shift(m, rest, k + 1);
    }
}

/// Decoding `n` items consumes exactly their encodings, in order.
#[verifier::rlimit(100)]
#[verifier::spinoff_prover]
pub proof fn lemma_dec_system_items(b: Seq<u8>, i: int, n: nat)
    ensures
        match dec_system_items(b, i, n) {
            Some((v, j)) => i <= j <= b.len() && v.len() == n && b.subrange(i, j) == enc_system_items(
                v,
                0,
            ),
            None => true,
        },
    decreases n,
{
    if n == 0 {
        if 0 <= i <= b.len() {
            assert(b.subrange(i, i) =~= Seq::<u8>::empty());
        }
    } else {
        if dec_system(b, i) is Some {
            let (m, j) = dec_system(b, i)->Some_0;
            lemma_dec_system(b, i);
            lemma_dec_system_items(b, j, (n - 1) as nat);
            if dec_system_items(b, j, (n - 1) as nat) is Some {
                let (rest, k) = dec_system_items(b, j, (n - 1) as nat)->Some_0;
                let v = seq![m] + rest;
                assert(v[0] == m);
                lemma_system_items_shift(m, rest, 0);
                assert(enc_system_items(v, 0) == enc_system(m) + enc_system_items(rest, 0));
                assert(b.subrange(i, k) =~= b.subrange(i, j) + b.subrange(j, k));
            }
        }
    }
}

/// Item encodings are position-independent.
proof fn lemma_cmd_items_shift(m: crate::types::CmdV, rest: Seq<crate::types::CmdV>, k: int)
    requires
        0 <= k <= rest.len(),
    ensures
        enc_cmd_items(seq![m] + rest, k + 1) == enc_cmd_items(rest, k),
    decreases rest.len() - k,
{
    let s = seq![m] + rest;
    if k >= rest.len() {
    } else {
        assert(s[k + 1] == rest[k]);
        lemma_cmd_items_shift(m, rest, k + 1);
    }
}

/// Decoding `n` items consumes exactly their encodings, in order.
#[verifier::rlimit(100)]
#[verifier::spinoff_prover]
pub proof fn lemma_dec_cmd_items(b: Seq<u8>, i: int, n: nat)
    ensures
        match dec_cmd_items(b, i, n) {
            Some((v, j)) => i <= j <= b.len() && v.len() == n && b.subrange(i, j) == enc_cmd_items(
                v,
                0,
            ),
            None => true,
        },
    decreases n,
{
    if n == 0 {
        if 0 <= i <= b.len() {
            assert(b.subrange(i, i) =~= Seq::<u8>::empty());
        }
    } else {
        if dec_cmd(b, i) is Some {
            let (m, j) = dec_cmd(b, i)->Some_0;
            lemma_dec_cmd(b, i);
            lemma_dec_cmd_items(b, j, (n - 1) as nat);
            if dec_cmd_items(b, j, (n - 1) as nat) is Some {
                let (rest, k) = dec_cmd_items(b, j, (n - 1) as nat)->Some_0;
                let v = seq![m] + rest;
                assert(v[0] == m);
                lemma_cmd_items_shift(m, rest, 0);
                assert(enc_cmd_items(v, 0) == enc_cmd(m) + enc_cmd_items(rest, 0));
                assert(b.subrange(i, k) =~= b.subrange(i, j) + b.subrange(j, k));
            }
        }
    }
}

/// Item encodings are position-independent.
proof fn lemma_entry_items_shift(m: (ChanV, Seq<crate::types::MsgV>), rest: Seq<(ChanV, Seq<crate::types::MsgV>)>, k: int)
    requires
        0 <= k <= rest.len(),
    ensures
        enc_entry_items(seq![m] + rest, k + 1) == enc_entry_items(rest, k),
    decreases rest.len() - k,
{
    let s = seq![m] + rest;
    if k >= rest.len() {
    } else {
        assert(s[k + 1] == rest[k]);
        lemma_entry_items_shift(m, rest, k + 1);
    }
}

/// Decoding `n` items consumes exactly their encodings, in order.
#[verifier::rlimit(100)]
#[verifier::spinoff_prover]
pub proof fn lemma_dec_entry_items(b: Seq<u8>, i: int, n: nat)
    ensures
        match dec_entry_items(b, i, n) {
            Some((v, j)) => i <= j <= b.len() && v.len() == n && b.subrange(i, j) == enc_entry_items(
                v,
                0,
            ),
            None => true,
        },
    decreases n,
{
    if n == 0 {
        if 0 <= i <= b.len() {
            assert(b.subrange(i, i) =~= Seq::<u8>::empty());
        }
    } else {
        if dec_entry(b, i) is Some {
            let (m, j) = dec_entry(b, i)->Some_0;
            lemma_dec_entry(b, i);
            lemma_dec_entry_items(b, j, (n - 1) as nat);
            if dec_entry_items(b, j, (n - 1) as nat) is Some {
                let (rest, k) = dec_entry_items(b, j, (n - 1) as nat)->Some_0;
                let v = seq![m] + rest;
                assert(v[0] == m);
                lemma_entry_items_shift(m, rest, 0);
                assert(enc_entry_items(v, 0) == enc_entry(m) + enc_entry_items(rest, 0));
                assert(b.subrange(i, k) =~= b.subrange(i, j) + b.subrange(j, k));
            }
        }
    }
}

/// Item encodings are position-independent.
proof fn lemma_ent_items_shift(m: u128, rest: Seq<u128>, k: int)
    requires
        0 <= k <= rest.len(),
    ensures
        enc_ent_items(seq![m] + rest, k + 1) == enc_ent_items(rest, k),
    decreases rest.len() - k,
{
    let s = seq![m] + rest;
    if k >= rest.len() {
    } else {
        assert(s[k + 1] == rest[k]);
        lemma_ent_items_shift(m, rest, k + 1);
    }
}

/// Decoding `n` items consumes exactly their encodings, in order.
#[verifier::rlimit(100)]
#[verifier::spinoff_prover]
pub proof fn lemma_dec_ent_items(b: Seq<u8>, i: int, n: nat)
    ensures
        match dec_ent_items(b, i, n) {
            Some((v, j)) => i <= j <= b.len() && v.len() == n && b.subrange(i, j) == enc_ent_items(
                v,
                0,
            ),
            None => true,
        },
    decreases n,
{
    if n == 0 {
        if 0 <= i <= b.len() {
            assert(b.subrange(i, i) =~= Seq::<u8>::empty());
        }
    } else {
        if dec_u128(b, i) is Some {
            let (m, j) = dec_u128(b, i)->Some_0;
            lemma_dec_u128(b, i);
            lemma_dec_ent_items(b, j, (n - 1) as nat);
            if dec_ent_items(b, j, (n - 1) as nat) is Some {
                let (rest, k) = dec_ent_items(b, j, (n - 1) as nat)->Some_0;
                let v = seq![m] + rest;
                assert(v[0] == m);
                lemma_ent_items_shift(m, rest, 0);
                assert(enc_ent_items(v, 0) == enc_u128(m) + enc_ent_items(rest, 0));
                assert(b.subrange(i, k) =~= b.subrange(i, j) + b.subrange(j, k));
            }
        }
    }
}

/// Item encodings are position-independent.
proof fn lemma_cell_items_shift(m: Seq<u8>, rest: Seq<Seq<u8>>, k: int)
    requires
        0 <= k <= rest.len(),
    ensures
        enc_cell_items(seq![m] + rest, k + 1) == enc_cell_items(rest, k),
    decreases rest.len() - k,
{
    let s = seq![m] + rest;
    if k >= rest.len() {
    } else {
        assert(s[k + 1] == rest[k]);
        lemma_cell_items_shift(m, rest, k + 1);
    }
}

/// Decoding `n` items consumes exactly their encodings, in order.
#[verifier::rlimit(100)]
#[verifier::spinoff_prover]
pub proof fn lemma_dec_cell_items(b: Seq<u8>, i: int, n: nat)
    ensures
        match dec_cell_items(b, i, n) {
            Some((v, j)) => i <= j <= b.len() && v.len() == n && b.subrange(i, j) == enc_cell_items(
                v,
                0,
            ),
            None => true,
        },
    decreases n,
{
    if n == 0 {
        if 0 <= i <= b.len() {
            assert(b.subrange(i, i) =~= Seq::<u8>::empty());
        }
    } else {
        if dec_bytes(b, i) is Some {
            let (m, j) = dec_bytes(b, i)->Some_0;
            lemma_dec_bytes(b, i);
            lemma_dec_cell_items(b, j, (n - 1) as nat);
            if dec_cell_items(b, j, (n - 1) as nat) is Some {
                let (rest, k) = dec_cell_items(b, j, (n - 1) as nat)->Some_0;
                let v = seq![m] + rest;
                assert(v[0] == m);
                lemma_cell_items_shift(m, rest, 0);
                assert(enc_cell_items(v, 0) == enc_bytes(m) + enc_cell_items(rest, 0));
                assert(b.subrange(i, k) =~= b.subrange(i, j) + b.subrange(j, k));
            }
        }
    }
}

/// A decoded channel consumes exactly its encoding.
pub proof fn lemma_dec_chan(b: Seq<u8>, i: int)
    ensures
        match dec_chan(b, i) {
            Some((v, j)) => i <= j <= b.len() && b.subrange(i, j) == enc_chan(v),
            None => true,
        },
{
    if dec_chan(b, i) is Some {
        let (id, j) = dec_bytes(b, i)->Some_0;
        let (loc, k) = dec_loc(b, j)->Some_0;
        lemma_dec_bytes(b, i);
        assert(b.subrange(j, k) =~= enc_loc(loc));
        assert(b.subrange(i, k) =~= b.subrange(i, j) + b.subrange(j, k));
    }
}

/// A decoded message consumes exactly its encoding.
pub proof fn lemma_dec_msg(b: Seq<u8>, i: int)
    ensures
        match dec_msg(b, i) {
            Some((v, j)) => i <= j <= b.len() && b.subrange(i, j) == enc_msg(v),
            None => true,
        },
{
    if dec_msg(b, i) is Some {
        let (c, j) = dec_chan(b, i)->Some_0;
        let (d, k) = dec_bytes(b, j)->Some_0;
        let (cl, l) = dec_opt_u64(b, k)->Some_0;
        lemma_dec_chan(b, i);
        lemma_dec_bytes(b, j);
        lemma_dec_opt_u64(b, k);
        assert(b.subrange(i, l) =~= b.subrange(i, j) + b.subrange(j, k) + b.subrange(k, l));
    }
}

/// A decoded optional value consumes exactly its encoding.
pub proof fn lemma_dec_opt_u64(b: Seq<u8>, i: int)
    ensures
        match dec_opt_u64(b, i) {
            Some((v, j)) => i <= j <= b.len() && b.subrange(i, j) == enc_opt_u64(v),
            None => true,
        },
{
    if dec_opt_u64(b, i) is Some {
        if b[i] == 0 {
            assert(b.subrange(i, i + 1) =~= seq![0u8]);
        } else {
            lemma_dec_u64(b, i + 1);
            let (x, j) = dec_u64(b, i + 1)->Some_0;
            assert(b.subrange(i, j) =~= seq![1u8] + b.subrange(i + 1, j));
        }
    }
}

/// A decoded term consumes exactly its encoding.
pub proof fn lemma_dec_term(b: Seq<u8>, i: int)
    ensures
        match dec_term(b, i) {
            Some((v, j)) => i <= j <= b.len() && b.subrange(i, j) == enc_term(v),
            None => true,
        },
{
    if dec_term(b, i) is Some {
        let (c, j) = dec_bytes(b, i)->Some_0;
        let (a, k) = dec_access(b, j)->Some_0;
        lemma_dec_bytes(b, i);
        assert(b.subrange(j, k) =~= enc_access(a));
        assert(b.subrange(i, k) =~= b.subrange(i, j) + b.subrange(j, k));
    }
}

/// A decoded system descriptor consumes exactly its encoding.
#[verifier::rlimit(100)]
pub proof fn lemma_dec_system(b: Seq<u8>, i: int)
    ensures
        match dec_system(b, i) {
            Some((v, j)) => i <= j <= b.len() && b.subrange(i, j) == enc_system(v),
            None => true,
        },
{
    if dec_system(b, i) is Some {
        let (st, j) = dec_stage(b, i)->Some_0;
        let (nq, j2) = dec_len(b, j)->Some_0;
        let (q, j3) = dec_term_items(b, j2, nq as nat)->Some_0;
        let (ns, j4) = dec_len(b, j3)->Some_0;
        let (subs, j5) = dec_chan_items(b, j4, ns as nat)->Some_0;
        assert(b.subrange(i, j) =~= enc_stage(st));
        lemma_dec_len(b, j);
        lemma_dec_term_items(b, j2, nq as nat);
        lemma_dec_len(b, j3);
        lemma_dec_chan_items(b, j4, ns as nat);
        assert(b.subrange(i, j5) =~= b.subrange(i, j) + b.subrange(j, j2) + b.subrange(j2, j3)
            + b.subrange(j3, j4) + b.subrange(j4, j5));
    }
}

/// A decoded command consumes exactly its encoding.
pub proof fn lemma_dec_cmd(b: Seq<u8>, i: int)
    ensures
        match dec_cmd(b, i) {
            Some((v, j)) => i <= j <= b.len() && b.subrange(i, j) == enc_cmd(v),
            None => true,
        },
{
    if dec_cmd(b, i) is Some {
        if b[i] == 0 || b[i] == 1 {
            lemma_dec_u128(b, i + 1);
            let (e, j) = dec_u128(b, i + 1)->Some_0;
            assert(b.subrange(i, j) =~= seq![b[i]] + b.subrange(i + 1, j));
        } else {
            let (e, j) = dec_u128(b, i + 1)->Some_0;
            let (cid, j2) = dec_bytes(b, j)->Some_0;
            let (bb, j3) = dec_bytes(b, j2)->Some_0;
            lemma_dec_u128(b, i + 1);
            lemma_dec_bytes(b, j);
            lemma_dec_bytes(b, j2);
            assert(b.subrange(i, j3) =~= seq![2u8] + b.subrange(i + 1, j) + b.subrange(j, j2)
                + b.subrange(j2, j3));
        }
    }
}

/// A decoded inbox entry consumes exactly its encoding.
pub proof fn lemma_dec_entry(b: Seq<u8>, i: int)
    ensures
        match dec_entry(b, i) {
            Some((v, j)) => i <= j <= b.len() && b.subrange(i, j) == enc_entry(v),
            None => true,
        },
{
    if dec_entry(b, i) is Some {
        let (c, j) = dec_chan(b, i)->Some_0;
        let (q, k) = dec_msgs(b, j)->Some_0;
        lemma_dec_chan(b, i);
        lemma_dec_msgs(b, j);
        assert(b.subrange(i, k) =~= b.subrange(i, j) + b.subrange(j, k));
    }
}

/// A decoded message list consumes exactly its encoding.
pub proof fn lemma_dec_msgs(b: Seq<u8>, i: int)
    ensures
        match dec_msgs(b, i) {
            Some((v, j)) => i <= j <= b.len() && b.subrange(i, j) == enc_msgs(v),
            None => true,
        },
{
    if dec_msgs(b, i) is Some {
        let (n, j) = dec_len(b, i)->Some_0;
        lemma_dec_len(b, i);
        lemma_dec_msg_items(b, j, n as nat);
        let (v, k) = dec_msg_items(b, j, n as nat)->Some_0;
        assert(b.subrange(i, k) =~= b.subrange(i, j) + b.subrange(j, k));
    }
}

/// A decoded query block consumes exactly its encoding and is
/// wire-consistent.
pub proof fn lemma_dec_ecs_data(b: Seq<u8>, i: int)
    ensures
        match dec_ecs_data(b, i) {
            Some((v, j)) => i <= j <= b.len() && b.subrange(i, j) == enc_ecs_data(v)
                && ecs_data_wire_wf(v),
            None => true,
        },
{
    if dec_ecs_data(b, i) is Some {
        let (n, j) = dec_len(b, i)->Some_0;
        let (ents, j2) = dec_ent_items(b, j, n as nat)->Some_0;
        let (nc, j3) = dec_len(b, j2)->Some_0;
        let (cols, j4) = dec_col_items(b, j3, nc as nat, n as nat)->Some_0;
        lemma_dec_len(b, i);
        lemma_dec_ent_items(b, j, n as nat);
        lemma_dec_len(b, j2);
        lemma_dec_col_items(b, j3, nc as nat, n as nat);
        assert(b.subrange(i, j4) =~= b.subrange(i, j) + b.subrange(j, j2) + b.subrange(j2, j3)
            + b.subrange(j3, j4));
    }
}

/// Column item encodings are position-independent.
proof fn lemma_col_items_shift(m: Seq<Seq<u8>>, rest: Seq<Seq<Seq<u8>>>, k: int)
    requires
        0 <= k <= rest.len(),
    ensures
        enc_col_items(seq![m] + rest, k + 1) == enc_col_items(rest, k),
    decreases rest.len() - k,
{
    let s = seq![m] + rest;
    if k >= rest.len() {
    } else {
        assert(s[k + 1] == rest[k]);
        lemma_col_items_shift(m, rest, k + 1);
    }
}

/// Decoding columns consumes exactly their encodings and yields one
/// cell per row in each.
pub proof fn lemma_dec_col_items(b: Seq<u8>, i: int, ncols: nat, nrows: nat)
    ensures
        match dec_col_items(b, i, ncols, nrows) {
            Some((v, j)) => i <= j <= b.len() && v.len() == ncols && b.subrange(i, j)
                == enc_col_items(v, 0) && forall|t: int|
                0 <= t < v.len() ==> (#[trigger] v[t]).len() == nrows,
            None => true,
        },
    decreases ncols,
{
    if ncols == 0 {
        if 0 <= i <= b.len() {
            assert(b.subrange(i, i) =~= Seq::<u8>::empty());
        }
    } else {
        if dec_cell_items(b, i, nrows) is Some {
            let (col, j) = dec_cell_items(b, i, nrows)->Some_0;
            lemma_dec_cell_items(b, i, nrows);
            lemma_dec_col_items(b, j, (ncols - 1) as nat, nrows);
            if dec_col_items(b, j, (ncols - 1) as nat, nrows) is Some {
                let (rest, k) = dec_col_items(b, j, (ncols - 1) as nat, nrows)->Some_0;
                let v = seq![col] + rest;
                assert(v[0] == col);
                lemma_col_items_shift(col, rest, 0);
                assert(enc_col_items(v, 0) == enc_cell_items(col, 0) + enc_col_items(rest, 0));
                assert(b.subrange(i, k) =~= b.subrange(i, j) + b.subrange(j, k));
            }
        }
    }
}

/// Appends the encoding of a 64-bit integer.
fn put_u64(out: &mut Vec<u8>, x: u64)
    ensures
        final(out)@ == old(out)@ + enc_u64(x),
{
    let ghost pre = out@;
    out.push((x & 0xff) as u8);
    out.push(((x >> 8) & 0xff) as u8);
    out.push(((x >> 16) & 0xff) as u8);
    out.push(((x >> 24) & 0xff) as u8);
    out.push(((x >> 32) & 0xff) as u8);
    out.push(((x >> 40) & 0xff) as u8);
    out.push(((x >> 48) & 0xff) as u8);
    out.push(((x >> 56) & 0xff) as u8);
    proof {
        assert(out@ =~= pre + enc_u64(x));
    }
}

/// Appends the encoding of a 128-bit entity id.
fn put_u128(out: &mut Vec<u8>, x: u128)
    ensures
        final(out)@ == old(out)@ + enc_u128(x),
{
    let ghost pre = out@;
    put_u64(out, (x & 0xffff_ffff_ffff_ffff) as u64);
    put_u64(out, (x >> 64) as u64);
    proof {
        assert(out@ =~= pre + enc_u128(x));
    }
}

/// Appends the encoding of a length.
fn put_len(out: &mut Vec<u8>, n: usize)
    ensures
        final(out)@ == old(out)@ + enc_len(n as nat),
{
    put_u64(out, n as u64);
}

/// Appends the encoding of a byte string.
fn put_bytes(out: &mut Vec<u8>, s: &Vec<u8>)
    ensures
        final(out)@ == old(out)@ + enc_bytes(s@),
{
    let ghost pre = out@;
    put_len(out, s.len());
    let n = s.len();
    let mut i: usize = 0;
    while i < n
        invariant
            0 <= i <= n,
            n == s@.len(),
            out@ == pre + enc_len(s@.len()) + s@.subrange(0, i as int),
        decreases n - i,
    {
        out.push(s[i]);
        proof {
            assert(out@ =~= pre + enc_len(s@.len()) + s@.subrange(0, i + 1 as int));
        }
        i = i + 1;
    }
    proof {
        assert(s@.subrange(0, n as int) =~= s@);
        assert(out@ =~= pre + enc_bytes(s@));
    }
}

/// Appends the encoding of a flag.
fn put_bool(out: &mut Vec<u8>, x: bool)
    ensures
        final(out)@ == old(out)@ + enc_bool(x),
{
    let ghost pre = out@;
    out.push(if x { 1 } else { 0 });
    proof {
        assert(out@ =~= pre + enc_bool(x));
    }
}

/// Appends the encoding of a locality.
fn put_loc(out: &mut Vec<u8>, l: Locality)
    ensures
        final(out)@ == old(out)@ + enc_loc(l),
{
    let ghost pre = out@;
    match l {
        Locality::Local => out.push(0),
        Locality::Remote => out.push(1),
    }
    proof {
        assert(out@ =~= pre + enc_loc(l));
    }
}

/// Appends the encoding of a stage.
fn put_stage(out: &mut Vec<u8>, s: Stage)
    ensures
        final(out)@ == old(out)@ + enc_stage(s),
{
    let ghost pre = out@;
    match s {
        Stage::PreUpdate => out.push(0),
        Stage::Update => out.push(1),
        Stage::PostUpdate => out.push(2),
    }
    proof {
        assert(out@ =~= pre + enc_stage(s));
    }
}

/// Appends the encoding of an access mode.
fn put_access(out: &mut Vec<u8>, a: Access)
    ensures
        final(out)@ == old(out)@ + enc_access(a),
{
    let ghost pre = out@;
    match a {
        Access::Read => out.push(0),
        Access::Write => out.push(1),
    }
    proof {
        assert(out@ =~= pre + enc_access(a));
    }
}

/// Appends the encoding of an optional 64-bit value.
fn put_opt_u64(out: &mut Vec<u8>, o: &Option<u64>)
    ensures
        final(out)@ == old(out)@ + enc_opt_u64(*o),
{
    let ghost pre = out@;
    match o {
        None => {
            out.push(0);
            proof {
                assert(out@ =~= pre + enc_opt_u64(None));
            }
        },
        Some(x) => {
            out.push(1);
            put_u64(out, *x);
            proof {
                assert(out@ =~= pre + enc_opt_u64(Some(*x)));
            }
        },
    }
}

/// Appends the encoding of a channel.
fn put_chan(out: &mut Vec<u8>, c: &crate::types::ChannelId)
    ensures
        final(out)@ == old(out)@ + enc_chan(c@),
{
    let ghost pre = out@;
    put_bytes(out, &c.id);
    put_loc(out, c.locality);
    proof {
        assert(out@ =~= pre + enc_chan(c@));
    }
}

/// Appends the encoding of a message.
fn put_msg(out: &mut Vec<u8>, m: &crate::types::MessageData)
    ensures
        final(out)@ == old(out)@ + enc_msg(m@),
{
    let ghost pre = out@;
    put_chan(out, &m.channel);
    put_bytes(out, &m.data);
    put_opt_u64(out, &m.client);
    proof {
        assert(out@ =~= pre + enc_msg(m@));
    }
}

/// Appends the encoding of a message list.
fn put_msgs(out: &mut Vec<u8>, s: &Vec<crate::types::MessageData>)
    ensures
        final(out)@ == old(out)@ + enc_msgs(crate::types::msgs_view(s@)),
{
    let ghost pre = out@;
    let ghost sv = crate::types::msgs_view(s@);
    put_len(out, s.len());
    let n = s.len();
    let mut i: usize = 0;
    while i < n
        invariant
            0 <= i <= n,
            n == s@.len(),
            sv == crate::types::msgs_view(s@),
            sv.len() == n,
            out@ + enc_msg_items(sv, i as int) == pre + enc_len(sv.len()) + enc_msg_items(sv, 0),
        decreases n - i,
    {
        proof {
            assert(sv[i as int] == s@[i as int]@);
        }
        put_msg(out, &s[i]);
        proof {
            assert(out@ + enc_msg_items(sv, i + 1 as int) =~= pre + enc_len(sv.len())
                + enc_msg_items(sv, 0));
        }
        i = i + 1;
    }
    proof {
        assert(enc_msg_items(sv, n as int) =~= Seq::<u8>::empty());
        assert(out@ =~= out@ + enc_msg_items(sv, n as int));
        assert(out@ =~= pre + enc_msgs(sv));
    }
}

/// Appends the encoding of a query term.
fn put_term(out: &mut Vec<u8>, t: &crate::types::QueryTerm)
    ensures
        final(out)@ == old(out)@ + enc_term(t@),
{
    let ghost pre = out@;
    put_bytes(out, &t.component);
    put_access(out, t.access);
    proof {
        assert(out@ =~= pre + enc_term(t@));
    }
}

/// Appends the encoding of a system descriptor.
fn put_system(out: &mut Vec<u8>, sd: &crate::types::SystemDescriptor)
    ensures
        final(out)@ == old(out)@ + enc_system(sd@),
{
    let ghost pre = out@;
    let ghost qv = crate::types::terms_view(sd.query@);
    let ghost cv = crate::types::chans_view(sd.subscriptions@);
    put_stage(out, sd.stage);
    put_len(out, sd.query.len());
    let nq = sd.query.len();
    let mut i: usize = 0;
    while i < nq
        invariant
            0 <= i <= nq,
            nq == sd.query@.len(),
            qv == crate::types::terms_view(sd.query@),
            qv.len() == nq,
            out@ + enc_term_items(qv, i as int) == pre + enc_stage(sd@.stage) + enc_len(qv.len())
                + enc_term_items(qv, 0),
        decreases nq - i,
    {
        proof {
            assert(qv[i as int] == sd.query@[i as int]@);
        }
        put_term(out, &sd.query[i]);
        proof {
            assert(out@ + enc_term_items(qv, i + 1 as int) =~= pre + enc_stage(sd@.stage)
                + enc_len(qv.len()) + enc_term_items(qv, 0));
        }
        i = i + 1;
    }
    proof {
        assert(enc_term_items(qv, nq as int) =~= Seq::<u8>::empty());
        assert(out@ =~= out@ + enc_term_items(qv, nq as int));
    }
    let ghost mid = out@;
    put_len(out, sd.subscriptions.len());
    let ns = sd.subscriptions.len();
    let mut k: usize = 0;
    while k < ns
        invariant
            0 <= k <= ns,
            ns == sd.subscriptions@.len(),
            cv == crate::types::chans_view(sd.subscriptions@),
            cv.len() == ns,
            out@ + enc_chan_items(cv, k as int) == mid + enc_len(cv.len()) + enc_chan_items(
                cv,
                0,
            ),
        decreases ns - k,
    {
        proof {
            assert(cv[k as int] == sd.subscriptions@[k as int]@);
        }
        put_chan(out, &sd.subscriptions[k]);
        proof {
            assert(out@ + enc_chan_items(cv, k + 1 as int) =~= mid + enc_len(cv.len())
                + enc_chan_items(cv, 0));
        }
        k = k + 1;
    }
    proof {
        assert(enc_chan_items(cv, ns as int) =~= Seq::<u8>::empty());
        assert(out@ =~= out@ + enc_chan_items(cv, ns as int));
        assert(out@ =~= pre + enc_system(sd@));
    }
}

/// Appends the encoding of one store command.
fn put_cmd(out: &mut Vec<u8>, c: &crate::types::EcsCommand)
    ensures
        final(out)@ == old(out)@ + enc_cmd(c@),
{
    let ghost pre = out@;
    match c {
        crate::types::EcsCommand::Create(e) => {
            out.push(0);
            put_u128(out, *e);
            proof {
                assert(out@ =~= pre + enc_cmd(c@));
            }
        },
        crate::types::EcsCommand::Delete(e) => {
            out.push(1);
            put_u128(out, *e);
            proof {
                assert(out@ =~= pre + enc_cmd(c@));
            }
        },
        crate::types::EcsCommand::AddComponent(e, cid, bb) => {
            out.push(2);
            put_u128(out, *e);
            put_bytes(out, cid);
            put_bytes(out, bb);
            proof {
                assert(out@ =~= pre + enc_cmd(c@));
            }
        },
    }
}

/// Appends the encoding of a query block. Every column must hold one
/// cell per row: the wire shape carries the row count only once.
fn put_ecs_data(out: &mut Vec<u8>, d: &crate::types::EcsData)
    requires
        ecs_data_wire_wf(d@),
    ensures
        final(out)@ == old(out)@ + enc_ecs_data(d@),
{
    let ghost pre = out@;
    let ghost dv = d@;
    put_len(out, d.entities.len());
    let n = d.entities.len();
    let mut i: usize = 0;
    while i < n
        invariant
            0 <= i <= n,
            n == d.entities@.len(),
            dv == d@,
            out@ + enc_ent_items(dv.entities, i as int) == pre + enc_len(dv.entities.len())
                + enc_ent_items(dv.entities, 0),
        decreases n - i,
    {
        put_u128(out, d.entities[i]);
        proof {
            assert(out@ + enc_ent_items(dv.entities, i + 1 as int) =~= pre + enc_len(
                dv.entities.len(),
            ) + enc_ent_items(dv.entities, 0));
        }
        i = i + 1;
    }
    proof {
        assert(enc_ent_items(dv.entities, n as int) =~= Seq::<u8>::empty());
        assert(out@ =~= out@ + enc_ent_items(dv.entities, n as int));
    }
    let ghost mid = out@;
    put_len(out, d.columns.len());
    let nc = d.columns.len();
    let mut t: usize = 0;
    while t < nc
        invariant
            0 <= t <= nc,
            nc == d.columns@.len(),
            dv == d@,
            dv.columns.len() == nc,
            ecs_data_wire_wf(dv),
            out@ + enc_col_items(dv.columns, t as int) == mid + enc_len(dv.columns.len())
                + enc_col_items(dv.columns, 0),
        decreases nc - t,
    {
        let ghost colstart = out@;
        let ghost colv = dv.columns[t as int];
        let nr = d.columns[t].len();
        proof {
            assert(colv == d.columns@[t as int]@.map_values(|b: Vec<u8>| b@));
            assert(colv.len() == nr);
        }
        let mut r: usize = 0;
        while r < nr
            invariant
                0 <= r <= nr,
                t < nc,
                nc == d.columns@.len(),
                dv == d@,
                nr == d.columns@[t as int]@.len(),
                colv == dv.columns[t as int],
                colv.len() == nr,
                out@ + enc_cell_items(colv, r as int) == colstart + enc_cell_items(colv, 0),
            decreases nr - r,
        {
            proof {
                assert(colv[r as int] == d.columns@[t as int]@[r as int]@);
            }
            put_bytes(out, &d.columns[t][r]);
            proof {
                assert(out@ + enc_cell_items(colv, r + 1 as int) =~= colstart + enc_cell_items(
                    colv,
                    0,
                ));
            }
            r = r + 1;
        }
        proof {
            assert(enc_cell_items(colv, nr as int) =~= Seq::<u8>::empty());
            assert(out@ =~= out@ + enc_cell_items(colv, nr as int));
            assert(out@ =~= colstart + enc_cell_items(colv, 0));
            assert(out@ + enc_col_items(dv.columns, t + 1 as int) =~= mid + enc_len(
                dv.columns.len(),
            ) + enc_col_items(dv.columns, 0));
        }
        t = t + 1;
    }
    proof {
        assert(enc_col_items(dv.columns, nc as int) =~= Seq::<u8>::empty());
        assert(out@ =~= out@ + enc_col_items(dv.columns, nc as int));
        assert(out@ =~= pre + enc_ecs_data(dv));
    }
}

/// Serializes a turn request. The query block must be
/// wire-consistent: one cell per row in every column, as the engine
/// produces it.
pub fn encode_receive_buf(buf: &crate::types::ReceiveBuf) -> (r: Vec<u8>)
    requires
        ecs_data_wire_wf(buf@.ecs),
    ensures
        r@ == enc_recv(buf@),
{
    let mut out: Vec<u8> = Vec::new();
    let ghost bv = buf@;
    out.push(FORMAT_VERSION);
    put_opt_u64(&mut out, &buf.system);
    put_bool(&mut out, buf.is_server);
    let ghost head = out@;
    put_len(&mut out, buf.inbox.len());
    let n = buf.inbox.len();
    let ghost ev = bv.inbox;
    let mut i: usize = 0;
    while i < n
        invariant
            0 <= i <= n,
            n == buf.inbox@.len(),
            bv == buf@,
            ev == bv.inbox,
            ev.len() == n,
            out@ + enc_entry_items(ev, i as int) == head + enc_len(ev.len()) + enc_entry_items(
                ev,
                0,
            ),
        decreases n - i,
    {
        let ghost estart = out@;
        proof {
            assert(ev[i as int] == (
                buf.inbox@[i as int].0@,
                crate::types::msgs_view(buf.inbox@[i as int].1@),
            ));
        }
        put_chan(&mut out, &buf.inbox[i].0);
        put_msgs(&mut out, &buf.inbox[i].1);
        proof {
            assert(out@ =~= estart + enc_entry(ev[i as int]));
            assert(out@ + enc_entry_items(ev, i + 1 as int) =~= head + enc_len(ev.len())
                + enc_entry_items(ev, 0));
        }
        i = i + 1;
    }
    proof {
        assert(enc_entry_items(ev, n as int) =~= Seq::<u8>::empty());
        assert(out@ =~= out@ + enc_entry_items(ev, n as int));
    }
    put_ecs_data(&mut out, &buf.ecs);
    proof {
        assert(out@ =~= enc_recv(bv));
    }
    out
}

/// Serializes a turn reply. The query block must be wire-consistent:
/// one cell per row in every column.
pub fn encode_send_buf(buf: &crate::types::SendBuf) -> (r: Vec<u8>)
    requires
        ecs_data_wire_wf(buf@.ecs),
    ensures
        r@ == enc_send(buf@),
{
    let mut out: Vec<u8> = Vec::new();
    let ghost bv = buf@;
    out.push(FORMAT_VERSION);
    let ghost head = out@;
    put_len(&mut out, buf.systems.len());
    let ns = buf.systems.len();
    let ghost sysv = bv.systems;
    let mut i: usize = 0;
    while i < ns
        invariant
            0 <= i <= ns,
            ns == buf.systems@.len(),
            bv == buf@,
            sysv == bv.systems,
            sysv.len() == ns,
            out@ + enc_system_items(sysv, i as int) == head + enc_len(sysv.len())
                + enc_system_items(sysv, 0),
        decreases ns - i,
    {
        proof {
            assert(sysv[i as int] == buf.systems@[i as int]@);
        }
        put_system(&mut out, &buf.systems[i]);
        proof {
            assert(out@ + enc_system_items(sysv, i + 1 as int) =~= head + enc_len(sysv.len())
                + enc_system_items(sysv, 0));
        }
        i = i + 1;
    }
    proof {
        assert(enc_system_items(sysv, ns as int) =~= Seq::<u8>::empty());
        assert(out@ =~= out@ + enc_system_items(sysv, ns as int));
    }
    let ghost mid = out@;
    put_len(&mut out, buf.commands.len());
    let nc = buf.commands.len();
    let ghost cmdv = bv.commands;
    let mut k: usize = 0;
    while k < nc
        invariant
            0 <= k <= nc,
            nc == buf.commands@.len(),
            bv == buf@,
            cmdv == bv.commands,
            cmdv.len() == nc,
            out@ + enc_cmd_items(cmdv, k as int) == mid + enc_len(cmdv.len()) + enc_cmd_items(
                cmdv,
                0,
            ),
        decreases nc - k,
    {
        proof {
            assert(cmdv[k as int] == buf.commands@[k as int]@);
        }
        put_cmd(&mut out, &buf.commands[k]);
        proof {
            assert(out@ + enc_cmd_items(cmdv, k + 1 as int) =~= mid + enc_len(cmdv.len())
                + enc_cmd_items(cmdv, 0));
        }
        k = k + 1;
    }
    proof {
        assert(enc_cmd_items(cmdv, nc as int) =~= Seq::<u8>::empty());
        assert(out@ =~= out@ + enc_cmd_items(cmdv, nc as int));
    }
    put_ecs_data(&mut out, &buf.ecs);
    put_msgs(&mut out, &buf.outbox);
    proof {
        assert(out@ =~= enc_send(bv));
    }
    out
}


/// Reads a 64-bit integer.
fn get_u64(buf: &Vec<u8>, pos: usize) -> (r: Option<(u64, usize)>)
    ensures
        match r {
            Some(p) => dec_u64(buf@, pos as int) == Some((p.0, p.1 as int)) && p.1 <= buf@.len(),
            None => dec_u64(buf@, pos as int) is None,
        },
{
    if buf.len() < 8 || pos > buf.len() - 8 {
        return None;
    }
    let x = (buf[pos] as u64) | (buf[pos + 1] as u64) << 8 | (buf[pos + 2] as u64) << 16 | (buf[pos
        + 3] as u64) << 24 | (buf[pos + 4] as u64) << 32 | (buf[pos + 5] as u64) << 40 | (buf[pos
        + 6] as u64) << 48 | (buf[pos + 7] as u64) << 56;
    proof {
        let sub = buf@.subrange(pos as int, pos + 8);
        assert(sub[0] == buf@[pos as int]);
        assert(sub[1] == buf@[pos + 1]);
        assert(sub[2] == buf@[pos + 2]);
        assert(sub[3] == buf@[pos + 3]);
        assert(sub[4] == buf@[pos + 4]);
        assert(sub[5] == buf@[pos + 5]);
        assert(sub[6] == buf@[pos + 6]);
        assert(sub[7] == buf@[pos + 7]);
        assert(u64_of(sub) == x);
    }
    Some((x, pos + 8))
}

/// Reads a 128-bit entity id.
fn get_u128(buf: &Vec<u8>, pos: usize) -> (r: Option<(u128, usize)>)
    ensures
        match r {
            Some(p) => dec_u128(buf@, pos as int) == Some((p.0, p.1 as int)) && p.1 <= buf@.len(),
            None => dec_u128(buf@, pos as int) is None,
        },
{
    match get_u64(buf, pos) {
        None => None,
        Some((lo, j)) => match get_u64(buf, j) {
            None => None,
            Some((hi, k)) => Some(((lo as u128) | (hi as u128) << 64, k)),
        },
    }
}

/// Reads a length; counts beyond the address space are refused.
fn get_len(buf: &Vec<u8>, pos: usize) -> (r: Option<(usize, usize)>)
    ensures
        match r {
            Some(p) => dec_len(buf@, pos as int) == Some((p.0, p.1 as int)) && p.1 <= buf@.len(),
            None => dec_len(buf@, pos as int) is None,
        },
{
    match get_u64(buf, pos) {
        None => None,
        Some((x, j)) => {
            if x > usize::MAX as u64 {
                None
            } else {
                Some((x as usize, j))
            }
        },
    }
}

/// Reads a byte string.
fn get_bytes(buf: &Vec<u8>, pos: usize) -> (r: Option<(Vec<u8>, usize)>)
    ensures
        match r {
            Some(p) => dec_bytes(buf@, pos as int) == Some((p.0@, p.1 as int)) && p.1
                <= buf@.len(),
            None => dec_bytes(buf@, pos as int) is None,
        },
{
    match get_len(buf, pos) {
        None => None,
        Some((n, j)) => {
            let blen = buf.len();
            if n > blen || j > blen - n {
                return None;
            }
            let mut out: Vec<u8> = Vec::new();
            let mut t: usize = 0;
            while t < n
                invariant
                    0 <= t <= n,
                    j + n <= blen,
                    blen == buf@.len(),
                    out@ == buf@.subrange(j as int, j + t),
                decreases n - t,
            {
                out.push(buf[j + t]);
                proof {
                    assert(out@ =~= buf@.subrange(j as int, j + t + 1));
                }
                t = t + 1;
            }
            Some((out, j + n))
        },
    }
}

/// Reads a flag.
fn get_bool(buf: &Vec<u8>, pos: usize) -> (r: Option<(bool, usize)>)
    ensures
        match r {
            Some(p) => dec_bool(buf@, pos as int) == Some((p.0, p.1 as int)) && p.1 <= buf@.len(),
            None => dec_bool(buf@, pos as int) is None,
        },
{
    if pos >= buf.len() {
        return None;
    }
    if buf[pos] == 0 {
        Some((false, pos + 1))
    } else if buf[pos] == 1 {
        Some((true, pos + 1))
    } else {
        None
    }
}

/// Reads a locality.
fn get_loc(buf: &Vec<u8>, pos: usize) -> (r: Option<(Locality, usize)>)
    ensures
        match r {
            Some(p) => dec_loc(buf@, pos as int) == Some((p.0, p.1 as int)) && p.1 <= buf@.len(),
            None => dec_loc(buf@, pos as int) is None,
        },
{
    if pos >= buf.len() {
        return None;
    }
    if buf[pos] == 0 {
        Some((Locality::Local, pos + 1))
    } else if buf[pos] == 1 {
        Some((Locality::Remote, pos + 1))
    } else {
        None
    }
}

/// Reads a stage.
fn get_stage(buf: &Vec<u8>, pos: usize) -> (r: Option<(Stage, usize)>)
    ensures
        match r {
            Some(p) => dec_stage(buf@, pos as int) == Some((p.0, p.1 as int)) && p.1
                <= buf@.len(),
            None => dec_stage(buf@, pos as int) is None,
        },
{
    if pos >= buf.len() {
        return None;
    }
    if buf[pos] == 0 {
        Some((Stage::PreUpdate, pos + 1))
    } else if buf[pos] == 1 {
        Some((Stage::Update, pos + 1))
    } else if buf[pos] == 2 {
        Some((Stage::PostUpdate, pos + 1))
    } else {
        None
    }
}

/// Reads an access mode.
fn get_access(buf: &Vec<u8>, pos: usize) -> (r: Option<(Access, usize)>)
    ensures
        match r {
            Some(p) => dec_access(buf@, pos as int) == Some((p.0, p.1 as int)) && p.1
                <= buf@.len(),
            None => dec_access(buf@, pos as int) is None,
        },
{
    if pos >= buf.len() {
        return None;
    }
    if buf[pos] == 0 {
        Some((Access::Read, pos + 1))
    } else if buf[pos] == 1 {
        Some((Access::Write, pos + 1))
    } else {
        None
    }
}

/// Reads an optional 64-bit value.
fn get_opt_u64(buf: &Vec<u8>, pos: usize) -> (r: Option<(Option<u64>, usize)>)
    ensures
        match r {
            Some(p) => dec_opt_u64(buf@, pos as int) == Some((p.0, p.1 as int)) && p.1
                <= buf@.len(),
            None => dec_opt_u64(buf@, pos as int) is None,
        },
{
    if pos >= buf.len() {
        return None;
    }
    if buf[pos] == 0 {
        Some((None, pos + 1))
    } else if buf[pos] == 1 {
        match get_u64(buf, pos + 1) {
            None => None,
            Some((x, j)) => Some((Some(x), j)),
        }
    } else {
        None
    }
}

/// Reads a channel.
fn get_chan(buf: &Vec<u8>, pos: usize) -> (r: Option<(crate::types::ChannelId, usize)>)
    ensures
        match r {
            Some(p) => dec_chan(buf@, pos as int) == Some((p.0@, p.1 as int)) && p.1
                <= buf@.len(),
            None => dec_chan(buf@, pos as int) is None,
        },
{
    match get_bytes(buf, pos) {
        None => None,
        Some((id, j)) => match get_loc(buf, j) {
            None => None,
            Some((loc, k)) => {
                let c = crate::types::ChannelId { id, locality: loc };
                proof {
                    assert(c@ =~= dec_chan(buf@, pos as int)->Some_0.0);
                }
                Some((c, k))
            },
        },
    }
}

/// Reads a message.
fn get_msg(buf: &Vec<u8>, pos: usize) -> (r: Option<(crate::types::MessageData, usize)>)
    ensures
        match r {
            Some(p) => dec_msg(buf@, pos as int) == Some((p.0@, p.1 as int)) && p.1 <= buf@.len(),
            None => dec_msg(buf@, pos as int) is None,
        },
{
    match get_chan(buf, pos) {
        None => None,
        Some((c, j)) => match get_bytes(buf, j) {
            None => None,
            Some((d, k)) => match get_opt_u64(buf, k) {
                None => None,
                Some((cl, l)) => {
                    let m = crate::types::MessageData { channel: c, data: d, client: cl };
                    proof {
                        assert(m@ =~= dec_msg(buf@, pos as int)->Some_0.0);
                    }
                    Some((m, l))
                },
            },
        },
    }
}

/// Reads a query term.
fn get_term(buf: &Vec<u8>, pos: usize) -> (r: Option<(crate::types::QueryTerm, usize)>)
    ensures
        match r {
            Some(p) => dec_term(buf@, pos as int) == Some((p.0@, p.1 as int)) && p.1
                <= buf@.len(),
            None => dec_term(buf@, pos as int) is None,
        },
{
    match get_bytes(buf, pos) {
        None => None,
        Some((comp, j)) => match get_access(buf, j) {
            None => None,
            Some((a, k)) => {
                let t = crate::types::QueryTerm { component: comp, access: a };
                proof {
                    assert(t@ =~= dec_term(buf@, pos as int)->Some_0.0);
                }
                Some((t, k))
            },
        },
    }
}

/// Reads one store command.
fn get_cmd(buf: &Vec<u8>, pos: usize) -> (r: Option<(crate::types::EcsCommand, usize)>)
    ensures
        match r {
            Some(p) => dec_cmd(buf@, pos as int) == Some((p.0@, p.1 as int)) && p.1 <= buf@.len(),
            None => dec_cmd(buf@, pos as int) is None,
        },
{
    if pos >= buf.len() {
        return None;
    }
    if buf[pos] == 0 {
        match get_u128(buf, pos + 1) {
            None => None,
            Some((e, j)) => Some((crate::types::EcsCommand::Create(e), j)),
        }
    } else if buf[pos] == 1 {
        match get_u128(buf, pos + 1) {
            None => None,
            Some((e, j)) => Some((crate::types::EcsCommand::Delete(e), j)),
        }
    } else if buf[pos] == 2 {
        match get_u128(buf, pos + 1) {
            None => None,
            Some((e, j)) => match get_bytes(buf, j) {
                None => None,
                Some((cid, j2)) => match get_bytes(buf, j2) {
                    None => None,
                    Some((bb, j3)) => {
                        let c = crate::types::EcsCommand::AddComponent(e, cid, bb);
                        proof {
                            assert(c@ =~= dec_cmd(buf@, pos as int)->Some_0.0);
                        }
                        Some((c, j3))
                    },
                },
            },
        }
    } else {
        None
    }
}

/// Reads `n` items.
fn get_ent_items(buf: &Vec<u8>, pos: usize, n: usize) -> (r: Option<(Vec<u128>, usize)>)
    requires
        pos <= buf@.len(),
    ensures
        match r {
            Some(p) => dec_ent_items(buf@, pos as int, n as nat) == Some((
                p.0@,
                p.1 as int,
            )) && p.1 <= buf@.len(),
            None => dec_ent_items(buf@, pos as int, n as nat) is None,
        },
{
    let mut acc: Vec<u128> = Vec::new();
    let mut cur = pos;
    let mut k: usize = 0;
    while k < n
        invariant
            0 <= k <= n,
            cur <= buf@.len(),
            match dec_ent_items(buf@, cur as int, (n - k) as nat) {
                Some((restv, j)) => dec_ent_items(buf@, pos as int, n as nat) == Some((
                    acc@ + restv,
                    j,
                )),
                None => dec_ent_items(buf@, pos as int, n as nat) is None,
            },
        decreases n - k,
    {
        let ghost accprev = acc@;
        match get_u128(buf, cur) {
            None => {
                return None;
            },
            Some((item, nxt)) => {
                proof {
                    let iv = seq![item];
                    assert(accprev.push(item) =~= accprev + seq![item]);

                    match dec_ent_items(buf@, nxt as int, (n - k - 1) as nat) {
                        Some((rv, j)) => {
                            assert((accprev + (iv + rv)) =~= (
                            accprev + iv) + rv);
                        },
                        None => {},
                    }
                }
                acc.push(item);
                cur = nxt;
                k = k + 1;
            },
        }
    }
    Some((acc, cur))
}

/// Reads `n` items.
fn get_cell_items(buf: &Vec<u8>, pos: usize, n: usize) -> (r: Option<(Vec<Vec<u8>>, usize)>)
    requires
        pos <= buf@.len(),
    ensures
        match r {
            Some(p) => dec_cell_items(buf@, pos as int, n as nat) == Some((
                p.0@.map_values(|b: Vec<u8>| b@),
                p.1 as int,
            )) && p.1 <= buf@.len(),
            None => dec_cell_items(buf@, pos as int, n as nat) is None,
        },
{
    let mut acc: Vec<Vec<u8>> = Vec::new();
    let mut cur = pos;
    let mut k: usize = 0;
    while k < n
        invariant
            0 <= k <= n,
            cur <= buf@.len(),
            match dec_cell_items(buf@, cur as int, (n - k) as nat) {
                Some((restv, j)) => dec_cell_items(buf@, pos as int, n as nat) == Some((
                    acc@.map_values(|b: Vec<u8>| b@) + restv,
                    j,
                )),
                None => dec_cell_items(buf@, pos as int, n as nat) is None,
            },
        decreases n - k,
    {
        let ghost accprev = acc@;
        match get_bytes(buf, cur) {
            None => {
                return None;
            },
            Some((item, nxt)) => {
                proof {
                    let iv = seq![item].map_values(|b: Vec<u8>| b@);
                    crate::types::lemma_map_push(accprev, |b: Vec<u8>| b@, item);
                    assert(accprev.map_values(|b: Vec<u8>| b@).push(item@) =~= accprev.map_values(|b: Vec<u8>| b@) + seq![item].map_values(|b: Vec<u8>| b@));

                    match dec_cell_items(buf@, nxt as int, (n - k - 1) as nat) {
                        Some((rv, j)) => {
                            assert((accprev.map_values(|b: Vec<u8>| b@) + (iv + rv)) =~= (
                            accprev.map_values(|b: Vec<u8>| b@) + iv) + rv);
                        },
                        None => {},
                    }
                }
                acc.push(item);
                cur = nxt;
                k = k + 1;
            },
        }
    }
    Some((acc, cur))
}

/// Reads `n` items.
fn get_msg_items(buf: &Vec<u8>, pos: usize, n: usize) -> (r: Option<(Vec<crate::types::MessageData>, usize)>)
    requires
        pos <= buf@.len(),
    ensures
        match r {
            Some(p) => dec_msg_items(buf@, pos as int, n as nat) == Some((
                crate::types::msgs_view(p.0@),
                p.1 as int,
            )) && p.1 <= buf@.len(),
            None => dec_msg_items(buf@, pos as int, n as nat) is None,
        },
{
    let mut acc: Vec<crate::types::MessageData> = Vec::new();
    let mut cur = pos;
    let mut k: usize = 0;
    while k < n
        invariant
            0 <= k <= n,
            cur <= buf@.len(),
            match dec_msg_items(buf@, cur as int, (n - k) as nat) {
                Some((restv, j)) => dec_msg_items(buf@, pos as int, n as nat) == Some((
                    crate::types::msgs_view(acc@) + restv,
                    j,
                )),
                None => dec_msg_items(buf@, pos as int, n as nat) is None,
            },
        decreases n - k,
    {
        let ghost accprev = acc@;
        match get_msg(buf, cur) {
            None => {
                return None;
            },
            Some((item, nxt)) => {
                proof {
                    let iv = crate::types::msgs_view(seq![item]);
                    crate::types::lemma_map_push(accprev, |m: crate::types::MessageData| m@, item);
                    assert(crate::types::msgs_view(accprev).push(item@) =~= crate::types::msgs_view(accprev) + crate::types::msgs_view(seq![item]));

                    match dec_msg_items(buf@, nxt as int, (n - k - 1) as nat) {
                        Some((rv, j)) => {
                            assert((crate::types::msgs_view(accprev) + (iv + rv)) =~= (
                            crate::types::msgs_view(accprev) + iv) + rv);
                        },
                        None => {},
                    }
                }
                acc.push(item);
                cur = nxt;
                k = k + 1;
            },
        }
    }
    Some((acc, cur))
}

/// Reads `n` items.
fn get_chan_items(buf: &Vec<u8>, pos: usize, n: usize) -> (r: Option<(Vec<crate::types::ChannelId>, usize)>)
    requires
        pos <= buf@.len(),
    ensures
        match r {
            Some(p) => dec_chan_items(buf@, pos as int, n as nat) == Some((
                crate::types::chans_view(p.0@),
                p.1 as int,
            )) && p.1 <= buf@.len(),
            None => dec_chan_items(buf@, pos as int, n as nat) is None,
        },
{
    let mut acc: Vec<crate::types::ChannelId> = Vec::new();
    let mut cur = pos;
    let mut k: usize = 0;
    while k < n
        invariant
            0 <= k <= n,
            cur <= buf@.len(),
            match dec_chan_items(buf@, cur as int, (n - k) as nat) {
                Some((restv, j)) => dec_chan_items(buf@, pos as int, n as nat) == Some((
                    crate::types::chans_view(acc@) + restv,
                    j,
                )),
                None => dec_chan_items(buf@, pos as int, n as nat) is None,
            },
        decreases n - k,
    {
        let ghost accprev = acc@;
        match get_chan(buf, cur) {
            None => {
                return None;
            },
            Some((item, nxt)) => {
                proof {
                    let iv = crate::types::chans_view(seq![item]);
                    crate::types::lemma_map_push(accprev, |c: crate::types::ChannelId| c@, item);
                    assert(crate::types::chans_view(accprev).push(item@) =~= crate::types::chans_view(accprev) + crate::types::chans_view(seq![item]));

                    match dec_chan_items(buf@, nxt as int, (n - k - 1) as nat) {
                        Some((rv, j)) => {
                            assert((crate::types::chans_view(accprev) + (iv + rv)) =~= (
                            crate::types::chans_view(accprev) + iv) + rv);
                        },
                        None => {},
                    }
                }
                acc.push(item);
                cur = nxt;
                k = k + 1;
            },
        }
    }
    Some((acc, cur))
}

/// Reads `n` items.
fn get_term_items(buf: &Vec<u8>, pos: usize, n: usize) -> (r: Option<(Vec<crate::types::QueryTerm>, usize)>)
    requires
        pos <= buf@.len(),
    ensures
        match r {
            Some(p) => dec_term_items(buf@, pos as int, n as nat) == Some((
                crate::types::terms_view(p.0@),
                p.1 as int,
            )) && p.1 <= buf@.len(),
            None => dec_term_items(buf@, pos as int, n as nat) is None,
        },
{
    let mut acc: Vec<crate::types::QueryTerm> = Vec::new();
    let mut cur = pos;
    let mut k: usize = 0;
    while k < n
        invariant
            0 <= k <= n,
            cur <= buf@.len(),
            match dec_term_items(buf@, cur as int, (n - k) as nat) {
                Some((restv, j)) => dec_term_items(buf@, pos as int, n as nat) == Some((
                    crate::types::terms_view(acc@) + restv,
                    j,
                )),
                None => dec_term_items(buf@, pos as int, n as nat) is None,
            },
        decreases n - k,
    {
        let ghost accprev = acc@;
        match get_term(buf, cur) {
            None => {
                return None;
            },
            Some((item, nxt)) => {
                proof {
                    let iv = crate::types::terms_view(seq![item]);
                    crate::types::lemma_map_push(accprev, |t: crate::types::QueryTerm| t@, item);
                    assert(crate::types::terms_view(accprev).push(item@) =~= crate::types::terms_view(accprev) + crate::types::terms_view(seq![item]));

                    match dec_term_items(buf@, nxt as int, (n - k - 1) as nat) {
                        Some((rv, j)) => {
                            assert((crate::types::terms_view(accprev) + (iv + rv)) =~= (
                            crate::types::terms_view(accprev) + iv) + rv);
                        },
                        None => {},
                    }
                }
                acc.push(item);
                cur = nxt;
                k = k + 1;
            },
        }
    }
    Some((acc, cur))
}

/// Reads `n` items.
fn get_cmd_items(buf: &Vec<u8>, pos: usize, n: usize) -> (r: Option<(Vec<crate::types::EcsCommand>, usize)>)
    requires
        pos <= buf@.len(),
    ensures
        match r {
            Some(p) => dec_cmd_items(buf@, pos as int, n as nat) == Some((
                crate::types::cmds_view(p.0@),
                p.1 as int,
            )) && p.1 <= buf@.len(),
            None => dec_cmd_items(buf@, pos as int, n as nat) is None,
        },
{
    let mut acc: Vec<crate::types::EcsCommand> = Vec::new();
    let mut cur = pos;
    let mut k: usize = 0;
    while k < n
        invariant
            0 <= k <= n,
            cur <= buf@.len(),
            match dec_cmd_items(buf@, cur as int, (n - k) as nat) {
                Some((restv, j)) => dec_cmd_items(buf@, pos as int, n as nat) == Some((
                    crate::types::cmds_view(acc@) + restv,
                    j,
                )),
                None => dec_cmd_items(buf@, pos as int, n as nat) is None,
            },
        decreases n - k,
    {
        let ghost accprev = acc@;
        match get_cmd(buf, cur) {
            None => {
                return None;
            },
            Some((item, nxt)) => {
                proof {
                    let iv = crate::types::cmds_view(seq![item]);
                    crate::types::lemma_map_push(accprev, |c: crate::types::EcsCommand| c@, item);
                    assert(crate::types::cmds_view(accprev).push(item@) =~= crate::types::cmds_view(accprev) + crate::types::cmds_view(seq![item]));

                    match dec_cmd_items(buf@, nxt as int, (n - k - 1) as nat) {
                        Some((rv, j)) => {
                            assert((crate::types::cmds_view(accprev) + (iv + rv)) =~= (
                            crate::types::cmds_view(accprev) + iv) + rv);
                        },
                        None => {},
                    }
                }
                acc.push(item);
                cur = nxt;
                k = k + 1;
            },
        }
    }
    Some((acc, cur))
}

} // verus!
