//! Round-trip laws of the serialization layer: bytes that decode as a
//! whole blob are exactly the encoding of the decoded value.

use vstd::prelude::*;

use crate::serial::{
    dec_bool, dec_chan_items, dec_cmd_items, dec_ecs_data, dec_entry_items, dec_len, dec_send_head, lemma_dec_send_head,
    dec_msg_items, dec_opt_u64, dec_recv, dec_send, dec_system_items, ecs_data_wire_wf, enc_bool,
    enc_chan_items, enc_cmd_items, enc_ecs_data, enc_entry_items, enc_len, enc_msg_items,
    enc_opt_u64, enc_recv, enc_send, enc_system_items, lemma_dec_chan_items, lemma_dec_cmd_items,
    lemma_dec_ecs_data, lemma_dec_entry_items, lemma_dec_len, lemma_dec_msg_items,
    lemma_dec_opt_u64, lemma_dec_system_items, FORMAT_VERSION,
};

verus! {

/// Law: a turn request that decodes, re-encoded, gives back exactly
/// the bytes decoded.
#[verifier::rlimit(100)]
pub proof fn lemma_recv_round_trip(b: Seq<u8>, i: int)
    ensures
        match dec_recv(b, i) {
            Some((v, j)) => i <= j <= b.len() && b.subrange(i, j) == enc_recv(v)
                && ecs_data_wire_wf(v.ecs),
            None => true,
        },
{
    if dec_recv(b, i) is Some {
        let (sys, j) = dec_opt_u64(b, i + 1)->Some_0;
        let (srv, j2) = dec_bool(b, j)->Some_0;
        let (n, j3) = dec_len(b, j2)->Some_0;
        let (inbox, j4) = dec_entry_items(b, j3, n as nat)->Some_0;
        let (d, j5) = dec_ecs_data(b, j4)->Some_0;
        lemma_dec_opt_u64(b, i + 1);
        assert(b.subrange(j, j2) =~= enc_bool(srv));
        lemma_dec_len(b, j2);
        lemma_dec_entry_items(b, j3, n as nat);
        lemma_dec_ecs_data(b, j4);
        assert(b.subrange(i, i + 1) =~= seq![FORMAT_VERSION]);
        assert(b.subrange(i, j) =~= b.subrange(i, i + 1) + b.subrange(i + 1, j));
        assert(b.subrange(i, j2) =~= b.subrange(i, j) + b.subrange(j, j2));
        assert(b.subrange(i, j3) =~= b.subrange(i, j2) + b.subrange(j2, j3));
        assert(b.subrange(i, j4) =~= b.subrange(i, j3) + b.subrange(j3, j4));
        assert(b.subrange(i, j5) =~= b.subrange(i, j4) + b.subrange(j4, j5));
    }
}

/// Law: a turn reply that decodes, re-encoded, gives back exactly the
/// bytes decoded.
#[verifier::rlimit(100)]
#[verifier::spinoff_prover]
pub proof fn lemma_send_round_trip(b: Seq<u8>, i: int)
    ensures
        match dec_send(b, i) {
            Some((v, j)) => i <= j <= b.len() && b.subrange(i, j) == enc_send(v)
                && ecs_data_wire_wf(v.ecs),
            None => true,
        },
{
    if dec_send(b, i) is Some {
        let (p, j4) = dec_send_head(b, i)->Some_0;
        let (d, j5) = dec_ecs_data(b, j4)->Some_0;
        let (no, j6) = dec_len(b, j5)->Some_0;
        let (outbox, j7) = dec_msg_items(b, j6, no as nat)->Some_0;
        lemma_dec_send_head(b, i);
        lemma_dec_ecs_data(b, j4);
        lemma_dec_len(b, j5);
        lemma_dec_msg_items(b, j6, no as nat);
        assert(b.subrange(i, j5) =~= b.subrange(i, j4) + b.subrange(j4, j5));
        assert(b.subrange(i, j6) =~= b.subrange(i, j5) + b.subrange(j5, j6));
        assert(b.subrange(i, j7) =~= b.subrange(i, j6) + b.subrange(j6, j7));
    }
}

} // verus!
