//! Command applier: replays a guest's store mutations in emission
//! order. A failing command aborts the remainder of the sequence and
//! surfaces its error; mutations already applied stay.

use vstd::prelude::*;

use crate::ecs::{
    ecs_add, ecs_add_ok, ecs_destroy, ecs_register, ecs_wf, lemma_add_then_get,
    lemma_destroy_then_get, Ecs, EcsV,
};
use crate::types::{cmds_view, CmdV, EcsCommand, EngineError};

verus! {

/// The store after replaying `cmds` from `v`, together with the error
/// (if any) that stopped the replay. Commands after the first failing
/// one are not applied; nothing is rolled back.
pub open spec fn apply_commands(v: EcsV, cmds: Seq<CmdV>) -> (EcsV, Option<EngineError>)
    decreases cmds.len(),
{
    if cmds.len() == 0 {
        (v, None)
    } else {
        match cmds[0] {
            CmdV::Create(e) => apply_commands(ecs_register(v, e), cmds.drop_first()),
            CmdV::Delete(e) => apply_commands(ecs_destroy(v, e), cmds.drop_first()),
            CmdV::AddComponent(e, cid, b) => if ecs_add_ok(v, cid, b) {
                apply_commands(ecs_add(v, e, cid, b), cmds.drop_first())
            } else {
                (v, Some(EngineError::SizeMismatch))
            },
        }
    }
}

/// Replays the commands onto the store, in order, stopping at the
/// first failure.
pub fn apply_ecs_commands(ecs: &mut Ecs, cmds: &Vec<EcsCommand>) -> (r: Result<(), EngineError>)
    requires
        ecs_wf(old(ecs)@),
    ensures
        ecs_wf(final(ecs)@),
        final(ecs)@ == apply_commands(old(ecs)@, cmds_view(cmds@)).0,
        match r {
            Ok(()) => apply_commands(old(ecs)@, cmds_view(cmds@)).1 is None,
            Err(e) => apply_commands(old(ecs)@, cmds_view(cmds@)).1 == Some(e),
        },
{
    let ghost cv = cmds_view(cmds@);
    let ghost oldv = ecs@;
    let n = cmds.len();
    proof {
        assert(cv.skip(0) =~= cv);
    }
    let mut i: usize = 0;
    while i < n
        invariant
            0 <= i <= n,
            n == cmds@.len(),
            cv == cmds_view(cmds@),
            oldv == old(ecs)@,
            ecs_wf(ecs@),
            apply_commands(oldv, cv) == apply_commands(ecs@, cv.skip(i as int)),
        decreases n - i,
    {
        let ghost prev = ecs@;
        let ghost rest = cv.skip(i as int);
        proof {
            assert(rest.len() == n - i);
            assert(rest[0] == cv[i as int]);
            assert(cv[i as int] == cmds@[i as int]@);
            assert(rest.drop_first() =~= cv.skip(i as int + 1));
        }
        match &cmds[i] {
            EcsCommand::Create(e) => {
                ecs.register(*e);
                proof {
                    assert(ecs@ == ecs_register(prev, *e));
                    assert(apply_commands(prev, rest) == apply_commands(
                        ecs@,
                        cv.skip(i as int + 1),
                    ));
                }
            },
            EcsCommand::Delete(e) => {
                ecs.destroy(*e);
                proof {
                    lemma_destroy_then_get(prev, *e);
                    assert(apply_commands(prev, rest) == apply_commands(
                        ecs@,
                        cv.skip(i as int + 1),
                    ));
                }
            },
            EcsCommand::AddComponent(e, cid, b) => {
                let bytes = crate::clone_bytes(b);
                match ecs.add(*e, cid, bytes) {
                    Ok(()) => {
                        proof {
                            lemma_add_then_get(prev, *e, cid@, b@);
                            assert(apply_commands(prev, rest) == apply_commands(
                                ecs@,
                                cv.skip(i as int + 1),
                            ));
                        }
                    },
                    Err(err) => {
                        proof {
                            assert(!ecs_add_ok(prev, cid@, b@));
                            assert(apply_commands(prev, rest) == (
                                prev,
                                Some(EngineError::SizeMismatch),
                            ));
                            assert(apply_commands(oldv, cv).0 == ecs@);
                            assert(apply_commands(oldv, cv).1 == Some(EngineError::SizeMismatch));
                            assert(err == EngineError::SizeMismatch);
                        }
                        return Err(err);
                    },
                }
            },
        }
        i = i + 1;
    }
    proof {
        assert(cv.skip(n as int) =~= Seq::<CmdV>::empty());
        assert(apply_commands(ecs@, cv.skip(n as int)) == (ecs@, None::<EngineError>));
    }
    Ok(())
}

} // verus!
