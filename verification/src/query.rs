//! Query engine: materializes the entities holding every component of
//! a query, with one value column per term, and applies the write
//! columns a guest returns back onto the store.

use vstd::prelude::*;

use crate::commands::{apply_commands, apply_ecs_commands};
use crate::ecs::{col_idx, col_idx_exists, ecs_has_all, ecs_lookup, ecs_wf, Ecs, EcsV};
use crate::types::{
    terms_view, Access, CmdV, EcsCommand, EcsData, EngineError, QueryTerm, TermV,
};

verus! {

/// The component ids of a query, in term order.
pub open spec fn terms_cids(terms: Seq<TermV>) -> Seq<Seq<u8>> {
    terms.map_values(|t: TermV| t.component)
}

/// The row predicate of a query: an entity matches when it holds every
/// queried component.
pub open spec fn query_pred(v: EcsV, terms: Seq<TermV>) -> spec_fn(u128) -> bool {
    |e: u128| ecs_has_all(v, terms_cids(terms), e)
}

/// The rows of a query: the entities of the first term's column, in
/// insertion order, restricted to those holding every queried
/// component. A query with no terms, or whose first component was
/// never seen, has no rows.
pub open spec fn query_rows(v: EcsV, terms: Seq<TermV>) -> Seq<u128> {
    if terms.len() == 0 {
        Seq::empty()
    } else if !col_idx_exists(v.columns, terms[0].component) {
        Seq::empty()
    } else {
        v.columns[col_idx(v.columns, terms[0].component)].rows.map_values(
            |p: (u128, Seq<u8>)| p.0,
        ).filter(query_pred(v, terms))
    }
}

/// The value columns of a query: one column per term, holding for each
/// row the bytes currently stored for that term's component.
pub open spec fn query_cols(v: EcsV, terms: Seq<TermV>, rows: Seq<u128>) -> Seq<Seq<Seq<u8>>> {
    Seq::new(
        terms.len(),
        |t: int|
            Seq::new(
                rows.len(),
                |r: int|
                    match ecs_lookup(v, terms[t].component, rows[r]) {
                        Some(b) => b,
                        None => Seq::empty(),
                    },
            ),
    )
}

/// Every write term of the query has a returned column of exactly one
/// value per row.
pub open spec fn shape_ok(terms: Seq<TermV>, rows: Seq<u128>, cols: Seq<Seq<Seq<u8>>>) -> bool {
    forall|t: int|
        0 <= t < terms.len() && (#[trigger] terms[t]).access == Access::Write ==> t < cols.len()
            && cols[t].len() == rows.len()
}

/// The store writes of one write term: one overwrite per row, in row
/// order.
pub open spec fn term_write_cmds(cid: Seq<u8>, rows: Seq<u128>, col: Seq<Seq<u8>>) -> Seq<CmdV> {
    Seq::new(rows.len(), |r: int| CmdV::AddComponent(rows[r], cid, col[r]))
}

/// The store writes of a query reply from term `t` on: write terms
/// contribute their column, read terms nothing.
pub open spec fn write_cmds(
    terms: Seq<TermV>,
    rows: Seq<u128>,
    cols: Seq<Seq<Seq<u8>>>,
    t: int,
) -> Seq<CmdV>
    decreases terms.len() - t,
{
    if t < 0 || t >= terms.len() {
        Seq::empty()
    } else if terms[t].access == Access::Write {
        term_write_cmds(terms[t].component, rows, cols[t]) + write_cmds(terms, rows, cols, t + 1)
    } else {
        write_cmds(terms, rows, cols, t + 1)
    }
}

/// Materializes the query against the store.
pub fn query_ecs_data(ecs: &Ecs, query: &Vec<QueryTerm>) -> (r: EcsData)
    requires
        ecs_wf(ecs@),
    ensures
        r@.entities == query_rows(ecs@, terms_view(query@)),
        r@.columns == query_cols(ecs@, terms_view(query@), r@.entities),
{
    let ghost terms = terms_view(query@);
    let mut cids: Vec<Vec<u8>> = Vec::new();
    let nterms = query.len();
    let mut t: usize = 0;
    while t < nterms
        invariant
            0 <= t <= nterms,
            nterms == query@.len(),
            terms == terms_view(query@),
            crate::ecs::cids_view(cids@) =~= terms_cids(terms).subrange(0, t as int),
        decreases nterms - t,
    {
        let ghost cidsprev = cids@;
        let c = crate::clone_bytes(&query[t].component);
        cids.push(c);
        proof {
            crate::types::lemma_map_push(cidsprev, |b: Vec<u8>| b@, c);
            crate::types::lemma_subrange_push(terms_cids(terms), t as int);
            assert(c@ == terms_cids(terms)[t as int]);
            assert(crate::ecs::cids_view(cids@) =~= terms_cids(terms).subrange(0, t as int + 1));
        }
        t = t + 1;
    }
    proof {
        assert(terms_cids(terms).subrange(0, nterms as int) =~= terms_cids(terms));
    }
    // rows: entities of the first column that hold every component
    let mut rows: Vec<u128> = Vec::new();
    if nterms == 0 {
        let r = EcsData { entities: rows, columns: Vec::new() };
        proof {
            assert(r@.entities =~= query_rows(ecs@, terms));
            assert(r@.columns =~= query_cols(ecs@, terms, r@.entities));
        }
        return r;
    }
    let base = ecs.column_entities(&query[0].component);
    let nbase = base.len();
    let mut i: usize = 0;
    while i < nbase
        invariant
            0 <= i <= nbase,
            nbase == base@.len(),
            ecs_wf(ecs@),
            terms == terms_view(query@),
            terms.len() == query@.len(),
            crate::ecs::cids_view(cids@) == terms_cids(terms),
            rows@ =~= base@.subrange(0, i as int).filter(query_pred(ecs@, terms)),
        decreases nbase - i,
    {
        let e = base[i];
        if ecs.has_all(e, &cids) {
            rows.push(e);
        }
        proof {
            let pred = query_pred(ecs@, terms);
            let pre = base@.subrange(0, i as int);
            let cur = base@.subrange(0, i as int + 1);
            assert(cur.drop_last() =~= pre);
            assert(cur.last() == e);
            reveal(Seq::filter);
            assert(cur.filter(pred) == if pred(e) {
                pre.filter(pred).push(e)
            } else {
                pre.filter(pred)
            });
            assert(rows@ =~= cur.filter(pred));
        }
        i = i + 1;
    }
    proof {
        assert(base@.subrange(0, nbase as int) =~= base@);
        if query@.len() > 0 && col_idx_exists(ecs@.columns, terms[0].component) {
            assert(rows@ == query_rows(ecs@, terms));
        } else {
            reveal(Seq::filter);
            assert(base@ =~= Seq::<u128>::empty());
            assert(rows@ =~= query_rows(ecs@, terms));
        }
    }
    // columns: one parallel column of current values per term
    let mut columns: Vec<Vec<Vec<u8>>> = Vec::new();
    let nrows = rows.len();
    let mut t2: usize = 0;
    while t2 < nterms
        invariant
            0 <= t2 <= nterms,
            nterms == query@.len(),
            ecs_wf(ecs@),
            terms == terms_view(query@),
            nrows == rows@.len(),
            rows@ == query_rows(ecs@, terms),
            columns@.map_values(|c: Vec<Vec<u8>>| c@.map_values(|b: Vec<u8>| b@)) =~= query_cols(
                ecs@,
                terms,
                rows@,
            ).subrange(0, t2 as int),
        decreases nterms - t2,
    {
        let mut col: Vec<Vec<u8>> = Vec::new();
        let mut r: usize = 0;
        while r < nrows
            invariant
                0 <= r <= nrows,
                t2 < nterms,
                nterms == query@.len(),
                ecs_wf(ecs@),
                terms == terms_view(query@),
                nrows == rows@.len(),
                col@.map_values(|b: Vec<u8>| b@) =~= query_cols(ecs@, terms, rows@)[
                    t2 as int
                ].subrange(0, r as int),
            decreases nrows - r,
        {
            let ghost colprev = col@;
            let cell = match ecs.get(rows[r], &query[t2].component) {
                Some(b) => crate::clone_bytes(b),
                None => Vec::new(),
            };
            proof {
                assert(cell@ == query_cols(ecs@, terms, rows@)[t2 as int][r as int]);
            }
            col.push(cell);
            proof {
                crate::types::lemma_map_push(colprev, |b: Vec<u8>| b@, cell);
                crate::types::lemma_subrange_push(
                    query_cols(ecs@, terms, rows@)[t2 as int],
                    r as int,
                );
                assert(col@.map_values(|b: Vec<u8>| b@) =~= query_cols(ecs@, terms, rows@)[
                    t2 as int
                ].subrange(0, r as int + 1));
            }
            r = r + 1;
        }
        proof {
            assert(query_cols(ecs@, terms, rows@)[t2 as int].subrange(0, nrows as int)
                =~= query_cols(ecs@, terms, rows@)[t2 as int]);
        }
        let ghost columnsprev = columns@;
        columns.push(col);
        proof {
            crate::types::lemma_map_push(
                columnsprev,
                |c: Vec<Vec<u8>>| c@.map_values(|b: Vec<u8>| b@),
                col,
            );
            crate::types::lemma_subrange_push(query_cols(ecs@, terms, rows@), t2 as int);
            assert(col@.map_values(|b: Vec<u8>| b@) == query_cols(ecs@, terms, rows@)[t2 as int]);
            assert(columns@.map_values(|c: Vec<Vec<u8>>| c@.map_values(|b: Vec<u8>| b@))
                =~= query_cols(ecs@, terms, rows@).subrange(0, t2 as int + 1));
        }
        t2 = t2 + 1;
    }
    let r = EcsData { entities: rows, columns };
    proof {
        assert(query_cols(ecs@, terms, r@.entities).subrange(
            0,
            nterms as int,
        ) =~= query_cols(ecs@, terms, r@.entities));
        assert(r@.columns == query_cols(ecs@, terms, r@.entities));
    }
    r
}

/// Applies the write columns a guest returned for a query. Where some
/// write term's column does not hold exactly one value per query row,
/// nothing is written and the reply is rejected with
/// `QueryShapeMismatch`; otherwise the writes are replayed in term
/// order, row order, stopping at the first failure.
pub fn apply_query_writes(
    ecs: &mut Ecs,
    query: &Vec<QueryTerm>,
    rows: &Vec<u128>,
    returned: &EcsData,
) -> (r: Result<(), EngineError>)
    requires
        ecs_wf(old(ecs)@),
    ensures
        ecs_wf(final(ecs)@),
        !shape_ok(terms_view(query@), rows@, returned@.columns) ==> final(ecs)@ == old(ecs)@ && r
            == Result::<(), EngineError>::Err(EngineError::QueryShapeMismatch),
        shape_ok(terms_view(query@), rows@, returned@.columns) ==> {
            let outcome = apply_commands(
                old(ecs)@,
                write_cmds(terms_view(query@), rows@, returned@.columns, 0),
            );
            final(ecs)@ == outcome.0 && (match r {
                Ok(()) => outcome.1 is None,
                Err(e) => outcome.1 == Some(e),
            })
        },
{
    let ghost terms = terms_view(query@);
    let ghost colsv = returned@.columns;
    let nterms = query.len();
    // shape check: every write column must match the row count
    let mut t: usize = 0;
    while t < nterms
        invariant
            0 <= t <= nterms,
            nterms == query@.len(),
            terms == terms_view(query@),
            colsv == returned@.columns,
            ecs_wf(ecs@),
            ecs@ == old(ecs)@,
            forall|k: int|
                0 <= k < t && (#[trigger] terms[k]).access == Access::Write ==> k
                    < colsv.len() && colsv[k].len() == rows@.len(),
        decreases nterms - t,
    {
        let is_write = match query[t].access {
            Access::Write => true,
            Access::Read => false,
        };
        if is_write {
            if t >= returned.columns.len() || returned.columns[t].len() != rows.len() {
                proof {
                    assert(terms[t as int].access == Access::Write);
                    assert(!shape_ok(terms, rows@, colsv));
                }
                return Err(EngineError::QueryShapeMismatch);
            }
        }
        t = t + 1;
    }
    proof {
        assert(shape_ok(terms, rows@, colsv));
    }
    // build the writes, term by term, row by row
    let mut cmds: Vec<EcsCommand> = Vec::new();
    let mut t2: usize = 0;
    while t2 < nterms
        invariant
            0 <= t2 <= nterms,
            nterms == query@.len(),
            terms == terms_view(query@),
            colsv == returned@.columns,
            ecs_wf(ecs@),
            ecs@ == old(ecs)@,
            shape_ok(terms, rows@, colsv),
            write_cmds(terms, rows@, colsv, 0) =~= crate::types::cmds_view(cmds@) + write_cmds(
                terms,
                rows@,
                colsv,
                t2 as int,
            ),
        decreases nterms - t2,
    {
        let is_write = match query[t2].access {
            Access::Write => true,
            Access::Read => false,
        };
        if is_write {
            let ghost cmdsprev = crate::types::cmds_view(cmds@);
            let nrows = rows.len();
            let mut r: usize = 0;
            while r < nrows
                invariant
                    0 <= r <= nrows,
                    t2 < nterms,
                    nterms == query@.len(),
                    terms == terms_view(query@),
                    colsv == returned@.columns,
                    terms[t2 as int].access == Access::Write,
                    ecs_wf(ecs@),
                    ecs@ == old(ecs)@,
                    shape_ok(terms, rows@, colsv),
                    nrows == rows@.len(),
                    write_cmds(terms, rows@, colsv, 0) =~= cmdsprev + write_cmds(
                        terms,
                        rows@,
                        colsv,
                        t2 as int,
                    ),
                    crate::types::cmds_view(cmds@) =~= cmdsprev + term_write_cmds(
                        terms[t2 as int].component,
                        rows@,
                        colsv[t2 as int],
                    ).subrange(0, r as int),
                decreases nrows - r,
            {
                let cmd = EcsCommand::AddComponent(
                    rows[r],
                    crate::clone_bytes(&query[t2].component),
                    crate::clone_bytes(&returned.columns[t2][r]),
                );
                proof {
                    assert(returned@.columns[t2 as int][r as int] == returned.columns@[
                        t2 as int
                    ]@.map_values(|b: Vec<u8>| b@)[r as int]);
                }
                let ghost cmdslast = cmds@;
                cmds.push(cmd);
                proof {
                    let tw = term_write_cmds(terms[t2 as int].component, rows@, colsv[t2 as int]);
                    crate::types::lemma_map_push(cmdslast, |c: EcsCommand| c@, cmd);
                    crate::types::lemma_subrange_push(tw, r as int);
                    assert(cmd@ == tw[r as int]);
                    assert(crate::types::cmds_view(cmds@) =~= cmdsprev + tw.subrange(
                        0,
                        r as int + 1,
                    ));
                }
                r = r + 1;
            }
            proof {
                let tw = term_write_cmds(terms[t2 as int].component, rows@, colsv[t2 as int]);
                assert(tw.subrange(0, nrows as int) =~= tw);
                assert(write_cmds(terms, rows@, colsv, t2 as int) == tw + write_cmds(
                    terms,
                    rows@,
                    colsv,
                    t2 as int + 1,
                ));
                assert(write_cmds(terms, rows@, colsv, 0) =~= crate::types::cmds_view(cmds@)
                    + write_cmds(terms, rows@, colsv, t2 as int + 1));
            }
        } else {
            proof {
                assert(write_cmds(terms, rows@, colsv, t2 as int) == write_cmds(
                    terms,
                    rows@,
                    colsv,
                    t2 as int + 1,
                ));
            }
        }
        t2 = t2 + 1;
    }
    proof {
        assert(write_cmds(terms, rows@, colsv, nterms as int) =~= Seq::<CmdV>::empty());
        assert(crate::types::cmds_view(cmds@) + Seq::<CmdV>::empty() =~= crate::types::cmds_view(
            cmds@,
        ));
        assert(write_cmds(terms, rows@, colsv, 0) == crate::types::cmds_view(cmds@));
    }
    apply_ecs_commands(ecs, &cmds)
}

} // verus!
