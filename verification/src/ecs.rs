//! Entity–component store: opaque 128-bit entity ids mapped, per
//! component id, to fixed-size byte values.
//!
//! The store keeps one column per component id. A column remembers the
//! byte size its component was first written with; every later write
//! must match it. Rows of a column stay in insertion order of their
//! entity.

use vstd::prelude::*;

use crate::types::EngineError;

verus! {

/// Spec-level image of a [`Column`].
#[verifier::ext_equal]
pub struct ColV {
    pub cid: Seq<u8>,
    pub size: nat,
    pub rows: Seq<(u128, Seq<u8>)>,
}

/// Spec-level image of the whole store.
#[verifier::ext_equal]
pub struct EcsV {
    pub columns: Seq<ColV>,
    pub entities: Seq<u128>,
    pub next_id: u128,
}

struct Column {
    cid: Vec<u8>,
    size: usize,
    rows: Vec<(u128, Vec<u8>)>,
}

impl View for Column {
    type V = ColV;

    closed spec fn view(&self) -> ColV {
        ColV { cid: self.cid@, size: self.size as nat, rows: rows_view(self.rows@) }
    }
}

/// The entity–component store.
pub struct Ecs {
    columns: Vec<Column>,
    entities: Vec<u128>,
    next_id: u128,
}

impl View for Ecs {
    type V = EcsV;

    closed spec fn view(&self) -> EcsV {
        EcsV {
            columns: self.columns@.map_values(|c: Column| c@),
            entities: self.entities@,
            next_id: self.next_id,
        }
    }
}

/// View of an exec row sequence.
pub open spec fn rows_view(s: Seq<(u128, Vec<u8>)>) -> Seq<(u128, Seq<u8>)> {
    s.map_values(|p: (u128, Vec<u8>)| (p.0, p.1@))
}

/// There is a row for entity `e`.
pub open spec fn row_idx_exists(rows: Seq<(u128, Seq<u8>)>, e: u128) -> bool {
    exists|k: int| 0 <= k < rows.len() && rows[k].0 == e
}

/// Index of the row for entity `e` (meaningful when one exists).
pub open spec fn row_idx(rows: Seq<(u128, Seq<u8>)>, e: u128) -> int {
    choose|k: int| 0 <= k < rows.len() && rows[k].0 == e
}

/// There is a column for component id `cid`.
pub open spec fn col_idx_exists(cols: Seq<ColV>, cid: Seq<u8>) -> bool {
    exists|k: int| 0 <= k < cols.len() && cols[k].cid == cid
}

/// Index of the column for `cid` (meaningful when one exists).
pub open spec fn col_idx(cols: Seq<ColV>, cid: Seq<u8>) -> int {
    choose|k: int| 0 <= k < cols.len() && cols[k].cid == cid
}

/// The bytes stored for `e` in `rows`, if any.
pub open spec fn rows_lookup(rows: Seq<(u128, Seq<u8>)>, e: u128) -> Option<Seq<u8>> {
    if row_idx_exists(rows, e) {
        Some(rows[row_idx(rows, e)].1)
    } else {
        None
    }
}

/// The bytes stored for `(e, cid)`, if any: the model of `get`.
pub open spec fn ecs_lookup(v: EcsV, cid: Seq<u8>, e: u128) -> Option<Seq<u8>> {
    if col_idx_exists(v.columns, cid) {
        rows_lookup(v.columns[col_idx(v.columns, cid)].rows, e)
    } else {
        None
    }
}

/// The registered byte size of `cid`, if the component has been seen.
pub open spec fn ecs_size(v: EcsV, cid: Seq<u8>) -> Option<nat> {
    if col_idx_exists(v.columns, cid) {
        Some(v.columns[col_idx(v.columns, cid)].size)
    } else {
        None
    }
}

/// A column is well formed: entities unique, every value of the
/// declared size.
pub open spec fn col_wf(c: ColV) -> bool {
    &&& forall|i: int, j: int| 0 <= i < j < c.rows.len() ==> c.rows[i].0 != c.rows[j].0
    &&& forall|i: int| 0 <= i < c.rows.len() ==> (#[trigger] c.rows[i].1).len() == c.size
}

/// The store is well formed: component ids unique across columns,
/// every column well formed, registered entities unique.
pub open spec fn ecs_wf(v: EcsV) -> bool {
    &&& forall|i: int, j: int| 0 <= i < j < v.columns.len() ==> v.columns[i].cid != v.columns[j].cid
    &&& forall|i: int| 0 <= i < v.columns.len() ==> col_wf(#[trigger] v.columns[i])
    &&& forall|i: int, j: int| 0 <= i < j < v.entities.len() ==> v.entities[i] != v.entities[j]
}

/// Under row uniqueness, the row index of `e` is the one where it was
/// seen.
proof fn lemma_row_idx_is(rows: Seq<(u128, Seq<u8>)>, e: u128, j: int)
    requires
        forall|a: int, b: int| 0 <= a < b < rows.len() ==> rows[a].0 != rows[b].0,
        0 <= j < rows.len(),
        rows[j].0 == e,
    ensures
        row_idx_exists(rows, e),
        row_idx(rows, e) == j,
        rows_lookup(rows, e) == Some(rows[j].1),
{
    assert(row_idx_exists(rows, e));
    let k = row_idx(rows, e);
    assert(0 <= k < rows.len() && rows[k].0 == e);
    if k != j {
        if k < j {
            assert(rows[k].0 != rows[j].0);
        } else {
            assert(rows[j].0 != rows[k].0);
        }
        assert(false);
    }
}

/// Under column uniqueness, the column index of `cid` is the one where
/// it was seen.
proof fn lemma_col_idx_is(cols: Seq<ColV>, cid: Seq<u8>, j: int)
    requires
        forall|a: int, b: int| 0 <= a < b < cols.len() ==> cols[a].cid != cols[b].cid,
        0 <= j < cols.len(),
        cols[j].cid == cid,
    ensures
        col_idx_exists(cols, cid),
        col_idx(cols, cid) == j,
{
    assert(col_idx_exists(cols, cid));
    let k = col_idx(cols, cid);
    assert(0 <= k < cols.len() && cols[k].cid == cid);
    if k != j {
        if k < j {
            assert(cols[k].cid != cols[j].cid);
        } else {
            assert(cols[j].cid != cols[k].cid);
        }
        assert(false);
    }
}

/// Result of a successful `add`: install or replace `(e, cid)`.
pub open spec fn ecs_add(v: EcsV, e: u128, cid: Seq<u8>, b: Seq<u8>) -> EcsV {
    if col_idx_exists(v.columns, cid) {
        let i = col_idx(v.columns, cid);
        let col = v.columns[i];
        let rows2 = if row_idx_exists(col.rows, e) {
            col.rows.update(row_idx(col.rows, e), (e, b))
        } else {
            col.rows.push((e, b))
        };
        EcsV { columns: v.columns.update(i, ColV { rows: rows2, ..col }), ..v }
    } else {
        EcsV {
            columns: v.columns.push(ColV { cid: cid, size: b.len(), rows: seq![(e, b)] }),
            ..v
        }
    }
}

/// Whether an `add` of `b` under `cid` is accepted: the first write of
/// a component id fixes its size, every later write must match it.
pub open spec fn ecs_add_ok(v: EcsV, cid: Seq<u8>, b: Seq<u8>) -> bool {
    match ecs_size(v, cid) {
        Option::None => true,
        Option::Some(s) => s == b.len(),
    }
}

/// `rows` with the row of `e` (if any) removed, order kept.
pub open spec fn rows_without(rows: Seq<(u128, Seq<u8>)>, e: u128) -> Seq<(u128, Seq<u8>)> {
    if row_idx_exists(rows, e) {
        rows.remove(row_idx(rows, e))
    } else {
        rows
    }
}

/// There is an entry for `e` in the entity registry.
pub open spec fn ent_idx_exists(s: Seq<u128>, e: u128) -> bool {
    exists|k: int| 0 <= k < s.len() && s[k] == e
}

/// Index of `e` in the entity registry (meaningful when present).
pub open spec fn ent_idx(s: Seq<u128>, e: u128) -> int {
    choose|k: int| 0 <= k < s.len() && s[k] == e
}

/// The registry with `e` (if present) removed, order kept.
pub open spec fn ents_without(s: Seq<u128>, e: u128) -> Seq<u128> {
    if ent_idx_exists(s, e) {
        s.remove(ent_idx(s, e))
    } else {
        s
    }
}

/// A column with the row of `e` (if any) removed.
pub open spec fn col_without(c: ColV, e: u128) -> ColV {
    ColV { rows: rows_without(c.rows, e), ..c }
}

/// Result of `destroy`: every component of `e` is dropped, and `e`
/// leaves the entity registry.
pub open spec fn ecs_destroy(v: EcsV, e: u128) -> EcsV {
    EcsV {
        columns: Seq::new(v.columns.len(), |i: int| col_without(v.columns[i], e)),
        entities: ents_without(v.entities, e),
        ..v
    }
}

/// Result of `remove`: the single instance `(e, cid)` (if any) is
/// dropped.
pub open spec fn ecs_remove(v: EcsV, e: u128, cid: Seq<u8>) -> EcsV {
    if col_idx_exists(v.columns, cid) {
        let i = col_idx(v.columns, cid);
        let col = v.columns[i];
        EcsV {
            columns: v.columns.update(i, ColV { rows: rows_without(col.rows, e), ..col }),
            ..v
        }
    } else {
        v
    }
}

/// Entity `e` holds every component id listed in `cids`.
pub open spec fn ecs_has_all(v: EcsV, cids: Seq<Seq<u8>>, e: u128) -> bool {
    forall|t: int| 0 <= t < cids.len() ==> ecs_lookup(v, cids[t], e) is Some
}

/// View of a sequence of component ids.
pub open spec fn cids_view(s: Seq<Vec<u8>>) -> Seq<Seq<u8>> {
    s.map_values(|b: Vec<u8>| b@)
}

/// Dropping the row of `e` keeps a column well formed, empties the
/// lookup of `e` and keeps every other lookup.
proof fn lemma_rows_without_props(rows: Seq<(u128, Seq<u8>)>, e: u128, sz: nat)
    requires
        forall|a: int, b: int| 0 <= a < b < rows.len() ==> rows[a].0 != rows[b].0,
        forall|i: int| 0 <= i < rows.len() ==> (#[trigger] rows[i].1).len() == sz,
    ensures
        forall|a: int, b: int|
            0 <= a < b < rows_without(rows, e).len() ==> rows_without(rows, e)[a].0
                != rows_without(rows, e)[b].0,
        forall|i: int|
            0 <= i < rows_without(rows, e).len() ==> (#[trigger] rows_without(rows, e)[i].1).len()
                == sz,
        rows_lookup(rows_without(rows, e), e) is None,
        forall|e2: u128|
            e2 != e ==> rows_lookup(rows_without(rows, e), e2) == rows_lookup(rows, e2),
{
    let out = rows_without(rows, e);
    if row_idx_exists(rows, e) {
        let j = row_idx(rows, e);
        assert(0 <= j < rows.len() && rows[j].0 == e);
        assert(forall|k: int|
            0 <= k < out.len() ==> out[k] == (if k < j {
                rows[k]
            } else {
                rows[k + 1]
            }));
        assert(!row_idx_exists(out, e)) by {
            if row_idx_exists(out, e) {
                let k = row_idx(out, e);
                if k < j {
                    assert(rows[k].0 != rows[j].0);
                } else {
                    assert(rows[j].0 != rows[k + 1].0);
                }
            }
        }
        assert forall|a: int, b: int| 0 <= a < b < out.len() implies out[a].0 != out[b].0 by {
            if b < j {
                assert(rows[a].0 != rows[b].0);
            } else if a < j {
                assert(rows[a].0 != rows[b + 1].0);
            } else {
                assert(rows[a + 1].0 != rows[b + 1].0);
            }
        }
        assert forall|e2: u128| e2 != e implies rows_lookup(out, e2) == rows_lookup(
            rows,
            e2,
        ) by {
            if row_idx_exists(rows, e2) {
                let k = row_idx(rows, e2);
                assert(rows[k].0 == e2);
                assert(k != j);
                if k < j {
                    lemma_row_idx_is(out, e2, k);
                } else {
                    assert(out[k - 1] == rows[k]);
                    lemma_row_idx_is(out, e2, k - 1);
                }
                lemma_row_idx_is(rows, e2, k);
            } else {
                if row_idx_exists(out, e2) {
                    let k = row_idx(out, e2);
                    if k < j {
                        assert(rows[k].0 == e2);
                    } else {
                        assert(rows[k + 1].0 == e2);
                    }
                }
            }
        }
    } else {
        assert(forall|k: int| 0 <= k < rows.len() ==> rows[k].0 != e);
        if row_idx_exists(out, e) {
            let k = row_idx(out, e);
            assert(rows[k].0 != e);
        }
    }
}

/// Result of registering an entity id: appended if not present.
pub open spec fn ecs_register(v: EcsV, e: u128) -> EcsV {
    if v.entities.contains(e) {
        v
    } else {
        EcsV { entities: v.entities.push(e), ..v }
    }
}

impl Ecs {
    /// An empty store.
    pub fn new() -> (r: Ecs)
        ensures
            r@.columns == Seq::<ColV>::empty(),
            r@.entities == Seq::<u128>::empty(),
            r@.next_id == 0,
            ecs_wf(r@),
    {
        let r = Ecs { columns: Vec::new(), entities: Vec::new(), next_id: 0 };
        proof {
            assert(r@.columns =~= Seq::<ColV>::empty());
        }
        r
    }

    /// Index of the column holding `cid`, if the store has seen it.
    fn find_col(&self, cid: &Vec<u8>) -> (r: Option<usize>)
        requires
            ecs_wf(self@),
        ensures
            match r {
                Option::Some(i) => i < self@.columns.len() && col_idx_exists(self@.columns, cid@)
                    && col_idx(self@.columns, cid@) == i,
                Option::None => !col_idx_exists(self@.columns, cid@),
            },
    {
        let n = self.columns.len();
        let mut i: usize = 0;
        while i < n
            invariant
                0 <= i <= n,
                n == self@.columns.len(),
                ecs_wf(self@),
                forall|k: int| 0 <= k < i ==> self@.columns[k].cid != cid@,
            decreases n - i,
        {
            if crate::bytes_eq(&self.columns[i].cid, cid) {
                proof {
                    lemma_col_idx_is(self@.columns, cid@, i as int);
                }
                return Some(i);
            }
            i = i + 1;
        }
        proof {
            if col_idx_exists(self@.columns, cid@) {
                let k = col_idx(self@.columns, cid@);
                assert(self@.columns[k].cid != cid@);
            }
        }
        None
    }

    /// Allocates a fresh id. Ids are handed out in increasing order;
    /// the id space is wide enough that it never runs out in practice,
    /// and at its very end the last id is handed out again.
    pub fn create_entity(&mut self) -> (r: u128)
        requires
            ecs_wf(old(self)@),
        ensures
            ecs_wf(final(self)@),
            r == old(self)@.next_id,
            final(self)@ == ecs_register(
                EcsV {
                    next_id: if old(self)@.next_id < u128::MAX {
                        (old(self)@.next_id + 1) as u128
                    } else {
                        u128::MAX
                    },
                    ..old(self)@
                },
                r,
            ),
    {
        let id = self.next_id;
        if self.next_id < u128::MAX {
            self.next_id = self.next_id + 1;
        }
        proof {
            assert(self@.columns == old(self)@.columns);
            assert(self@.entities == old(self)@.entities);
            assert(ecs_wf(self@));
        }
        self.register(id);
        id
    }

    /// Registers an entity id if it is not present yet.
    pub fn register(&mut self, e: u128)
        requires
            ecs_wf(old(self)@),
        ensures
            ecs_wf(final(self)@),
            final(self)@ == ecs_register(old(self)@, e),
    {
        let n = self.entities.len();
        let mut i: usize = 0;
        while i < n
            invariant
                0 <= i <= n,
                n == self@.entities.len(),
                self@ == old(self)@,
                ecs_wf(self@),
                forall|k: int| 0 <= k < i ==> self@.entities[k] != e,
            decreases n - i,
        {
            if self.entities[i] == e {
                proof {
                    assert(self@.entities.contains(e));
                }
                return;
            }
            i = i + 1;
        }
        proof {
            assert(!self@.entities.contains(e)) by {
                if self@.entities.contains(e) {
                    let k = choose|k: int|
                        0 <= k < self@.entities.len() && self@.entities[k] == e;
                    assert(self@.entities[k] != e);
                }
            }
        }
        let ghost prev = self@;
        self.entities.push(e);
        proof {
            assert(self@ =~= ecs_register(prev, e));
            assert forall|i: int, j: int|
                0 <= i < j < self@.entities.len() implies self@.entities[i]
                != self@.entities[j] by {
                if j < prev.entities.len() {
                    assert(prev.entities[i] != prev.entities[j]);
                } else {
                    assert(prev.entities[i] != e);
                }
            }
            assert(ecs_wf(self@));
        }
    }

    /// Point lookup of `(e, cid)`.
    pub fn get(&self, e: u128, cid: &Vec<u8>) -> (r: Option<&Vec<u8>>)
        requires
            ecs_wf(self@),
        ensures
            match r {
                Option::Some(b) => ecs_lookup(self@, cid@, e) == Some(b@),
                Option::None => ecs_lookup(self@, cid@, e) is None,
            },
    {
        match self.find_col(cid) {
            None => None,
            Some(ci) => {
                let n = self.columns[ci].rows.len();
                let mut j: usize = 0;
                while j < n
                    invariant
                        0 <= j <= n,
                        ci < self@.columns.len(),
                        n == self@.columns[ci as int].rows.len(),
                        ecs_wf(self@),
                        col_idx_exists(self@.columns, cid@),
                        col_idx(self@.columns, cid@) == ci as int,
                        forall|k: int| 0 <= k < j ==> self@.columns[ci as int].rows[k].0 != e,
                    decreases n - j,
                {
                    if self.columns[ci].rows[j].0 == e {
                        proof {
                            assert(col_wf(self@.columns[ci as int]));
                            lemma_row_idx_is(self@.columns[ci as int].rows, e, j as int);
                        }
                        return Some(&self.columns[ci].rows[j].1);
                    }
                    j = j + 1;
                }
                proof {
                    if row_idx_exists(self@.columns[ci as int].rows, e) {
                        let k = row_idx(self@.columns[ci as int].rows, e);
                        assert(self@.columns[ci as int].rows[k].0 != e);
                    }
                }
                None
            },
        }
    }

    /// Installs or replaces the component `cid` on `e`. The first write
    /// of a component id fixes its byte size; a write of any other
    /// length is rejected with `SizeMismatch` and leaves the store
    /// unchanged.
    pub fn add(&mut self, e: u128, cid: &Vec<u8>, bytes: Vec<u8>) -> (r: Result<(), EngineError>)
        requires
            ecs_wf(old(self)@),
        ensures
            ecs_wf(final(self)@),
            r is Ok <==> ecs_add_ok(old(self)@, cid@, bytes@),
            r is Ok ==> final(self)@ == ecs_add(old(self)@, e, cid@, bytes@),
            r is Ok ==> ecs_lookup(final(self)@, cid@, e) == Some(bytes@),
            r is Err ==> r == Result::<(), EngineError>::Err(EngineError::SizeMismatch)
                && final(self)@ == old(self)@,
    {
        let ghost oldv = self@;
        match self.find_col(cid) {
            None => {
                let mut rows: Vec<(u128, Vec<u8>)> = Vec::new();
                let ghost blen = bytes@.len();
                let sz = bytes.len();
                rows.push((e, bytes));
                let col = Column { cid: cid.clone(), size: sz, rows };
                self.columns.push(col);
                proof {
                    let newv = self@;
                    assert(col@.rows =~= seq![(e, bytes@)]);
                    assert(newv.columns =~= oldv.columns.push(
                        ColV { cid: cid@, size: blen, rows: seq![(e, bytes@)] },
                    ));
                    assert(newv == ecs_add(oldv, e, cid@, bytes@));
                    assert(col_wf(newv.columns[newv.columns.len() - 1]));
                    assert(ecs_wf(newv));
                    lemma_col_idx_is(newv.columns, cid@, newv.columns.len() - 1);
                    lemma_row_idx_is(newv.columns[col_idx(newv.columns, cid@)].rows, e, 0);
                }
                Ok(())
            },
            Some(ci) => {
                if bytes.len() != self.columns[ci].size {
                    return Err(EngineError::SizeMismatch);
                }
                let ghost bv = bytes@;
                let n = self.columns[ci].rows.len();
                let mut j: usize = 0;
                let mut found: Option<usize> = None;
                while j < n
                    invariant
                        0 <= j <= n,
                        ci < self@.columns.len(),
                        n == self@.columns[ci as int].rows.len(),
                        ecs_wf(self@),
                        self@ == oldv,
                        col_idx_exists(self@.columns, cid@),
                        col_idx(self@.columns, cid@) == ci as int,
                        bv.len() == self@.columns[ci as int].size,
                        match found {
                            Option::Some(f) => f < j && self@.columns[ci as int].rows[
                                f as int
                            ].0 == e,
                            Option::None => forall|k: int|
                                0 <= k < j ==> self@.columns[ci as int].rows[k].0 != e,
                        },
                    decreases n - j,
                {
                    if found.is_none() && self.columns[ci].rows[j].0 == e {
                        found = Some(j);
                    }
                    j = j + 1;
                }
                proof {
                    assert(ecs_add_ok(oldv, cid@, bv));
                }
                match found {
                    Some(f) => {
                        proof {
                            assert(col_wf(oldv.columns[ci as int]));
                            lemma_row_idx_is(oldv.columns[ci as int].rows, e, f as int);
                        }
                        let col = &mut self.columns[ci];
                        col.rows.set(f, (e, bytes));
                        proof {
                            let newv = self@;
                            let oldcol = oldv.columns[ci as int];
                            let newrows = oldcol.rows.update(f as int, (e, bv));
                            assert(newv.columns[ci as int].rows =~= newrows);
                            assert(newv.columns[ci as int] =~= ColV { rows: newrows, ..oldcol });
                            assert(newv.columns =~= oldv.columns.update(
                                ci as int,
                                ColV { rows: newrows, ..oldcol },
                            ));
                            assert(newv =~= ecs_add(oldv, e, cid@, bv));
                            assert(col_wf(newv.columns[ci as int]));
                            assert(ecs_wf(newv));
                            lemma_col_idx_is(newv.columns, cid@, ci as int);
                            lemma_row_idx_is(newv.columns[ci as int].rows, e, f as int);
                        }
                        Ok(())
                    },
                    None => {
                        proof {
                            if row_idx_exists(oldv.columns[ci as int].rows, e) {
                                let k = row_idx(oldv.columns[ci as int].rows, e);
                                assert(oldv.columns[ci as int].rows[k].0 != e);
                            }
                        }
                        let col = &mut self.columns[ci];
                        col.rows.push((e, bytes));
                        proof {
                            let newv = self@;
                            let oldcol = oldv.columns[ci as int];
                            let newrows = oldcol.rows.push((e, bv));
                            assert(newv.columns[ci as int].rows =~= newrows);
                            assert(newv.columns[ci as int] =~= ColV { rows: newrows, ..oldcol });
                            assert(newv.columns =~= oldv.columns.update(
                                ci as int,
                                ColV { rows: newrows, ..oldcol },
                            ));
                            assert(newv =~= ecs_add(oldv, e, cid@, bv));
                            assert forall|a: int, b: int|
                                0 <= a < b < newrows.len() implies newrows[a].0
                                != newrows[b].0 by {
                                if b < oldcol.rows.len() {
                                    assert(oldcol.rows[a].0 != oldcol.rows[b].0);
                                } else {
                                    assert(oldcol.rows[a].0 != e);
                                }
                            }
                            assert(col_wf(newv.columns[ci as int]));
                            assert(ecs_wf(newv));
                            lemma_col_idx_is(newv.columns, cid@, ci as int);
                            lemma_row_idx_is(
                                newv.columns[ci as int].rows,
                                e,
                                oldcol.rows.len() as int,
                            );
                        }
                        Ok(())
                    },
                }
            },
        }
    }

    /// Removes every component of `e` and drops `e` from the entity
    /// registry; a no-op where `e` is absent.
    pub fn destroy(&mut self, e: u128)
        requires
            ecs_wf(old(self)@),
        ensures
            ecs_wf(final(self)@),
            final(self)@ == ecs_destroy(old(self)@, e),
    {
        let ghost oldv = self@;
        let ncols = self.columns.len();
        let mut ci: usize = 0;
        while ci < ncols
            invariant
                0 <= ci <= ncols,
                self@.columns.len() == ncols,
                oldv.columns.len() == ncols,
                self@.entities == oldv.entities,
                self@.next_id == oldv.next_id,
                ecs_wf(oldv),
                forall|k: int|
                    ci <= k < ncols ==> self@.columns[k] == oldv.columns[k],
                forall|k: int|
                    0 <= k < ci ==> #[trigger] self@.columns[k] == col_without(
                        oldv.columns[k],
                        e,
                    ),
            decreases ncols - ci,
        {
            let n = self.columns[ci].rows.len();
            let mut j: usize = 0;
            let mut found: Option<usize> = None;
            while j < n
                invariant
                    0 <= j <= n,
                    ci < ncols,
                    self@.columns.len() == ncols,
                    oldv.columns.len() == ncols,
                    n == self@.columns[ci as int].rows.len(),
                    self@.entities == oldv.entities,
                    self@.next_id == oldv.next_id,
                    ecs_wf(oldv),
                    forall|k: int| ci <= k < ncols ==> self@.columns[k] == oldv.columns[k],
                    forall|k: int|
                        0 <= k < ci ==> #[trigger] self@.columns[k] == col_without(
                            oldv.columns[k],
                            e,
                        ),
                    match found {
                        Option::Some(f) => f < j && self@.columns[ci as int].rows[f as int].0
                            == e,
                        Option::None => forall|k: int|
                            0 <= k < j ==> self@.columns[ci as int].rows[k].0 != e,
                    },
                decreases n - j,
            {
                if found.is_none() && self.columns[ci].rows[j].0 == e {
                    found = Some(j);
                }
                j = j + 1;
            }
            let ghost before = self@;
            match found {
                Some(f) => {
                    proof {
                        assert(col_wf(oldv.columns[ci as int]));
                        lemma_row_idx_is(oldv.columns[ci as int].rows, e, f as int);
                    }
                    let col = &mut self.columns[ci];
                    col.rows.remove(f);
                    proof {
                        let oldcol = oldv.columns[ci as int];
                        assert(self@.columns[ci as int].rows =~= oldcol.rows.remove(f as int));
                        assert(self@.columns[ci as int] =~= col_without(oldcol, e));
                        assert(self@.columns[ci as int] == col_without(oldv.columns[ci as int], e));
                        assert(forall|k: int|
                            0 <= k < ncols && k != ci ==> #[trigger] self@.columns[k]
                                == before.columns[k]);
                    }
                },
                None => {
                    proof {
                        let oldcol = oldv.columns[ci as int];
                        assert(!row_idx_exists(oldcol.rows, e)) by {
                            if row_idx_exists(oldcol.rows, e) {
                                let k = row_idx(oldcol.rows, e);
                                assert(oldcol.rows[k].0 != e);
                            }
                        }
                        assert(self@.columns[ci as int] =~= col_without(oldcol, e));
                        assert(self@.columns[ci as int] == col_without(oldv.columns[ci as int], e));
                    }
                },
            }
            proof {
                assert forall|k: int| 0 <= k <= ci implies #[trigger] self@.columns[k]
                    == col_without(oldv.columns[k], e) by {
                    if k < ci {
                        assert(before.columns[k] == col_without(oldv.columns[k], e));
                    }
                }
                assert forall|k: int| ci < k < ncols implies #[trigger] self@.columns[k]
                    == oldv.columns[k] by {
                    assert(before.columns[k] == oldv.columns[k]);
                }
            }
            ci = ci + 1;
        }
        // drop `e` from the registry
        let nents = self.entities.len();
        let mut i: usize = 0;
        let mut foundent: Option<usize> = None;
        while i < nents
            invariant
                0 <= i <= nents,
                self@.entities.len() == nents,
                self@.entities == oldv.entities,
                self@.next_id == oldv.next_id,
                ecs_wf(oldv),
                self@.columns =~= ecs_destroy(oldv, e).columns,
                match foundent {
                    Option::Some(f) => f < i && self@.entities[f as int] == e,
                    Option::None => forall|k: int| 0 <= k < i ==> self@.entities[k] != e,
                },
            decreases nents - i,
        {
            if foundent.is_none() && self.entities[i] == e {
                foundent = Some(i);
            }
            i = i + 1;
        }
        match foundent {
            Some(f) => {
                proof {
                    let k = choose|k: int|
                        0 <= k < oldv.entities.len() && oldv.entities[k] == e;
                    assert(ent_idx_exists(oldv.entities, e));
                    let ki = ent_idx(oldv.entities, e);
                    if ki != f as int {
                        if ki < f as int {
                            assert(oldv.entities[ki] != oldv.entities[f as int]);
                        } else {
                            assert(oldv.entities[f as int] != oldv.entities[ki]);
                        }
                        assert(false);
                    }
                }
                self.entities.remove(f);
                proof {
                    assert(self@.entities =~= ents_without(oldv.entities, e));
                }
            },
            None => {
                proof {
                    assert(!ent_idx_exists(oldv.entities, e)) by {
                        if ent_idx_exists(oldv.entities, e) {
                            let k = ent_idx(oldv.entities, e);
                            assert(oldv.entities[k] != e);
                        }
                    }
                }
            },
        }
        proof {
            assert(final(self)@ =~= ecs_destroy(oldv, e));
            lemma_destroy_wf(oldv, e);
        }
    }

    /// Drops the instance `(e, cid)`; a no-op where it is absent.
    pub fn remove(&mut self, e: u128, cid: &Vec<u8>)
        requires
            ecs_wf(old(self)@),
        ensures
            ecs_wf(final(self)@),
            final(self)@ == ecs_remove(old(self)@, e, cid@),
    {
        let ghost oldv = self@;
        match self.find_col(cid) {
            None => {
            },
            Some(ci) => {
                let n = self.columns[ci].rows.len();
                let mut j: usize = 0;
                let mut found: Option<usize> = None;
                while j < n
                    invariant
                        0 <= j <= n,
                        ci < self@.columns.len(),
                        n == self@.columns[ci as int].rows.len(),
                        self@ == oldv,
                        ecs_wf(oldv),
                        col_idx_exists(oldv.columns, cid@),
                        col_idx(oldv.columns, cid@) == ci as int,
                        match found {
                            Option::Some(f) => f < j && self@.columns[ci as int].rows[
                                f as int
                            ].0 == e,
                            Option::None => forall|k: int|
                                0 <= k < j ==> self@.columns[ci as int].rows[k].0 != e,
                        },
                    decreases n - j,
                {
                    if found.is_none() && self.columns[ci].rows[j].0 == e {
                        found = Some(j);
                    }
                    j = j + 1;
                }
                match found {
                    Some(f) => {
                        proof {
                            assert(col_wf(oldv.columns[ci as int]));
                            lemma_row_idx_is(oldv.columns[ci as int].rows, e, f as int);
                        }
                        let col = &mut self.columns[ci];
                        col.rows.remove(f);
                        proof {
                            let oldcol = oldv.columns[ci as int];
                            assert(self@.columns[ci as int].rows =~= oldcol.rows.remove(
                                f as int,
                            ));
                            assert(self@.columns[ci as int] =~= ColV {
                                rows: rows_without(oldcol.rows, e),
                                ..oldcol
                            });
                            assert(self@.columns =~= ecs_remove(oldv, e, cid@).columns);
                            assert(self@ =~= ecs_remove(oldv, e, cid@));
                            lemma_remove_wf(oldv, e, cid@);
                        }
                    },
                    None => {
                        proof {
                            let oldcol = oldv.columns[ci as int];
                            assert(!row_idx_exists(oldcol.rows, e)) by {
                                if row_idx_exists(oldcol.rows, e) {
                                    let k = row_idx(oldcol.rows, e);
                                    assert(oldcol.rows[k].0 != e);
                                }
                            }
                            assert(self@.columns =~= ecs_remove(oldv, e, cid@).columns);
                            assert(self@ =~= ecs_remove(oldv, e, cid@));
                            lemma_remove_wf(oldv, e, cid@);
                        }
                    },
                }
            },
        }
    }

    /// All `(entity, bytes)` pairs of a component, in insertion order
    /// of the entity into that component's column.
    pub fn iter(&self, cid: &Vec<u8>) -> (r: Vec<(u128, Vec<u8>)>)
        requires
            ecs_wf(self@),
        ensures
            rows_view(r@) == if col_idx_exists(self@.columns, cid@) {
                self@.columns[col_idx(self@.columns, cid@)].rows
            } else {
                Seq::<(u128, Seq<u8>)>::empty()
            },
    {
        let mut out: Vec<(u128, Vec<u8>)> = Vec::new();
        match self.find_col(cid) {
            None => {
                proof {
                    assert(rows_view(out@) =~= Seq::<(u128, Seq<u8>)>::empty());
                }
                out
            },
            Some(ci) => {
                let n = self.columns[ci].rows.len();
                let mut j: usize = 0;
                while j < n
                    invariant
                        0 <= j <= n,
                        ci < self@.columns.len(),
                        n == self@.columns[ci as int].rows.len(),
                        ecs_wf(self@),
                        col_idx_exists(self@.columns, cid@),
                        col_idx(self@.columns, cid@) == ci as int,
                        rows_view(out@) =~= self@.columns[ci as int].rows.subrange(0, j as int),
                    decreases n - j,
                {
                    proof {
                        let s = self@.columns[ci as int].rows;
                        assert(rows_view(out@).len() == out@.len());
                        assert(s.subrange(0, j as int).len() == j);
                        assert(out@.len() == j);
                    }
                    let pair = (self.columns[ci].rows[j].0, crate::clone_bytes(
                        &self.columns[ci].rows[j].1,
                    ));
                    proof {
                        assert(self@.columns[ci as int] == self.columns@[ci as int]@);
                        assert(self@.columns[ci as int].rows[j as int] == (pair.0, pair.1@));
                    }
                    let ghost outprev = out@;
                    out.push(pair);
                    proof {
                        let s = self@.columns[ci as int].rows;
                        assert forall|k: int| 0 <= k < j + 1 implies #[trigger] rows_view(out@)[k]
                            == s[k] by {
                            if k < j {
                                assert(rows_view(outprev)[k] == s.subrange(0, j as int)[k]);
                                assert(out@[k] == outprev[k]);
                            } else {
                                assert(out@[k] == pair);
                            }
                        }
                        assert(rows_view(out@) =~= s.subrange(0, j as int + 1));
                    }
                    j = j + 1;
                }
                proof {
                    assert(self@.columns[ci as int].rows.subrange(0, n as int) =~= self@.columns[
                        ci as int
                    ].rows);
                }
                out
            },
        }
    }

    /// The entities of a component's column, in insertion order; empty
    /// where the component has never been seen.
    pub fn column_entities(&self, cid: &Vec<u8>) -> (r: Vec<u128>)
        requires
            ecs_wf(self@),
        ensures
            r@ == if col_idx_exists(self@.columns, cid@) {
                self@.columns[col_idx(self@.columns, cid@)].rows.map_values(
                    |p: (u128, Seq<u8>)| p.0,
                )
            } else {
                Seq::<u128>::empty()
            },
    {
        let mut out: Vec<u128> = Vec::new();
        match self.find_col(cid) {
            None => {
                proof {
                    assert(out@ =~= Seq::<u128>::empty());
                }
                out
            },
            Some(ci) => {
                let n = self.columns[ci].rows.len();
                let mut j: usize = 0;
                while j < n
                    invariant
                        0 <= j <= n,
                        ci < self@.columns.len(),
                        n == self@.columns[ci as int].rows.len(),
                        ecs_wf(self@),
                        col_idx_exists(self@.columns, cid@),
                        col_idx(self@.columns, cid@) == ci as int,
                        out@ =~= self@.columns[ci as int].rows.map_values(
                            |p: (u128, Seq<u8>)| p.0,
                        ).subrange(0, j as int),
                    decreases n - j,
                {
                    let e = self.columns[ci].rows[j].0;
                    proof {
                        assert(self@.columns[ci as int] == self.columns@[ci as int]@);
                        assert(self@.columns[ci as int].rows[j as int].0 == e);
                    }
                    out.push(e);
                    proof {
                        assert(out@ =~= self@.columns[ci as int].rows.map_values(
                            |p: (u128, Seq<u8>)| p.0,
                        ).subrange(0, j as int + 1));
                    }
                    j = j + 1;
                }
                proof {
                    let m = self@.columns[ci as int].rows.map_values(|p: (u128, Seq<u8>)| p.0);
                    assert(m.subrange(0, n as int) =~= m);
                }
                out
            },
        }
    }

    /// Whether `e` holds every component id in `required`.
    pub fn has_all(&self, e: u128, required: &Vec<Vec<u8>>) -> (r: bool)
        requires
            ecs_wf(self@),
        ensures
            r <==> ecs_has_all(self@, cids_view(required@), e),
    {
        let n = required.len();
        let mut t: usize = 0;
        while t < n
            invariant
                0 <= t <= n,
                n == required@.len(),
                ecs_wf(self@),
                forall|k: int|
                    0 <= k < t ==> ecs_lookup(self@, cids_view(required@)[k], e) is Some,
            decreases n - t,
        {
            if self.get(e, &required[t]).is_none() {
                proof {
                    assert(ecs_lookup(self@, cids_view(required@)[t as int], e) is None);
                }
                return false;
            }
            t = t + 1;
        }
        true
    }

    /// Some entity holding all of the listed components, if one
    /// exists; an empty component list matches nothing.
    pub fn find(&self, required: &Vec<Vec<u8>>) -> (r: Option<u128>)
        requires
            ecs_wf(self@),
        ensures
            match r {
                Option::Some(e) => required@.len() > 0 && ecs_has_all(
                    self@,
                    cids_view(required@),
                    e,
                ),
                Option::None => required@.len() == 0 || forall|e: u128|
                    !ecs_has_all(self@, cids_view(required@), e),
            },
    {
        if required.len() == 0 {
            return None;
        }
        match self.find_col(&required[0]) {
            None => {
                proof {
                    assert forall|e: u128| !ecs_has_all(self@, cids_view(required@), e) by {
                        assert(ecs_lookup(self@, cids_view(required@)[0], e) is None);
                    }
                }
                None
            },
            Some(ci) => {
                let n = self.columns[ci].rows.len();
                let mut j: usize = 0;
                while j < n
                    invariant
                        0 <= j <= n,
                        ci < self@.columns.len(),
                        n == self@.columns[ci as int].rows.len(),
                        ecs_wf(self@),
                        required@.len() > 0,
                        col_idx_exists(self@.columns, cids_view(required@)[0]),
                        col_idx(self@.columns, cids_view(required@)[0]) == ci as int,
                        forall|k: int|
                            0 <= k < j ==> !ecs_has_all(
                                self@,
                                cids_view(required@),
                                #[trigger] self@.columns[ci as int].rows[k].0,
                            ),
                    decreases n - j,
                {
                    let e = self.columns[ci].rows[j].0;
                    if self.has_all(e, required) {
                        return Some(e);
                    }
                    j = j + 1;
                }
                proof {
                    assert forall|e: u128| !ecs_has_all(self@, cids_view(required@), e) by {
                        if ecs_has_all(self@, cids_view(required@), e) {
                            assert(ecs_lookup(self@, cids_view(required@)[0], e) is Some);
                            let rows = self@.columns[ci as int].rows;
                            assert(row_idx_exists(rows, e));
                            let k = row_idx(rows, e);
                            assert(rows[k].0 == e);
                            assert(!ecs_has_all(self@, cids_view(required@), rows[k].0));
                        }
                    }
                }
                None
            },
        }
    }
}

/// Destroying an entity keeps the store well formed.
proof fn lemma_destroy_wf(v: EcsV, e: u128)
    requires
        ecs_wf(v),
    ensures
        ecs_wf(ecs_destroy(v, e)),
{
    let out = ecs_destroy(v, e);
    assert forall|i: int| 0 <= i < out.columns.len() implies col_wf(#[trigger] out.columns[i]) by {
        assert(col_wf(v.columns[i]));
        lemma_rows_without_props(v.columns[i].rows, e, v.columns[i].size);
    }
    if ent_idx_exists(v.entities, e) {
        let j = ent_idx(v.entities, e);
        assert forall|a: int, b: int|
            0 <= a < b < out.entities.len() implies out.entities[a] != out.entities[b] by {
            if b < j {
                assert(v.entities[a] != v.entities[b]);
            } else if a < j {
                assert(v.entities[a] != v.entities[b + 1]);
            } else {
                assert(v.entities[a + 1] != v.entities[b + 1]);
            }
        }
    }
}

/// Removing one instance keeps the store well formed.
proof fn lemma_remove_wf(v: EcsV, e: u128, cid: Seq<u8>)
    requires
        ecs_wf(v),
    ensures
        ecs_wf(ecs_remove(v, e, cid)),
{
    let out = ecs_remove(v, e, cid);
    if col_idx_exists(v.columns, cid) {
        let i = col_idx(v.columns, cid);
        assert forall|k: int| 0 <= k < out.columns.len() implies col_wf(
            #[trigger] out.columns[k],
        ) by {
            assert(col_wf(v.columns[k]));
            if k == i {
                lemma_rows_without_props(v.columns[i].rows, e, v.columns[i].size);
            }
        }
    }
}

/// Law: after a successful `add` of `(e, cid, b)`, looking the pair up
/// returns exactly `b`, every other pair reads as before, and the
/// store stays well formed with the size of `cid` pinned to `b.len()`.
pub proof fn lemma_add_then_get(v: EcsV, e: u128, cid: Seq<u8>, b: Seq<u8>)
    requires
        ecs_wf(v),
        ecs_add_ok(v, cid, b),
    ensures
        ecs_wf(ecs_add(v, e, cid, b)),
        ecs_lookup(ecs_add(v, e, cid, b), cid, e) == Some(b),
        ecs_size(ecs_add(v, e, cid, b), cid) == Some(b.len()),
        forall|c2: Seq<u8>|
            c2 != cid ==> ecs_size(ecs_add(v, e, cid, b), c2) == ecs_size(v, c2),
        forall|c2: Seq<u8>, e2: u128|
            !(c2 == cid && e2 == e) ==> ecs_lookup(ecs_add(v, e, cid, b), c2, e2) == ecs_lookup(
                v,
                c2,
                e2,
            ),
        ecs_add(v, e, cid, b).entities == v.entities,
        ecs_add(v, e, cid, b).next_id == v.next_id,
{
    let out = ecs_add(v, e, cid, b);
    if col_idx_exists(v.columns, cid) {
        let i = col_idx(v.columns, cid);
        let col = v.columns[i];
        assert(col_wf(col));
        assert(col.size == b.len());
        let rows2 = if row_idx_exists(col.rows, e) {
            col.rows.update(row_idx(col.rows, e), (e, b))
        } else {
            col.rows.push((e, b))
        };
        assert forall|a: int, c: int| 0 <= a < c < rows2.len() implies rows2[a].0
            != rows2[c].0 by {
            if row_idx_exists(col.rows, e) {
                let j = row_idx(col.rows, e);
                assert(col.rows[a].0 != col.rows[c].0);
            } else {
                if c < col.rows.len() {
                    assert(col.rows[a].0 != col.rows[c].0);
                } else {
                    if row_idx_exists(col.rows, e) {
                    } else {
                        assert(col.rows[a].0 != e);
                    }
                }
            }
        }
        assert(col_wf(ColV { rows: rows2, ..col }));
        assert forall|k: int| 0 <= k < out.columns.len() implies col_wf(
            #[trigger] out.columns[k],
        ) by {
            assert(col_wf(v.columns[k]));
        }
        assert(ecs_wf(out));
        lemma_col_idx_is(out.columns, cid, i);
        if row_idx_exists(col.rows, e) {
            lemma_row_idx_is(rows2, e, row_idx(col.rows, e));
        } else {
            lemma_row_idx_is(rows2, e, col.rows.len() as int);
        }
        assert forall|c2: Seq<u8>| c2 != cid implies ecs_size(out, c2) == ecs_size(v, c2) by {
            lemma_other_col_framed(v.columns, out.columns, i, c2);
        }
        assert forall|c2: Seq<u8>, e2: u128| !(c2 == cid && e2 == e) implies ecs_lookup(
            out,
            c2,
            e2,
        ) == ecs_lookup(v, c2, e2) by {
            if c2 == cid {
                if row_idx_exists(col.rows, e) {
                    let j = row_idx(col.rows, e);
                    if row_idx_exists(col.rows, e2) {
                        let k = row_idx(col.rows, e2);
                        assert(k != j);
                        lemma_row_idx_is(rows2, e2, k);
                        lemma_row_idx_is(col.rows, e2, k);
                    } else {
                        if row_idx_exists(rows2, e2) {
                            let k = row_idx(rows2, e2);
                            assert(col.rows[k].0 == e2);
                        }
                    }
                } else {
                    if row_idx_exists(col.rows, e2) {
                        let k = row_idx(col.rows, e2);
                        lemma_row_idx_is(rows2, e2, k);
                        lemma_row_idx_is(col.rows, e2, k);
                    } else {
                        if row_idx_exists(rows2, e2) {
                            let k = row_idx(rows2, e2);
                            if k < col.rows.len() {
                                assert(col.rows[k].0 == e2);
                            }
                        }
                    }
                }
            } else {
                lemma_other_col_framed(v.columns, out.columns, i, c2);
            }
        }
    } else {
        let newcol = ColV { cid: cid, size: b.len(), rows: seq![(e, b)] };
        assert(col_wf(newcol));
        assert forall|k: int| 0 <= k < out.columns.len() implies col_wf(
            #[trigger] out.columns[k],
        ) by {
            if k < v.columns.len() {
                assert(col_wf(v.columns[k]));
            }
        }
        assert forall|a: int, c: int|
            0 <= a < c < out.columns.len() implies out.columns[a].cid != out.columns[c].cid by {
            if c < v.columns.len() {
                assert(v.columns[a].cid != v.columns[c].cid);
            } else {
                if col_idx_exists(v.columns, cid) {
                } else {
                    assert(v.columns[a].cid != cid);
                }
            }
        }
        assert(ecs_wf(out));
        lemma_col_idx_is(out.columns, cid, v.columns.len() as int);
        lemma_row_idx_is(seq![(e, b)], e, 0);
        assert forall|c2: Seq<u8>| c2 != cid implies ecs_size(out, c2) == ecs_size(v, c2) by {
            lemma_pushed_col_framed(v.columns, out.columns, c2);
        }
        assert forall|c2: Seq<u8>, e2: u128| !(c2 == cid && e2 == e) implies ecs_lookup(
            out,
            c2,
            e2,
        ) == ecs_lookup(v, c2, e2) by {
            if c2 == cid {
                assert(!col_idx_exists(v.columns, c2));
                lemma_row_idx_is(seq![(e, b)], e, 0);
                if row_idx_exists(seq![(e, b)], e2) {
                    let k = row_idx(seq![(e, b)], e2);
                    assert(seq![(e, b)][k].0 == e2);
                    assert(e2 == e);
                }
            } else {
                lemma_pushed_col_framed(v.columns, out.columns, c2);
            }
        }
    }
}

/// A column update at index `i` leaves every other component id's
/// column, size and lookups unchanged.
proof fn lemma_other_col_framed(cols: Seq<ColV>, cols2: Seq<ColV>, i: int, c2: Seq<u8>)
    requires
        forall|a: int, b: int| 0 <= a < b < cols.len() ==> cols[a].cid != cols[b].cid,
        cols2.len() == cols.len(),
        0 <= i < cols.len(),
        cols2[i].cid == cols[i].cid,
        forall|k: int| 0 <= k < cols.len() && k != i ==> cols2[k] == cols[k],
        c2 != cols[i].cid,
    ensures
        col_idx_exists(cols2, c2) == col_idx_exists(cols, c2),
        col_idx_exists(cols, c2) ==> cols2[col_idx(cols2, c2)] == cols[col_idx(cols, c2)],
{
    assert forall|a: int, b: int|
        0 <= a < b < cols2.len() implies cols2[a].cid != cols2[b].cid by {
        assert(cols[a].cid != cols[b].cid);
    }
    if col_idx_exists(cols, c2) {
        let k = col_idx(cols, c2);
        assert(cols[k].cid == c2);
        assert(k != i);
        assert(cols2[k].cid == c2);
        lemma_col_idx_is(cols2, c2, k);
    } else {
        if col_idx_exists(cols2, c2) {
            let k = col_idx(cols2, c2);
            assert(cols2[k].cid == c2);
            assert(k != i ==> cols[k].cid == c2);
            assert(false);
        }
    }
}

/// A pushed column leaves every other component id's column and
/// lookups unchanged.
proof fn lemma_pushed_col_framed(cols: Seq<ColV>, cols2: Seq<ColV>, c2: Seq<u8>)
    requires
        forall|a: int, b: int| 0 <= a < b < cols.len() ==> cols[a].cid != cols[b].cid,
        cols2.len() == cols.len() + 1,
        forall|k: int| 0 <= k < cols.len() ==> cols2[k] == cols[k],
        c2 != cols2[cols.len() as int].cid,
        !col_idx_exists(cols, cols2[cols.len() as int].cid),
    ensures
        col_idx_exists(cols2, c2) == col_idx_exists(cols, c2),
        col_idx_exists(cols, c2) ==> cols2[col_idx(cols2, c2)] == cols[col_idx(cols, c2)],
{
    if col_idx_exists(cols, c2) {
        let k = col_idx(cols, c2);
        assert(cols2[k].cid == c2);
        assert forall|a: int, b: int|
            0 <= a < b < cols2.len() implies cols2[a].cid != cols2[b].cid by {
            if b < cols.len() {
                assert(cols[a].cid != cols[b].cid);
            } else {
                if cols2[a].cid == cols2[b].cid {
                    assert(cols[a].cid == cols2[cols.len() as int].cid);
                    assert(col_idx_exists(cols, cols2[cols.len() as int].cid));
                }
            }
        }
        lemma_col_idx_is(cols2, c2, k);
    } else {
        if col_idx_exists(cols2, c2) {
            let k = col_idx(cols2, c2);
            assert(cols2[k].cid == c2);
            if k < cols.len() {
                assert(cols[k].cid == c2);
            }
            assert(false);
        }
    }
}

/// Law: after `destroy(e)`, looking up `e` under any component id
/// returns nothing, while every other entity reads as before and the
/// registered component sizes are kept.
pub proof fn lemma_destroy_then_get(v: EcsV, e: u128)
    requires
        ecs_wf(v),
    ensures
        ecs_wf(ecs_destroy(v, e)),
        forall|cid: Seq<u8>| ecs_lookup(ecs_destroy(v, e), cid, e) is None,
        forall|cid: Seq<u8>, e2: u128|
            e2 != e ==> ecs_lookup(ecs_destroy(v, e), cid, e2) == ecs_lookup(v, cid, e2),
        forall|cid: Seq<u8>| ecs_size(ecs_destroy(v, e), cid) == ecs_size(v, cid),
{
    lemma_destroy_wf(v, e);
    let out = ecs_destroy(v, e);
    assert forall|a: int, b: int|
        0 <= a < b < out.columns.len() implies out.columns[a].cid != out.columns[b].cid by {
        assert(v.columns[a].cid != v.columns[b].cid);
    }
    assert forall|cid: Seq<u8>| ecs_lookup(out, cid, e) is None by {
        if col_idx_exists(out.columns, cid) {
            let i = col_idx(out.columns, cid);
            assert(v.columns[i].cid == cid);
            assert(col_wf(v.columns[i]));
            lemma_rows_without_props(v.columns[i].rows, e, v.columns[i].size);
        }
    }
    assert forall|cid: Seq<u8>, e2: u128| e2 != e implies ecs_lookup(out, cid, e2) == ecs_lookup(
        v,
        cid,
        e2,
    ) by {
        if col_idx_exists(v.columns, cid) {
            let i = col_idx(v.columns, cid);
            lemma_col_idx_is(out.columns, cid, i);
            assert(col_wf(v.columns[i]));
            lemma_rows_without_props(v.columns[i].rows, e, v.columns[i].size);
        } else {
            if col_idx_exists(out.columns, cid) {
                let i = col_idx(out.columns, cid);
                assert(v.columns[i].cid == cid);
            }
        }
    }
    assert forall|cid: Seq<u8>| ecs_size(out, cid) == ecs_size(v, cid) by {
        if col_idx_exists(v.columns, cid) {
            let i = col_idx(v.columns, cid);
            lemma_col_idx_is(out.columns, cid, i);
        } else {
            if col_idx_exists(out.columns, cid) {
                let i = col_idx(out.columns, cid);
                assert(v.columns[i].cid == cid);
            }
        }
    }
}

/// Law: writing back the bytes a pair already holds leaves the store
/// exactly as it was.
pub proof fn lemma_add_same_identity(v: EcsV, e: u128, cid: Seq<u8>, b: Seq<u8>)
    requires
        ecs_wf(v),
        ecs_lookup(v, cid, e) == Some(b),
    ensures
        ecs_add_ok(v, cid, b),
        ecs_add(v, e, cid, b) == v,
{
    let i = col_idx(v.columns, cid);
    let col = v.columns[i];
    assert(col_wf(col));
    let j = row_idx(col.rows, e);
    assert(col.rows[j] == (e, b));
    assert(col.rows.update(j, (e, b)) =~= col.rows);
    assert(ColV { rows: col.rows.update(j, (e, b)), ..col } =~= col);
    assert(v.columns.update(i, col) =~= v.columns);
    assert(ecs_add(v, e, cid, b) =~= v);
}

} // verus!
