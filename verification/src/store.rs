//! An identity-keyed store of chart records, with the generation-sweep
//! reconciliation strategy.
//!
//! The store is modelled as a map from identity to record. A run upserts
//! every built record and only then deletes rows whose cycle tag differs
//! from the run's cycle; the laws at the bottom show that a run is
//! idempotent and that the sweep removes exactly the stale generation,
//! while a run aborted before the sweep retains every unprocessed row.

use vstd::prelude::*;

use crate::models::ChartRecord;
use crate::models::RecordModel;
use crate::models::str_eq;

verus! {

/// The map a sequence of rows denotes: later rows win on identity.
pub open spec fn store_map(s: Seq<ChartRecord>) -> Map<Seq<char>, RecordModel>
    decreases s.len(),
{
    if s.len() == 0 {
        Map::empty()
    } else {
        store_map(s.drop_last()).insert(s.last()@.identity, s.last()@)
    }
}

pub open spec fn unique_identities(s: Seq<ChartRecord>) -> bool {
    forall|i: int, j: int|
        0 <= i < j < s.len() ==> s[i]@.identity != s[j]@.identity
}

pub open spec fn has_row_identity(s: Seq<ChartRecord>, k: Seq<char>) -> bool {
    exists|t: int| 0 <= t < s.len() && s[t]@.identity == k
}

/// Restriction of a store to the rows tagged with the given cycle.
pub open spec fn sweep_map(m: Map<Seq<char>, RecordModel>, code: int) -> Map<
    Seq<char>,
    RecordModel,
> {
    Map::new(|k: Seq<char>| m.dom().contains(k) && m[k].cycle == code, |k: Seq<char>| m[k])
}

/// The map after upserting the given records in order.
pub open spec fn upserts(m: Map<Seq<char>, RecordModel>, rs: Seq<RecordModel>) -> Map<
    Seq<char>,
    RecordModel,
>
    decreases rs.len(),
{
    if rs.len() == 0 {
        m
    } else {
        upserts(m, rs.drop_last()).insert(rs.last().identity, rs.last())
    }
}

/// One full run: upsert everything, then sweep the stale generation.
pub open spec fn run_map(
    m: Map<Seq<char>, RecordModel>,
    rs: Seq<RecordModel>,
    code: int,
) -> Map<Seq<char>, RecordModel> {
    sweep_map(upserts(m, rs), code)
}

pub open spec fn has_identity(rs: Seq<RecordModel>, k: Seq<char>) -> bool {
    exists|t: int| 0 <= t < rs.len() && rs[t].identity == k
}

proof fn lemma_store_map_dom(s: Seq<ChartRecord>, k: Seq<char>)
    ensures
        store_map(s).dom().contains(k) <==> has_row_identity(s, k),
    decreases s.len(),
{
    if s.len() > 0 {
        lemma_store_map_dom(s.drop_last(), k);
        if store_map(s).dom().contains(k) {
            if s.last()@.identity == k {
                assert(s[s.len() - 1]@.identity == k);
            } else {
                let t = choose|t: int|
                    0 <= t < s.drop_last().len() && s.drop_last()[t]@.identity == k;
                assert(s[t]@.identity == k);
            }
        }
        if has_row_identity(s, k) {
            let t = choose|t: int| 0 <= t < s.len() && s[t]@.identity == k;
            if t < s.len() - 1 {
                assert(s.drop_last()[t]@.identity == k);
            }
        }
    }
}

proof fn lemma_store_map_get(s: Seq<ChartRecord>, i: int)
    requires
        unique_identities(s),
        0 <= i < s.len(),
    ensures
        store_map(s).dom().contains(s[i]@.identity),
        store_map(s)[s[i]@.identity] == s[i]@,
    decreases s.len(),
{
    if i == s.len() - 1 {
    } else {
        assert(unique_identities(s.drop_last()));
        lemma_store_map_get(s.drop_last(), i);
        assert(s.drop_last()[i] == s[i]);
        assert(s[i]@.identity != s.last()@.identity);
    }
}

proof fn lemma_store_map_update(s: Seq<ChartRecord>, i: int, r: ChartRecord)
    requires
        unique_identities(s),
        0 <= i < s.len(),
        s[i]@.identity == r@.identity,
    ensures
        store_map(s.update(i, r)) =~= store_map(s).insert(r@.identity, r@),
    decreases s.len(),
{
    if i == s.len() - 1 {
        assert(s.update(i, r).drop_last() =~= s.drop_last());
        assert(s.update(i, r).last() == r);
    } else {
        assert(unique_identities(s.drop_last()));
        assert(s.drop_last()[i] == s[i]);
        lemma_store_map_update(s.drop_last(), i, r);
        assert(s.update(i, r).drop_last() =~= s.drop_last().update(i, r));
        assert(s.update(i, r).last() == s.last());
        assert(s[i]@.identity != s.last()@.identity);
    }
}

proof fn lemma_store_map_card(s: Seq<ChartRecord>)
    requires
        unique_identities(s),
    ensures
        store_map(s).dom().finite(),
        store_map(s).dom().len() == s.len(),
    decreases s.len(),
{
    if s.len() > 0 {
        assert(unique_identities(s.drop_last()));
        lemma_store_map_card(s.drop_last());
        lemma_store_map_dom(s.drop_last(), s.last()@.identity);
        if has_row_identity(s.drop_last(), s.last()@.identity) {
            let t = choose|t: int|
                0 <= t < s.drop_last().len() && s.drop_last()[t]@.identity == s.last()@.identity;
            assert(s[t]@.identity == s[s.len() - 1]@.identity);
            assert(false);
        }
        assert(store_map(s).dom() =~= store_map(s.drop_last()).dom().insert(s.last()@.identity));
    }
}

/// The persisted table, keyed by chart identity.
pub struct Store {
    rows: Vec<ChartRecord>,
}

impl View for Store {
    type V = Map<Seq<char>, RecordModel>;

    closed spec fn view(&self) -> Map<Seq<char>, RecordModel> {
        store_map(self.rows@)
    }
}

impl Store {
    pub closed spec fn wf(&self) -> bool {
        unique_identities(self.rows@)
    }

    pub fn new() -> (s: Store)
        ensures
            s.wf(),
            s@ == Map::<Seq<char>, RecordModel>::empty(),
    {
        Store { rows: Vec::new() }
    }

    pub fn len(&self) -> (n: usize)
        requires
            self.wf(),
        ensures
            n == self@.dom().len(),
    {
        proof {
            lemma_store_map_card(self.rows@);
        }
        self.rows.len()
    }

    /// Looks a row up by its identity.
    pub fn lookup(&self, identity: &str) -> (r: Option<&ChartRecord>)
        requires
            self.wf(),
        ensures
            r is Some <==> self@.dom().contains(identity@),
            r is Some ==> r->Some_0@ == self@[identity@],
    {
        let mut i: usize = 0;
        while i < self.rows.len()
            invariant
                0 <= i <= self.rows@.len(),
                self.wf(),
                forall|j: int| 0 <= j < i ==> #[trigger] self.rows@[j]@.identity != identity@,
            decreases self.rows@.len() - i,
        {
            if str_eq(self.rows[i].identity.as_str(), identity) {
                proof {
                    lemma_store_map_get(self.rows@, i as int);
                }
                return Some(&self.rows[i]);
            }
            i = i + 1;
        }
        proof {
            lemma_store_map_dom(self.rows@, identity@);
            if has_row_identity(self.rows@, identity@) {
                let t = choose|t: int|
                    0 <= t < self.rows@.len() && self.rows@[t]@.identity == identity@;
                assert(self.rows@[t]@.identity == identity@);
                assert(false);
            }
        }
        None
    }

    /// Inserts the record, or overwrites every field of the row that already
    /// carries its identity.
    pub fn upsert(&mut self, r: ChartRecord)
        requires
            old(self).wf(),
        ensures
            final(self).wf(),
            final(self)@ == old(self)@.insert(r@.identity, r@),
    {
        let mut i: usize = 0;
        while i < self.rows.len()
            invariant
                0 <= i <= self.rows@.len(),
                self.wf(),
                self.rows@ == old(self).rows@,
                forall|j: int| 0 <= j < i ==> #[trigger] self.rows@[j]@.identity != r@.identity,
            decreases self.rows@.len() - i,
        {
            if str_eq(self.rows[i].identity.as_str(), r.identity.as_str()) {
                proof {
                    lemma_store_map_update(self.rows@, i as int, r);
                }
                self.rows.set(i, r);
                proof {
                    assert(unique_identities(self.rows@));
                }
                return ;
            }
            i = i + 1;
        }
        proof {
            lemma_store_map_dom(self.rows@, r@.identity);
            if has_row_identity(self.rows@, r@.identity) {
                let t = choose|t: int|
                    0 <= t < self.rows@.len() && self.rows@[t]@.identity == r@.identity;
                assert(self.rows@[t]@.identity == r@.identity);
                assert(false);
            }
        }
        let ghost prev = self.rows@;
        self.rows.push(r);
        proof {
            assert(self.rows@.drop_last() =~= prev);
            assert(self.rows@.last() == r);
            assert(unique_identities(self.rows@));
        }
    }

    /// Deletes every row whose cycle tag differs from `code`: the
    /// generation sweep.
    pub fn delete_where_cycle_not(&mut self, code: u16)
        requires
            old(self).wf(),
        ensures
            final(self).wf(),
            final(self)@ == sweep_map(old(self)@, code as int),
    {
        let n: usize = self.rows.len();
        let mut kept: Vec<ChartRecord> = Vec::new();
        let mut i: usize = 0;
        proof {
            assert(self.rows@.take(0) =~= Seq::<ChartRecord>::empty());
            assert(store_map(kept@) =~= sweep_map(store_map(self.rows@.take(0)), code as int));
        }
        while i < n
            invariant
                0 <= i <= n == self.rows@.len(),
                self.rows@ == old(self).rows@,
                self.wf(),
                unique_identities(kept@),
                store_map(kept@) == sweep_map(store_map(self.rows@.take(i as int)), code as int),
                forall|j: int|
                    0 <= j < kept@.len() ==> has_row_identity(
                        self.rows@.take(i as int),
                        #[trigger] kept@[j]@.identity,
                    ),
            decreases n - i,
        {
            let ghost rows = self.rows@;
            proof {
                assert(rows.take(i as int + 1).drop_last() =~= rows.take(i as int));
                assert(rows.take(i as int + 1).last() == rows[i as int]);
                lemma_store_map_dom(rows.take(i as int), rows[i as int]@.identity);
                if has_row_identity(rows.take(i as int), rows[i as int]@.identity) {
                    let t = choose|t: int|
                        0 <= t < i && rows.take(i as int)[t]@.identity == rows[i as int]@.identity;
                    assert(rows[t]@.identity == rows[i as int]@.identity);
                    assert(false);
                }
            }
            let keep: bool = self.rows[i].cycle == code;
            if keep {
                let ghost prev_kept = kept@;
                let row = self.rows[i].clone_record();
                kept.push(row);
                proof {
                    assert(kept@.drop_last() =~= prev_kept);
                    assert(kept@.last()@ == rows[i as int]@);
                    if exists|j: int|
                        0 <= j < prev_kept.len() && prev_kept[j]@.identity == rows[i as int]@.identity {
                        let j = choose|j: int|
                            0 <= j < prev_kept.len() && prev_kept[j]@.identity == rows[i as int]@.identity;
                        assert(has_row_identity(rows.take(i as int), prev_kept[j]@.identity));
                        assert(false);
                    }
                    assert(unique_identities(kept@));
                    assert(store_map(kept@) =~= sweep_map(
                        store_map(rows.take(i as int + 1)),
                        code as int,
                    ));
                    assert forall|j: int| 0 <= j < kept@.len() implies has_row_identity(
                        rows.take(i as int + 1),
                        #[trigger] kept@[j]@.identity,
                    ) by {
                        if j < kept@.len() - 1 {
                            let t = choose|t: int|
                                0 <= t < i && rows.take(i as int)[t]@.identity == kept@[j]@.identity;
                            assert(rows.take(i as int + 1)[t]@.identity == kept@[j]@.identity);
                        } else {
                            assert(rows.take(i as int + 1)[i as int]@.identity == kept@[j]@.identity);
                        }
                    }
                }
            } else {
                proof {
                    assert(store_map(kept@) =~= sweep_map(
                        store_map(rows.take(i as int + 1)),
                        code as int,
                    ));
                    assert forall|j: int| 0 <= j < kept@.len() implies has_row_identity(
                        rows.take(i as int + 1),
                        #[trigger] kept@[j]@.identity,
                    ) by {
                        let t = choose|t: int|
                            0 <= t < i && rows.take(i as int)[t]@.identity == kept@[j]@.identity;
                        assert(rows.take(i as int + 1)[t]@.identity == kept@[j]@.identity);
                    }
                }
            }
            i = i + 1;
        }
        proof {
            assert(self.rows@.take(n as int) =~= self.rows@);
        }
        self.rows = kept;
    }

    /// One reconciliation run against this store: upsert every record, then
    /// sweep everything whose cycle tag is not `code`.
    pub fn reconcile(&mut self, records: &Vec<ChartRecord>, code: u16)
        requires
            old(self).wf(),
        ensures
            final(self).wf(),
            final(self)@ == run_map(
                old(self)@,
                records@.map_values(|c: ChartRecord| c@),
                code as int,
            ),
    {
        let ghost models = records@.map_values(|c: ChartRecord| c@);
        let mut i: usize = 0;
        proof {
            assert(models.take(0) =~= Seq::<RecordModel>::empty());
        }
        while i < records.len()
            invariant
                0 <= i <= records@.len(),
                models == records@.map_values(|c: ChartRecord| c@),
                self.wf(),
                self@ == upserts(old(self)@, models.take(i as int)),
            decreases records@.len() - i,
        {
            let r = records[i].clone_record();
            self.upsert(r);
            proof {
                assert(models.take(i as int + 1).drop_last() =~= models.take(i as int));
                assert(models.take(i as int + 1).last() == models[i as int]);
                assert(models[i as int] == records@[i as int]@);
            }
            i = i + 1;
        }
        proof {
            assert(models.take(records@.len() as int) =~= models);
        }
        self.delete_where_cycle_not(code);
    }
}

/// Upserting records never disturbs an identity none of them carries.
pub proof fn lemma_upserts_untouched(
    m: Map<Seq<char>, RecordModel>,
    rs: Seq<RecordModel>,
    k: Seq<char>,
)
    requires
        !has_identity(rs, k),
    ensures
        upserts(m, rs).dom().contains(k) == m.dom().contains(k),
        m.dom().contains(k) ==> upserts(m, rs)[k] == m[k],
    decreases rs.len(),
{
    if rs.len() > 0 {
        if has_identity(rs.drop_last(), k) {
            let t = choose|t: int|
                0 <= t < rs.drop_last().len() && rs.drop_last()[t].identity == k;
            assert(rs[t].identity == k);
            assert(false);
        }
        lemma_upserts_untouched(m, rs.drop_last(), k);
        assert(rs[rs.len() - 1].identity != k);
    }
}

/// An identity that some record carries ends at the same value whatever the
/// store held before the run, and that value is one of the records.
pub proof fn lemma_upserts_written(
    m1: Map<Seq<char>, RecordModel>,
    m2: Map<Seq<char>, RecordModel>,
    rs: Seq<RecordModel>,
    k: Seq<char>,
)
    requires
        has_identity(rs, k),
    ensures
        upserts(m1, rs).dom().contains(k),
        upserts(m2, rs).dom().contains(k),
        upserts(m1, rs)[k] == upserts(m2, rs)[k],
        exists|j: int| 0 <= j < rs.len() && rs[j].identity == k && upserts(m1, rs)[k] == rs[j],
    decreases rs.len(),
{
    let t = choose|t: int| 0 <= t < rs.len() && rs[t].identity == k;
    if rs[rs.len() - 1].identity == k {
        assert(rs[rs.len() - 1].identity == k && upserts(m1, rs)[k] == rs[rs.len() - 1]);
    } else {
        assert(t < rs.len() - 1);
        assert(rs.drop_last()[t].identity == k);
        assert(has_identity(rs.drop_last(), k));
        lemma_upserts_written(m1, m2, rs.drop_last(), k);
        let j = choose|j: int|
            0 <= j < rs.drop_last().len() && rs.drop_last()[j].identity == k && upserts(
                m1,
                rs.drop_last(),
            )[k] == rs.drop_last()[j];
        assert(rs[j].identity == k && upserts(m1, rs)[k] == rs[j]);
    }
}

/// Reconciliation is idempotent: running the same records at the same cycle
/// twice leaves the store exactly as the first run did.
pub proof fn lemma_reconcile_idempotent(
    m: Map<Seq<char>, RecordModel>,
    rs: Seq<RecordModel>,
    code: int,
)
    requires
        forall|i: int| 0 <= i < rs.len() ==> #[trigger] rs[i].cycle == code,
    ensures
        run_map(run_map(m, rs, code), rs, code) == run_map(m, rs, code),
{
    let m1 = run_map(m, rs, code);
    let m2 = run_map(m1, rs, code);
    let u1 = upserts(m, rs);
    let u2 = upserts(m1, rs);
    assert forall|k: Seq<char>|
        (#[trigger] m2.dom().contains(k) <==> m1.dom().contains(k)) && (m1.dom().contains(k)
            ==> m2[k] == m1[k]) by {
        if has_identity(rs, k) {
            lemma_upserts_written(m, m1, rs, k);
            let j = choose|j: int|
                0 <= j < rs.len() && rs[j].identity == k && upserts(m, rs)[k] == rs[j];
            assert(rs[j].cycle == code);
            assert(u1[k].cycle == code);
            assert(m1.dom().contains(k) && m1[k] == u1[k]);
            assert(u2[k] == u1[k]);
            assert(m2.dom().contains(k) && m2[k] == u2[k]);
        } else {
            lemma_upserts_untouched(m, rs, k);
            lemma_upserts_untouched(m1, rs, k);
            if m1.dom().contains(k) {
                assert(m1[k] == u1[k] && u1[k].cycle == code);
                assert(u2[k] == m1[k]);
                assert(m2.dom().contains(k) && m2[k] == m1[k]);
            } else {
                assert(!m2.dom().contains(k));
            }
        }
    }
    assert(m2 =~= m1);
}

/// The generation sweep: when every pre-run row carries a stale cycle tag,
/// a successful run leaves exactly the freshly built records, no matter
/// what the store held before.
pub proof fn lemma_generation_sweep(
    m: Map<Seq<char>, RecordModel>,
    rs: Seq<RecordModel>,
    code: int,
)
    requires
        forall|k: Seq<char>| #[trigger] m.dom().contains(k) ==> m[k].cycle != code,
        forall|i: int| 0 <= i < rs.len() ==> #[trigger] rs[i].cycle == code,
    ensures
        run_map(m, rs, code) == run_map(Map::empty(), rs, code),
        forall|k: Seq<char>|
            #[trigger] run_map(m, rs, code).dom().contains(k) <==> has_identity(rs, k),
{
    let m1 = run_map(m, rs, code);
    let m0 = run_map(Map::empty(), rs, code);
    assert forall|k: Seq<char>|
        (#[trigger] m1.dom().contains(k) <==> has_identity(rs, k)) && (m0.dom().contains(k)
            <==> has_identity(rs, k)) && (has_identity(rs, k) ==> m1[k] == m0[k]) by {
        if has_identity(rs, k) {
            lemma_upserts_written(m, Map::empty(), rs, k);
            let j = choose|j: int|
                0 <= j < rs.len() && rs[j].identity == k && upserts(m, rs)[k] == rs[j];
            assert(rs[j].cycle == code);
        } else {
            lemma_upserts_untouched(m, rs, k);
            lemma_upserts_untouched(Map::empty(), rs, k);
            if m.dom().contains(k) {
                assert(upserts(m, rs)[k] == m[k] && m[k].cycle != code);
            }
        }
    }
    assert(m1 =~= m0);
}

/// A run that fails after some prefix of its upserts, and therefore never
/// sweeps, retains every pre-run row whose identity the prefix did not
/// touch, unchanged.
pub proof fn lemma_partial_run_retains(
    m: Map<Seq<char>, RecordModel>,
    rs: Seq<RecordModel>,
    j: int,
    k: Seq<char>,
)
    requires
        0 <= j <= rs.len(),
        !has_identity(rs.take(j), k),
        m.dom().contains(k),
    ensures
        upserts(m, rs.take(j)).dom().contains(k),
        upserts(m, rs.take(j))[k] == m[k],
{
    lemma_upserts_untouched(m, rs.take(j), k);
}

} // verus!
