use vstd::prelude::*;

use crate::vault::{
    forest_records, group_records, record_model, SpecRecord, VaultEntry, VaultGroup,
};

verus! {

/// One indexed entry: the identity key and the two credential fields, all
/// field defaulting already applied.
pub struct EntryRecord {
    pub title: String,
    pub username: String,
    pub password: String,
}

impl View for EntryRecord {
    type V = SpecRecord;

    open spec fn view(&self) -> SpecRecord {
        SpecRecord { title: self.title@, username: self.username@, password: self.password@ }
    }
}

/// A flat identity-keyed index of one vault tree. Records stand in the
/// order their keys were first encountered by the traversal; keys are
/// unique.
pub struct EntryIndex {
    pub records: Vec<EntryRecord>,
}

impl View for EntryIndex {
    type V = Seq<SpecRecord>;

    open spec fn view(&self) -> Seq<SpecRecord> {
        self.records@.map_values(|r: EntryRecord| r@)
    }
}

/// Whether some record of the index carries the given key.
pub open spec fn has_key(idx: Seq<SpecRecord>, k: Seq<char>) -> bool {
    exists|i: int| 0 <= i < idx.len() && idx[i].title == k
}

/// No two records of the index share a key.
pub open spec fn unique_keys(idx: Seq<SpecRecord>) -> bool {
    forall|i: int, j: int|
        0 <= i < j < idx.len() ==> (#[trigger] idx[i]).title != (#[trigger] idx[j]).title
}

/// The record of the index that carries the given key. Meaningful only
/// when the key is present and keys are unique.
pub open spec fn lookup(idx: Seq<SpecRecord>, k: Seq<char>) -> SpecRecord {
    idx[choose|i: int| 0 <= i < idx.len() && idx[i].title == k]
}

/// Inserting a record into an index: an existing record with the same key
/// is overwritten in place, otherwise the record is appended.
pub open spec fn upsert(idx: Seq<SpecRecord>, r: SpecRecord) -> Seq<SpecRecord> {
    if has_key(idx, r.title) {
        Seq::new(idx.len(), |i: int| if idx[i].title == r.title {
            r
        } else {
            idx[i]
        })
    } else {
        idx.push(r)
    }
}

/// The index that results from inserting each record of `rs`, in order,
/// into the starting index `idx`.
pub open spec fn index_fold(idx: Seq<SpecRecord>, rs: Seq<SpecRecord>) -> Seq<SpecRecord>
    decreases rs.len(),
{
    if rs.len() == 0 {
        idx
    } else {
        upsert(index_fold(idx, rs.drop_last()), rs.last())
    }
}

/// The index built from a traversal's record sequence, starting empty:
/// last write wins on every key collision.
pub open spec fn index_model(rs: Seq<SpecRecord>) -> Seq<SpecRecord> {
    index_fold(Seq::empty(), rs)
}

/// The index of a whole vault tree.
pub open spec fn tree_index(g: VaultGroup) -> Seq<SpecRecord> {
    index_model(group_records(g))
}

/// The position of the last record of `rs` that carries the given key.
pub open spec fn last_with_key(rs: Seq<SpecRecord>, k: Seq<char>) -> int
    decreases rs.len(),
{
    if rs.len() == 0 {
        -1
    } else if rs.last().title == k {
        rs.len() - 1
    } else {
        last_with_key(rs.drop_last(), k)
    }
}

/// Under unique keys, any record position carrying a key is the one
/// `lookup` denotes.
pub proof fn lemma_lookup_unique(idx: Seq<SpecRecord>, k: Seq<char>, i: int)
    requires
        unique_keys(idx),
        0 <= i < idx.len(),
        idx[i].title == k,
    ensures
        has_key(idx, k),
        lookup(idx, k) == idx[i],
{
    let w = choose|w: int| 0 <= w < idx.len() && idx[w].title == k;
    assert(0 <= w < idx.len() && idx[w].title == k);
    if w != i {
        if w < i {
            assert(idx[w].title != idx[i].title);
        } else {
            assert(idx[i].title != idx[w].title);
        }
    }
}

/// Inserting keeps keys unique, and the keys present afterwards are the
/// old keys plus the inserted one.
pub proof fn lemma_upsert_keys(idx: Seq<SpecRecord>, r: SpecRecord, k: Seq<char>)
    requires
        unique_keys(idx),
    ensures
        unique_keys(upsert(idx, r)),
        has_key(upsert(idx, r), k) <==> (has_key(idx, k) || k == r.title),
{
    let u = upsert(idx, r);
    if has_key(idx, r.title) {
        assert(forall|i: int| 0 <= i < u.len() ==> (#[trigger] u[i]).title == idx[i].title);
        if has_key(idx, k) {
            let w = choose|w: int| 0 <= w < idx.len() && idx[w].title == k;
            assert(u[w].title == k);
        }
        if has_key(u, k) {
            let w = choose|w: int| 0 <= w < u.len() && u[w].title == k;
            assert(idx[w].title == k);
        }
    } else {
        assert(forall|i: int| 0 <= i < idx.len() ==> (#[trigger] u[i]).title == idx[i].title);
        assert(u[idx.len() as int] == r);
        if has_key(idx, k) {
            let w = choose|w: int| 0 <= w < idx.len() && idx[w].title == k;
            assert(u[w].title == k);
        }
        if has_key(u, k) && k != r.title {
            let w = choose|w: int| 0 <= w < u.len() && u[w].title == k;
            assert(w < idx.len());
            assert(idx[w].title == k);
        }
    }
}

/// What `lookup` finds after an insertion: the inserted record under its
/// own key, the old record under any other key.
pub proof fn lemma_upsert_lookup(idx: Seq<SpecRecord>, r: SpecRecord, k: Seq<char>)
    requires
        unique_keys(idx),
    ensures
        k == r.title ==> lookup(upsert(idx, r), k) == r,
        k != r.title && has_key(idx, k) ==> lookup(upsert(idx, r), k) == lookup(idx, k),
{
    let u = upsert(idx, r);
    lemma_upsert_keys(idx, r, k);
    if k == r.title {
        if has_key(idx, r.title) {
            let w = choose|w: int| 0 <= w < idx.len() && idx[w].title == k;
            assert(u[w] == r);
            lemma_lookup_unique(u, k, w);
        } else {
            assert(u[idx.len() as int] == r);
            lemma_lookup_unique(u, k, idx.len() as int);
        }
    } else if has_key(idx, k) {
        let w = choose|w: int| 0 <= w < idx.len() && idx[w].title == k;
        lemma_lookup_unique(idx, k, w);
        if has_key(idx, r.title) {
            assert(u[w] == idx[w]);
        } else {
            assert(u[w] == idx[w]);
        }
        lemma_lookup_unique(u, k, w);
    }
}

/// A built index has unique keys, and holds exactly the keys that occur in
/// the traversal's record sequence.
pub proof fn lemma_index_model_keys(rs: Seq<SpecRecord>, k: Seq<char>)
    ensures
        unique_keys(index_model(rs)),
        has_key(index_model(rs), k) <==> (exists|i: int|
            0 <= i < rs.len() && (#[trigger] rs[i]).title == k),
    decreases rs.len(),
{
    if rs.len() == 0 {
    } else {
        let prev = index_model(rs.drop_last());
        lemma_index_model_keys(rs.drop_last(), k);
        lemma_upsert_keys(prev, rs.last(), k);
        if has_key(index_model(rs), k) {
            if has_key(prev, k) {
                let w = choose|i: int|
                    0 <= i < rs.drop_last().len() && (#[trigger] rs.drop_last()[i]).title == k;
                assert(rs[w].title == k);
            } else {
                assert(rs[rs.len() - 1].title == k);
            }
        }
        if exists|i: int| 0 <= i < rs.len() && (#[trigger] rs[i]).title == k {
            let w = choose|i: int| 0 <= i < rs.len() && (#[trigger] rs[i]).title == k;
            if w == rs.len() - 1 {
            } else {
                assert(rs.drop_last()[w].title == k);
            }
        }
    }
}

/// A whole tree's index always has unique keys, so the per-key comparison
/// laws apply to it.
pub proof fn lemma_tree_index_unique(g: VaultGroup)
    ensures
        unique_keys(tree_index(g)),
{
    lemma_index_model_keys(group_records(g), Seq::<char>::empty());
}

/// Collapse policy: when a traversal meets a key more than once, the built
/// index holds exactly one record for that key, and it is the record of
/// the last entry encountered with it.
pub proof fn lemma_collapse_last_wins(rs: Seq<SpecRecord>, k: Seq<char>)
    requires
        exists|i: int| 0 <= i < rs.len() && (#[trigger] rs[i]).title == k,
    ensures
        unique_keys(index_model(rs)),
        has_key(index_model(rs), k),
        0 <= last_with_key(rs, k) < rs.len(),
        rs[last_with_key(rs, k)].title == k,
        lookup(index_model(rs), k) == rs[last_with_key(rs, k)],
    decreases rs.len(),
{
    lemma_index_model_keys(rs, k);
    let prev = index_model(rs.drop_last());
    lemma_index_model_keys(rs.drop_last(), k);
    lemma_upsert_lookup(prev, rs.last(), k);
    if rs.last().title == k {
        assert(last_with_key(rs, k) == rs.len() - 1);
    } else {
        let w = choose|i: int| 0 <= i < rs.len() && (#[trigger] rs[i]).title == k;
        assert(rs.drop_last()[w].title == k);
        lemma_collapse_last_wins(rs.drop_last(), k);
        assert(rs.drop_last()[last_with_key(rs.drop_last(), k)] == rs[last_with_key(rs, k)]);
    }
}

impl EntryIndex {
    /// Keys are unique: the index's structural invariant.
    pub open spec fn wf(&self) -> bool {
        unique_keys(self@)
    }

    /// A fresh, empty index.
    pub fn new() -> (idx: EntryIndex)
        ensures
            idx@ =~= Seq::<SpecRecord>::empty(),
            idx.wf(),
    {
        EntryIndex { records: Vec::new() }
    }

    /// The number of records held.
    pub fn len(&self) -> (n: usize)
        ensures
            n == self@.len(),
    {
        self.records.len()
    }

    /// A borrowed record by position.
    pub fn record_at(&self, i: usize) -> (r: &EntryRecord)
        requires
            i < self@.len(),
        ensures
            r@ == self@[i as int],
    {
        &self.records[i]
    }

    /// The position of the record carrying the given key, if any.
    pub fn position_of(&self, key: &String) -> (r: Option<usize>)
        ensures
            match r {
                Some(j) => j < self@.len() && self@[j as int].title == key@,
                None => !has_key(self@, key@),
            },
    {
        let mut i: usize = 0;
        while i < self.records.len()
            invariant
                0 <= i <= self.records@.len(),
                forall|l: int| 0 <= l < i ==> (#[trigger] self@[l]).title != key@,
            decreases self.records@.len() - i,
        {
            if self.records[i].title == *key {
                return Some(i);
            }
            i = i + 1;
        }
        None
    }

    /// Insert one record: overwrite in place on a key collision, append
    /// otherwise.
    pub fn insert_record(&mut self, rec: EntryRecord)
        requires
            old(self).wf(),
        ensures
            final(self)@ == upsert(old(self)@, rec@),
            final(self).wf(),
    {
        let ghost old_view = self@;
        let pos = self.position_of(&rec.title);
        proof {
            lemma_upsert_keys(old_view, rec@, rec@.title);
        }
        match pos {
            Some(j) => {
                proof {
                    lemma_lookup_unique(old_view, rec@.title, j as int);
                    assert(has_key(old_view, rec@.title));
                }
                self.records[j] = rec;
                proof {
                    assert forall|i: int| 0 <= i < old_view.len() implies self@[i] == (
                    if old_view[i].title == rec@.title {
                        rec@
                    } else {
                        old_view[i]
                    }) by {
                        if i != j {
                            if i < j {
                                assert(old_view[i].title != old_view[j as int].title);
                            } else {
                                assert(old_view[j as int].title != old_view[i].title);
                            }
                        }
                    }
                    assert(self@ =~= upsert(old_view, rec@));
                }
            },
            None => {
                self.records.push(rec);
                proof {
                    assert(self@ =~= old_view.push(rec@));
                }
            },
        }
    }
}

/// The comparison-ready record of one entry: title defaulted to the
/// placeholder when absent or empty, username and password defaulted to
/// the empty string when absent.
pub fn make_record(e: &VaultEntry) -> (r: EntryRecord)
    ensures
        r@ == record_model(*e),
{
    let title = match &e.title {
        Some(t) => {
            if t.as_str().is_empty() {
                String::from_str("(no title)")
            } else {
                t.clone()
            }
        },
        None => String::from_str("(no title)"),
    };
    let username = match &e.username {
        Some(u) => u.clone(),
        None => String::new(),
    };
    let password = match &e.password {
        Some(p) => p.clone(),
        None => String::new(),
    };
    EntryRecord { title, username, password }
}

/// Folding a traversal's records over a starting index, one sequence after
/// the other, is folding their concatenation.
pub proof fn lemma_index_fold_append(idx: Seq<SpecRecord>, rs1: Seq<SpecRecord>, rs2: Seq<
    SpecRecord,
>)
    ensures
        index_fold(idx, rs1 + rs2) == index_fold(index_fold(idx, rs1), rs2),
    decreases rs2.len(),
{
    if rs2.len() == 0 {
        assert(rs1 + rs2 =~= rs1);
    } else {
        assert((rs1 + rs2).drop_last() =~= rs1 + rs2.drop_last());
        assert((rs1 + rs2).last() == rs2.last());
        lemma_index_fold_append(idx, rs1, rs2.drop_last());
    }
}

/// Recursive worker: insert every entry of a tree into the index, the
/// group's direct entries first, then each child group depth-first.
fn collect_group_into(group: &VaultGroup, idx: &mut EntryIndex)
    requires
        old(idx).wf(),
    ensures
        final(idx)@ == index_fold(old(idx)@, group_records(*group)),
        final(idx).wf(),
    decreases *group,
{
    let ghost start = idx@;
    let ghost entry_recs = group.entries@.map_values(|e: VaultEntry| record_model(e));
    let mut i: usize = 0;
    proof {
        assert(entry_recs.take(0) =~= Seq::<SpecRecord>::empty());
    }
    while i < group.entries.len()
        invariant
            0 <= i <= group.entries@.len(),
            entry_recs == group.entries@.map_values(|e: VaultEntry| record_model(e)),
            idx.wf(),
            idx@ == index_fold(start, entry_recs.take(i as int)),
        decreases group.entries@.len() - i,
    {
        let rec = make_record(&group.entries[i]);
        idx.insert_record(rec);
        proof {
            assert(entry_recs.take(i as int + 1).drop_last() =~= entry_recs.take(i as int));
            assert(entry_recs.take(i as int + 1).last() == entry_recs[i as int]);
        }
        i = i + 1;
    }
    proof {
        assert(entry_recs.take(group.entries@.len() as int) =~= entry_recs);
    }
    let mut j: usize = 0;
    proof {
        assert(forest_records(group.groups@.take(0)) =~= Seq::<SpecRecord>::empty());
        assert(entry_recs + forest_records(group.groups@.take(0)) =~= entry_recs);
    }
    while j < group.groups.len()
        invariant
            0 <= j <= group.groups@.len(),
            entry_recs == group.entries@.map_values(|e: VaultEntry| record_model(e)),
            idx.wf(),
            idx@ == index_fold(start, entry_recs + forest_records(group.groups@.take(j as int))),
        decreases group.groups@.len() - j,
    {
        let ghost before = idx@;
        collect_group_into(&group.groups[j], idx);
        proof {
            let gs = group.groups@;
            assert(gs.take(j as int + 1).drop_last() =~= gs.take(j as int));
            assert(gs.take(j as int + 1).last() == gs[j as int]);
            lemma_index_fold_append(
                start,
                entry_recs + forest_records(gs.take(j as int)),
                group_records(gs[j as int]),
            );
            assert((entry_recs + forest_records(gs.take(j as int))) + group_records(gs[j as int])
                =~= entry_recs + forest_records(gs.take(j as int + 1)));
        }
        j = j + 1;
    }
    proof {
        assert(group.groups@.take(group.groups@.len() as int) =~= group.groups@);
        assert(entry_recs + forest_records(group.groups@) =~= group_records(*group));
    }
}

/// Flatten a vault tree into its identity-keyed index: every entry at
/// every depth is visited once, in traversal order, and on a key collision
/// the later entry overwrites the earlier one.
pub fn collect_all_entries(group: &VaultGroup) -> (idx: EntryIndex)
    ensures
        idx@ == tree_index(*group),
        idx.wf(),
{
    let mut idx = EntryIndex::new();
    proof {
        assert(idx@ =~= Seq::<SpecRecord>::empty());
    }
    collect_group_into(group, &mut idx);
    idx
}

} // verus!
