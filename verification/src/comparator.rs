use vstd::prelude::*;

use crate::indexer::{has_key, lookup, unique_keys, tree_index, EntryIndex, collect_all_entries};
use crate::vault::{SpecRecord, VaultGroup};

verus! {

/// How one identity key differs between the two vaults.
pub enum DifferenceKind {
    /// The key exists only in the first vault.
    OnlyInFirst,
    /// The key exists only in the second vault.
    OnlyInSecond,
    /// The key is matched but the usernames differ.
    UsernameDiffers { username1: String, username2: String },
    /// The key is matched, the usernames agree, but the passwords differ.
    /// No password value is carried: only the fact of the inequality.
    PasswordDiffers,
}

/// One reported difference: the key it concerns, the representative
/// username for display, and its classification.
pub struct Difference {
    pub title: String,
    pub username: String,
    pub kind: DifferenceKind,
}

/// Mathematical form of a difference classification.
pub ghost enum SpecDifferenceKind {
    OnlyInFirst,
    OnlyInSecond,
    UsernameDiffers { username1: Seq<char>, username2: Seq<char> },
    PasswordDiffers,
}

/// Mathematical form of a reported difference.
pub ghost struct SpecDifference {
    pub title: Seq<char>,
    pub username: Seq<char>,
    pub kind: SpecDifferenceKind,
}

impl View for DifferenceKind {
    type V = SpecDifferenceKind;

    open spec fn view(&self) -> SpecDifferenceKind {
        match self {
            DifferenceKind::OnlyInFirst => SpecDifferenceKind::OnlyInFirst,
            DifferenceKind::OnlyInSecond => SpecDifferenceKind::OnlyInSecond,
            DifferenceKind::UsernameDiffers { username1, username2 } => {
                SpecDifferenceKind::UsernameDiffers {
                    username1: username1@,
                    username2: username2@,
                }
            },
            DifferenceKind::PasswordDiffers => SpecDifferenceKind::PasswordDiffers,
        }
    }
}

impl View for Difference {
    type V = SpecDifference;

    open spec fn view(&self) -> SpecDifference {
        SpecDifference { title: self.title@, username: self.username@, kind: self.kind@ }
    }
}

/// The absence record for a key present only in the first index.
pub open spec fn only_in_first(r: SpecRecord) -> SpecDifference {
    SpecDifference { title: r.title, username: r.username, kind: SpecDifferenceKind::OnlyInFirst }
}

/// The absence record for a key present only in the second index.
pub open spec fn only_in_second(r: SpecRecord) -> SpecDifference {
    SpecDifference { title: r.title, username: r.username, kind: SpecDifferenceKind::OnlyInSecond }
}

/// The differences a matched pair of records contributes: a username
/// difference takes priority, then a password difference, else nothing.
/// At most one difference per matched key.
pub open spec fn matched_diffs(r1: SpecRecord, r2: SpecRecord) -> Seq<SpecDifference> {
    if r1.username != r2.username {
        seq![
            SpecDifference {
                title: r1.title,
                username: r1.username,
                kind: SpecDifferenceKind::UsernameDiffers {
                    username1: r1.username,
                    username2: r2.username,
                },
            },
        ]
    } else if r1.password != r2.password {
        seq![
            SpecDifference {
                title: r1.title,
                username: r1.username,
                kind: SpecDifferenceKind::PasswordDiffers,
            },
        ]
    } else {
        Seq::empty()
    }
}

/// What one record of the first index contributes, given the whole second
/// index.
pub open spec fn head_diffs(r: SpecRecord, b: Seq<SpecRecord>) -> Seq<SpecDifference> {
    if has_key(b, r.title) {
        matched_diffs(r, lookup(b, r.title))
    } else {
        seq![only_in_first(r)]
    }
}

/// Step one of the comparison: each record of the first index, in index
/// order, contributes its differences against the second index.
pub open spec fn first_pass(a: Seq<SpecRecord>, b: Seq<SpecRecord>) -> Seq<SpecDifference>
    decreases a.len(),
{
    if a.len() == 0 {
        Seq::empty()
    } else {
        first_pass(a.drop_last(), b) + head_diffs(a.last(), b)
    }
}

/// Step two of the comparison: each record of the second index whose key
/// the first index lacks contributes an absence record, in index order.
pub open spec fn second_pass(a: Seq<SpecRecord>, b: Seq<SpecRecord>) -> Seq<SpecDifference>
    decreases b.len(),
{
    if b.len() == 0 {
        Seq::empty()
    } else {
        second_pass(a, b.drop_last()) + (if has_key(a, b.last().title) {
            Seq::empty()
        } else {
            seq![only_in_second(b.last())]
        })
    }
}

/// The full comparison: step one's differences followed by step two's.
pub open spec fn compare_model(a: Seq<SpecRecord>, b: Seq<SpecRecord>) -> Seq<SpecDifference> {
    first_pass(a, b) + second_pass(a, b)
}

/// The view of a produced difference list.
pub open spec fn diffs_model(v: Seq<Difference>) -> Seq<SpecDifference> {
    v.map_values(|d: Difference| d@)
}

/// The differences two whole vault trees yield: each tree flattened to its
/// index, then the indexes compared.
pub open spec fn sync_model(t1: VaultGroup, t2: VaultGroup) -> Seq<SpecDifference> {
    compare_model(tree_index(t1), tree_index(t2))
}

/// Compare two indexes into the ordered difference list: first every
/// record of `first` against `second`, then every key of `second` that
/// `first` lacks.
pub fn compare(first: &EntryIndex, second: &EntryIndex) -> (out: Vec<Difference>)
    requires
        first.wf(),
        second.wf(),
    ensures
        diffs_model(out@) == compare_model(first@, second@),
{
    let mut out: Vec<Difference> = Vec::new();
    let ghost a = first@;
    let ghost b = second@;
    let mut i: usize = 0;
    proof {
        assert(diffs_model(out@) =~= Seq::<SpecDifference>::empty());
        assert(a.take(0) =~= Seq::<SpecRecord>::empty());
    }
    while i < first.len()
        invariant
            0 <= i <= a.len(),
            a == first@,
            b == second@,
            first.wf(),
            second.wf(),
            diffs_model(out@) == first_pass(a.take(i as int), b),
        decreases a.len() - i,
    {
        let ghost out_before = diffs_model(out@);
        let rec1 = first.record_at(i);
        match second.position_of(&rec1.title) {
            Some(j) => {
                proof {
                    crate::indexer::lemma_lookup_unique(b, rec1@.title, j as int);
                }
                let rec2 = second.record_at(j);
                if rec1.username != rec2.username {
                    out.push(
                        Difference {
                            title: rec1.title.clone(),
                            username: rec1.username.clone(),
                            kind: DifferenceKind::UsernameDiffers {
                                username1: rec1.username.clone(),
                                username2: rec2.username.clone(),
                            },
                        },
                    );
                } else if rec1.password != rec2.password {
                    out.push(
                        Difference {
                            title: rec1.title.clone(),
                            username: rec1.username.clone(),
                            kind: DifferenceKind::PasswordDiffers,
                        },
                    );
                }
            },
            None => {
                out.push(
                    Difference {
                        title: rec1.title.clone(),
                        username: rec1.username.clone(),
                        kind: DifferenceKind::OnlyInFirst,
                    },
                );
            },
        }
        proof {
            assert(a.take(i as int + 1).drop_last() =~= a.take(i as int));
            assert(a.take(i as int + 1).last() == a[i as int]);
            assert(diffs_model(out@) =~= out_before + head_diffs(a[i as int], b));
        }
        i = i + 1;
    }
    proof {
        assert(a.take(a.len() as int) =~= a);
    }
    let mut j: usize = 0;
    proof {
        assert(b.take(0) =~= Seq::<SpecRecord>::empty());
        assert(first_pass(a, b) + second_pass(a, b.take(0)) =~= first_pass(a, b));
    }
    while j < second.len()
        invariant
            0 <= j <= b.len(),
            a == first@,
            b == second@,
            first.wf(),
            second.wf(),
            diffs_model(out@) == first_pass(a, b) + second_pass(a, b.take(j as int)),
        decreases b.len() - j,
    {
        let ghost out_before = diffs_model(out@);
        let rec2 = second.record_at(j);
        match first.position_of(&rec2.title) {
            Some(_) => {
                proof {
                    assert(has_key(a, b[j as int].title));
                }
            },
            None => {
                out.push(
                    Difference {
                        title: rec2.title.clone(),
                        username: rec2.username.clone(),
                        kind: DifferenceKind::OnlyInSecond,
                    },
                );
            },
        }
        proof {
            assert(b.take(j as int + 1).drop_last() =~= b.take(j as int));
            assert(b.take(j as int + 1).last() == b[j as int]);
            if has_key(a, b[j as int].title) {
                assert(diffs_model(out@) =~= out_before);
            } else {
                assert(diffs_model(out@) =~= out_before + seq![only_in_second(b[j as int])]);
            }
            assert(out_before + (if has_key(a, b[j as int].title) {
                Seq::<SpecDifference>::empty()
            } else {
                seq![only_in_second(b[j as int])]
            }) =~= first_pass(a, b) + second_pass(a, b.take(j as int + 1)));
        }
        j = j + 1;
    }
    proof {
        assert(b.take(b.len() as int) =~= b);
    }
    out
}

/// The differences of a list that concern one key, in order.
pub open spec fn diffs_for_key(ds: Seq<SpecDifference>, k: Seq<char>) -> Seq<SpecDifference>
    decreases ds.len(),
{
    if ds.len() == 0 {
        Seq::empty()
    } else {
        diffs_for_key(ds.drop_last(), k) + (if ds.last().title == k {
            seq![ds.last()]
        } else {
            Seq::empty()
        })
    }
}

/// Selecting a key's differences distributes over concatenation.
pub proof fn lemma_diffs_for_key_append(d1: Seq<SpecDifference>, d2: Seq<SpecDifference>, k: Seq<
    char,
>)
    ensures
        diffs_for_key(d1 + d2, k) == diffs_for_key(d1, k) + diffs_for_key(d2, k),
    decreases d2.len(),
{
    if d2.len() == 0 {
        assert(d1 + d2 =~= d1);
        assert(diffs_for_key(d1, k) + diffs_for_key(d2, k) =~= diffs_for_key(d1, k));
    } else {
        assert((d1 + d2).drop_last() =~= d1 + d2.drop_last());
        assert((d1 + d2).last() == d2.last());
        lemma_diffs_for_key_append(d1, d2.drop_last(), k);
        assert((diffs_for_key(d1, k) + diffs_for_key(d2.drop_last(), k)) + (if d2.last().title
            == k {
            seq![d2.last()]
        } else {
            Seq::<SpecDifference>::empty()
        }) =~= diffs_for_key(d1, k) + diffs_for_key(d2, k));
    }
}

/// Selecting a key from a contribution whose entries all carry that key
/// keeps it whole; one whose entries all carry another key vanishes.
proof fn lemma_diffs_for_key_single(ds: Seq<SpecDifference>, k: Seq<char>)
    requires
        ds.len() <= 1,
    ensures
        ds.len() == 1 && ds[0].title == k ==> diffs_for_key(ds, k) == ds,
        ds.len() == 1 && ds[0].title != k ==> diffs_for_key(ds, k) == Seq::<SpecDifference>::empty(),
        ds.len() == 0 ==> diffs_for_key(ds, k) == Seq::<SpecDifference>::empty(),
{
    if ds.len() == 1 {
        assert(ds.last() == ds[0]);
        assert(ds.drop_last().len() == 0);
        assert(diffs_for_key(ds.drop_last(), k) == Seq::<SpecDifference>::empty());
        if ds[0].title == k {
            assert(diffs_for_key(ds, k) =~= ds);
        } else {
            assert(diffs_for_key(ds, k) =~= Seq::<SpecDifference>::empty());
        }
    }
}

/// Every difference a record contributes in step one carries that
/// record's key; step one therefore contributes for key `k` exactly what
/// the record with key `k` contributes, and nothing when no record has it.
proof fn lemma_first_pass_for_key(a: Seq<SpecRecord>, b: Seq<SpecRecord>, k: Seq<char>)
    requires
        unique_keys(a),
    ensures
        diffs_for_key(first_pass(a, b), k) == (if has_key(a, k) {
            head_diffs(lookup(a, k), b)
        } else {
            Seq::<SpecDifference>::empty()
        }),
    decreases a.len(),
{
    if a.len() == 0 {
    } else {
        let prev = a.drop_last();
        let r = a.last();
        assert(unique_keys(prev)) by {
            assert(forall|i: int, j: int|
                0 <= i < j < prev.len() ==> (#[trigger] prev[i]).title != (
                #[trigger] prev[j]).title);
        }
        lemma_first_pass_for_key(prev, b, k);
        lemma_diffs_for_key_append(first_pass(prev, b), head_diffs(r, b), k);
        assert(head_diffs(r, b).len() <= 1);
        assert(head_diffs(r, b).len() == 1 ==> head_diffs(r, b)[0].title == r.title);
        lemma_diffs_for_key_single(head_diffs(r, b), k);
        if r.title == k {
            crate::indexer::lemma_lookup_unique(a, k, a.len() - 1);
            assert(!has_key(prev, k)) by {
                if has_key(prev, k) {
                    let w = choose|w: int| 0 <= w < prev.len() && prev[w].title == k;
                    assert(a[w].title == a[a.len() - 1].title);
                }
            }
            assert(Seq::<SpecDifference>::empty() + diffs_for_key(head_diffs(r, b), k)
                =~= diffs_for_key(head_diffs(r, b), k));
        } else {
            if has_key(prev, k) {
                let w = choose|w: int| 0 <= w < prev.len() && prev[w].title == k;
                assert(a[w].title == k);
                crate::indexer::lemma_lookup_unique(a, k, w);
                crate::indexer::lemma_lookup_unique(prev, k, w);
            }
            if has_key(a, k) {
                let w = choose|w: int| 0 <= w < a.len() && a[w].title == k;
                assert(w < prev.len() && prev[w].title == k);
            }
            assert(diffs_for_key(first_pass(prev, b), k) + Seq::<SpecDifference>::empty()
                =~= diffs_for_key(first_pass(prev, b), k));
        }
    }
}

/// Step two contributes for key `k` exactly one absence record when the
/// second index has the key and the first lacks it, and nothing otherwise.
proof fn lemma_second_pass_for_key(a: Seq<SpecRecord>, b: Seq<SpecRecord>, k: Seq<char>)
    requires
        unique_keys(b),
    ensures
        diffs_for_key(second_pass(a, b), k) == (if has_key(b, k) && !has_key(a, k) {
            seq![only_in_second(lookup(b, k))]
        } else {
            Seq::<SpecDifference>::empty()
        }),
    decreases b.len(),
{
    if b.len() == 0 {
    } else {
        let prev = b.drop_last();
        let r = b.last();
        assert(unique_keys(prev)) by {
            assert(forall|i: int, j: int|
                0 <= i < j < prev.len() ==> (#[trigger] prev[i]).title != (
                #[trigger] prev[j]).title);
        }
        lemma_second_pass_for_key(a, prev, k);
        let head = if has_key(a, r.title) {
            Seq::<SpecDifference>::empty()
        } else {
            seq![only_in_second(r)]
        };
        lemma_diffs_for_key_append(second_pass(a, prev), head, k);
        lemma_diffs_for_key_single(head, k);
        if r.title == k {
            crate::indexer::lemma_lookup_unique(b, k, b.len() - 1);
            assert(!has_key(prev, k)) by {
                if has_key(prev, k) {
                    let w = choose|w: int| 0 <= w < prev.len() && prev[w].title == k;
                    assert(b[w].title == b[b.len() - 1].title);
                }
            }
            assert(Seq::<SpecDifference>::empty() + diffs_for_key(head, k) =~= diffs_for_key(
                head,
                k,
            ));
        } else {
            if has_key(prev, k) {
                let w = choose|w: int| 0 <= w < prev.len() && prev[w].title == k;
                assert(b[w].title == k);
                crate::indexer::lemma_lookup_unique(b, k, w);
                crate::indexer::lemma_lookup_unique(prev, k, w);
            }
            if has_key(b, k) {
                let w = choose|w: int| 0 <= w < b.len() && b[w].title == k;
                assert(w < prev.len() && prev[w].title == k);
            }
            assert(diffs_for_key(second_pass(a, prev), k) + Seq::<SpecDifference>::empty()
                =~= diffs_for_key(second_pass(a, prev), k));
        }
    }
}

/// Symmetry of absence: a key present in exactly one of the two indexes
/// yields exactly one difference, the absence record oriented to the side
/// that has it; no matched-key difference mentions the key.
pub proof fn lemma_absent_key(a: Seq<SpecRecord>, b: Seq<SpecRecord>, k: Seq<char>)
    requires
        unique_keys(a),
        unique_keys(b),
    ensures
        has_key(a, k) && !has_key(b, k) ==> diffs_for_key(compare_model(a, b), k) == seq![
            only_in_first(lookup(a, k)),
        ],
        has_key(b, k) && !has_key(a, k) ==> diffs_for_key(compare_model(a, b), k) == seq![
            only_in_second(lookup(b, k)),
        ],
{
    lemma_diffs_for_key_append(first_pass(a, b), second_pass(a, b), k);
    lemma_first_pass_for_key(a, b, k);
    lemma_second_pass_for_key(a, b, k);
    if has_key(a, k) && !has_key(b, k) {
        let w = choose|w: int| 0 <= w < a.len() && a[w].title == k;
        crate::indexer::lemma_lookup_unique(a, k, w);
        assert(seq![only_in_first(lookup(a, k))] + Seq::<SpecDifference>::empty() =~= seq![
            only_in_first(lookup(a, k)),
        ]);
    }
    if has_key(b, k) && !has_key(a, k) {
        assert(Seq::<SpecDifference>::empty() + seq![only_in_second(lookup(b, k))] =~= seq![
            only_in_second(lookup(b, k)),
        ]);
    }
}

/// The one difference a matched key contributes, by case: usernames
/// differing take priority and report the username divergence; equal
/// usernames with differing passwords report a password difference; full
/// agreement reports nothing.
pub proof fn lemma_matched_key(a: Seq<SpecRecord>, b: Seq<SpecRecord>, k: Seq<char>)
    requires
        unique_keys(a),
        unique_keys(b),
        has_key(a, k),
        has_key(b, k),
    ensures
        diffs_for_key(compare_model(a, b), k) == matched_diffs(lookup(a, k), lookup(b, k)),
{
    lemma_diffs_for_key_append(first_pass(a, b), second_pass(a, b), k);
    lemma_first_pass_for_key(a, b, k);
    lemma_second_pass_for_key(a, b, k);
    let w = choose|w: int| 0 <= w < a.len() && a[w].title == k;
    crate::indexer::lemma_lookup_unique(a, k, w);
    assert(matched_diffs(lookup(a, k), lookup(b, k)) + Seq::<SpecDifference>::empty()
        =~= matched_diffs(lookup(a, k), lookup(b, k)));
}

/// Priority law: for a matched key whose usernames differ, the sole
/// reported difference is the username divergence; no password difference
/// is emitted for that key even if the passwords differ too.
pub proof fn lemma_username_priority(a: Seq<SpecRecord>, b: Seq<SpecRecord>, k: Seq<char>)
    requires
        unique_keys(a),
        unique_keys(b),
        has_key(a, k),
        has_key(b, k),
        lookup(a, k).username != lookup(b, k).username,
    ensures
        diffs_for_key(compare_model(a, b), k) == seq![
            SpecDifference {
                title: k,
                username: lookup(a, k).username,
                kind: SpecDifferenceKind::UsernameDiffers {
                    username1: lookup(a, k).username,
                    username2: lookup(b, k).username,
                },
            },
        ],
{
    lemma_matched_key(a, b, k);
    let w = choose|w: int| 0 <= w < a.len() && a[w].title == k;
    crate::indexer::lemma_lookup_unique(a, k, w);
}

/// Equality law: a matched key with equal usernames and equal passwords
/// contributes no difference at all.
pub proof fn lemma_matched_equal_silent(a: Seq<SpecRecord>, b: Seq<SpecRecord>, k: Seq<char>)
    requires
        unique_keys(a),
        unique_keys(b),
        has_key(a, k),
        has_key(b, k),
        lookup(a, k).username == lookup(b, k).username,
        lookup(a, k).password == lookup(b, k).password,
    ensures
        diffs_for_key(compare_model(a, b), k) == Seq::<SpecDifference>::empty(),
{
    lemma_matched_key(a, b, k);
}

/// Idempotence: the comparison's output is a function of the two trees
/// alone, so comparing the same unchanged trees again yields identical
/// output.
pub proof fn lemma_compare_idempotent(
    t1: VaultGroup,
    t2: VaultGroup,
    out1: Seq<SpecDifference>,
    out2: Seq<SpecDifference>,
)
    requires
        out1 == sync_model(t1, t2),
        out2 == sync_model(t1, t2),
    ensures
        out1 == out2,
{
}

/// Compare two whole vault trees: flatten each into its index, then
/// compare the indexes.
pub fn compare_databases(root1: &VaultGroup, root2: &VaultGroup) -> (out: Vec<Difference>)
    ensures
        diffs_model(out@) == sync_model(*root1, *root2),
{
    let idx1 = collect_all_entries(root1);
    let idx2 = collect_all_entries(root2);
    compare(&idx1, &idx2)
}

} // verus!
