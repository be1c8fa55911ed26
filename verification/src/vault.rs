use vstd::prelude::*;

verus! {

/// One decrypted vault record as the comparison engine receives it: the
/// three optional string fields it reads. A missing field is distinct from
/// an empty one at this boundary; both collapse to a fixed default as soon
/// as the entry is indexed.
pub struct VaultEntry {
    pub title: Option<String>,
    pub username: Option<String>,
    pub password: Option<String>,
}

/// One node of a decrypted vault tree: the entries it owns directly and its
/// child groups, in the tree's own order.
pub struct VaultGroup {
    pub entries: Vec<VaultEntry>,
    pub groups: Vec<VaultGroup>,
}

/// Mathematical model of an indexed entry after field defaulting: its
/// identity key and the two credential fields, each a plain character
/// sequence.
pub ghost struct SpecRecord {
    pub title: Seq<char>,
    pub username: Seq<char>,
    pub password: Seq<char>,
}

/// The identity key substituted for an absent or empty title.
pub open spec fn placeholder_title() -> Seq<char> {
    "(no title)"@
}

/// The identity key of an entry: its title, or the placeholder when the
/// title is absent or empty.
pub open spec fn entry_key(e: VaultEntry) -> Seq<char> {
    match e.title {
        Some(t) => if t@.len() == 0 {
            placeholder_title()
        } else {
            t@
        },
        None => placeholder_title(),
    }
}

/// An optional field collapsed to its comparison form: the empty sequence
/// when absent.
pub open spec fn field_or_empty(f: Option<String>) -> Seq<char> {
    match f {
        Some(s) => s@,
        None => Seq::empty(),
    }
}

/// The comparison-ready form of one entry.
pub open spec fn record_model(e: VaultEntry) -> SpecRecord {
    SpecRecord {
        title: entry_key(e),
        username: field_or_empty(e.username),
        password: field_or_empty(e.password),
    }
}

/// Every entry of a tree in traversal order: the group's direct entries
/// first, then those of each child group, depth-first, in child order.
pub open spec fn group_records(g: VaultGroup) -> Seq<SpecRecord>
    decreases g,
{
    g.entries@.map_values(|e: VaultEntry| record_model(e)) + forest_records(g.groups@)
}

/// Every entry of a sequence of sibling trees, in order.
pub open spec fn forest_records(gs: Seq<VaultGroup>) -> Seq<SpecRecord>
    decreases gs,
{
    if gs.len() == 0 {
        Seq::empty()
    } else {
        forest_records(gs.drop_last()) + group_records(gs.last())
    }
}

/// The recursive full-tree entry count: a group's direct entry count plus
/// the counts of all its descendant groups.
pub open spec fn group_entry_count(g: VaultGroup) -> nat
    decreases g,
{
    g.entries@.len() + forest_entry_count(g.groups@)
}

/// The summed entry count of a sequence of sibling trees.
pub open spec fn forest_entry_count(gs: Seq<VaultGroup>) -> nat
    decreases gs,
{
    if gs.len() == 0 {
        0
    } else {
        forest_entry_count(gs.drop_last()) + group_entry_count(gs.last())
    }
}

/// Count invariant: the recursive full-tree sum of direct entry counts
/// equals the number of entries the traversal visits, before any key
/// collapsing.
pub proof fn lemma_count_is_traversal_length(g: VaultGroup)
    ensures
        group_entry_count(g) == group_records(g).len(),
    decreases g,
{
    lemma_forest_count_is_traversal_length(g.groups@);
}

/// The forest form of the count invariant.
pub proof fn lemma_forest_count_is_traversal_length(gs: Seq<VaultGroup>)
    ensures
        forest_entry_count(gs) == forest_records(gs).len(),
    decreases gs,
{
    if gs.len() > 0 {
        lemma_forest_count_is_traversal_length(gs.drop_last());
        lemma_count_is_traversal_length(gs.last());
    }
}

/// A prefix of siblings never counts more entries than the whole sequence.
pub proof fn lemma_forest_count_prefix(gs: Seq<VaultGroup>, j: int)
    requires
        0 <= j <= gs.len(),
    ensures
        forest_entry_count(gs.take(j)) <= forest_entry_count(gs),
        j < gs.len() ==> forest_entry_count(gs.take(j + 1)) == forest_entry_count(gs.take(j))
            + group_entry_count(gs[j]),
    decreases gs.len() - j,
{
    if j < gs.len() {
        assert(gs.take(j + 1).drop_last() =~= gs.take(j));
        assert(gs.take(j + 1).last() == gs[j]);
        lemma_forest_count_prefix(gs, j + 1);
    } else {
        assert(gs.take(j) =~= gs);
    }
}

/// Total entries in a whole tree: the root's direct entries plus those of
/// every descendant group, each entry counted once, independent of any key
/// collision.
pub fn count_entries(root: &VaultGroup) -> (n: usize)
    requires
        group_entry_count(*root) <= usize::MAX,
    ensures
        n == group_entry_count(*root),
{
    count_group_entries(root)
}

/// Recursive worker for the full-tree entry count.
pub fn count_group_entries(group: &VaultGroup) -> (n: usize)
    requires
        group_entry_count(*group) <= usize::MAX,
    ensures
        n == group_entry_count(*group),
    decreases *group,
{
    let mut n: usize = group.entries.len();
    let mut j: usize = 0;
    proof {
        lemma_forest_count_prefix(group.groups@, 0);
        assert(group.groups@.take(0) =~= Seq::<VaultGroup>::empty());
    }
    while j < group.groups.len()
        invariant
            0 <= j <= group.groups@.len(),
            n == group.entries@.len() + forest_entry_count(group.groups@.take(j as int)),
            group_entry_count(*group) <= usize::MAX,
        decreases group.groups@.len() - j,
    {
        proof {
            lemma_forest_count_prefix(group.groups@, j as int);
            lemma_forest_count_prefix(group.groups@, j as int + 1);
        }
        let c = count_group_entries(&group.groups[j]);
        n = n + c;
        j = j + 1;
    }
    proof {
        assert(group.groups@.take(group.groups@.len() as int) =~= group.groups@);
    }
    n
}

} // verus!
