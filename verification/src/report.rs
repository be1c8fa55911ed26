use vstd::prelude::*;

use crate::comparator::{compare_databases, diffs_model, sync_model, Difference};
use crate::vault::{count_entries, group_entry_count, VaultGroup};

verus! {

/// The reconciliation state the application shell drives: the ordered
/// difference list of the latest run and the full-tree entry count of
/// each vault, for summary display. Decryption, file choosing and
/// rendering stay with the shell; this type owns the structured outcome.
pub struct RustPassApp {
    pub differences: Vec<Difference>,
    pub entries1: usize,
    pub entries2: usize,
}

impl RustPassApp {
    /// A fresh state: no run has happened yet.
    pub fn new() -> (app: RustPassApp)
        ensures
            app.differences@ == Seq::<Difference>::empty(),
            app.entries1 == 0,
            app.entries2 == 0,
    {
        RustPassApp { differences: Vec::new(), entries1: 0, entries2: 0 }
    }

    /// Reconcile two decrypted vault trees: flatten each into its
    /// identity index, compare the indexes into the ordered difference
    /// list, and count each tree's entries in full.
    pub fn sync_databases(&mut self, root1: &VaultGroup, root2: &VaultGroup)
        requires
            group_entry_count(*root1) <= usize::MAX,
            group_entry_count(*root2) <= usize::MAX,
        ensures
            diffs_model(final(self).differences@) == sync_model(*root1, *root2),
            final(self).entries1 == group_entry_count(*root1),
            final(self).entries2 == group_entry_count(*root2),
    {
        self.differences = compare_databases(root1, root2);
        self.entries1 = count_entries(root1);
        self.entries2 = count_entries(root2);
    }
}

} // verus!
