//! The champion id -> name table: built once at startup from a versioned
//! data source, immutable afterwards, threaded through the components by
//! reference. Keys are unique; lookups are by id.

use vstd::prelude::*;

verus! {

/// The name for an id: that of the first entry holding the id, if any.
pub open spec fn name_of(es: Seq<(u64, String)>, id: u64) -> Option<Seq<char>>
    decreases es.len(),
{
    if es.len() == 0 {
        None
    } else if es[0].0 == id {
        Some(es[0].1@)
    } else {
        name_of(es.drop_first(), id)
    }
}

/// No id appears twice.
pub open spec fn unique_ids(es: Seq<(u64, String)>) -> bool {
    forall|j: int, k: int| 0 <= j < k < es.len() ==> (#[trigger] es[j]).0 != (#[trigger] es[k]).0
}

/// The immutable id -> name lookup table.
pub struct ChampionTable {
    pub entries: Vec<(u64, String)>,
}

/// Searching from `idx` on equals searching the whole list when no earlier
/// entry holds the id.
proof fn lemma_name_of_skip(es: Seq<(u64, String)>, idx: int, id: u64)
    requires
        0 <= idx <= es.len(),
        forall|j: int| 0 <= j < idx ==> (#[trigger] es[j]).0 != id,
    ensures
        name_of(es, id) == name_of(es.skip(idx), id),
    decreases idx,
{
    if idx == 0 {
        assert(es.skip(0) =~= es);
    } else {
        assert(es[0].0 != id);
        assert(es.drop_first() =~= es.skip(1));
        assert(forall|j: int|
            0 <= j < idx - 1 ==> (#[trigger] es.skip(1)[j]) == es[j + 1] && es[j + 1].0 != id);
        lemma_name_of_skip(es.skip(1), idx - 1, id);
        assert(es.skip(1).skip(idx - 1) =~= es.skip(idx));
    }
}

impl ChampionTable {
    /// The table is well-formed: ids are unique.
    pub open spec fn wf(self) -> bool {
        unique_ids(self.entries@)
    }

    /// Build the table; refuse a list with a repeated id.
    #[verifier::loop_isolation(false)]
    pub fn new(entries: Vec<(u64, String)>) -> (r: Option<ChampionTable>)
        ensures
            r is Some <==> unique_ids(entries@),
            r is Some ==> r->0.wf() && r->0.entries@ == entries@,
    {
        let n = entries.len();
        let mut j: usize = 0;
        while j < n
            invariant
                n == entries@.len(),
                j <= n,
                forall|a: int, b: int|
                    0 <= a < b < n && a < j ==> (#[trigger] entries@[a]).0 != (
                    #[trigger] entries@[b]).0,
            decreases n - j,
        {
            let mut k: usize = j + 1;
            while k < n
                invariant
                    j < k <= n,
                    j < n,
                    forall|b: int| j < b < k ==> (#[trigger] entries@[b]).0 != entries@[j as int].0,
                decreases n - k,
            {
                if entries[k].0 == entries[j].0 {
                    return None;
                }
                k = k + 1;
            }
            j = j + 1;
        }
        Some(ChampionTable { entries })
    }

    /// Look an id up; the answer follows the first entry holding it.
    #[verifier::loop_isolation(false)]
    pub fn lookup(&self, id: u64) -> (r: Option<&String>)
        ensures
            r is Some <==> name_of(self.entries@, id) is Some,
            r is Some ==> r->0@ == name_of(self.entries@, id)->0,
    {
        let n = self.entries.len();
        let mut j: usize = 0;
        while j < n
            invariant
                n == self.entries@.len(),
                j <= n,
                forall|jj: int| 0 <= jj < j ==> (#[trigger] self.entries@[jj]).0 != id,
            decreases n - j,
        {
            if self.entries[j].0 == id {
                proof {
                    lemma_name_of_skip(self.entries@, j as int, id);
                }
                return Some(&self.entries[j].1);
            }
            j = j + 1;
        }
        proof {
            lemma_name_of_skip(self.entries@, n as int, id);
            assert(self.entries@.skip(n as int) =~= Seq::<(u64, String)>::empty());
        }
        None
    }
}

} // verus!
