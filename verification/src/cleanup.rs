//! The startup cleanup planner: sort the deletable loadouts by name and then
//! by age, walk adjacent pairs, and mark a loadout for deletion when its name
//! collides with the next one or it is flagged invalid. Run once per session,
//! before subscribing; an empty answer from the client means "not ready yet".

use vstd::prelude::*;
use crate::loadout::Loadout;
use crate::text::lex_lt;
use crate::text::str_eq;
use crate::text::str_lex_lt;

verus! {

/// Why no cleanup plan exists.
#[derive(Clone, Copy, Debug, PartialEq, Eq, Structural)]
pub enum CleanupError {
    /// The client reported no loadouts at all: not ready yet, retry later.
    NotReady,
}

/// Cleanup order: by name lexicographically, then by last-modified time.
pub open spec fn cleanup_le(a: Loadout, b: Loadout) -> bool {
    lex_lt(a.name@, b.name@) || (a.name@ == b.name@ && a.last_modified <= b.last_modified)
}

/// Decide `cleanup_le` in executable code.
pub fn cleanup_le_exec(a: &Loadout, b: &Loadout) -> (r: bool)
    ensures
        r == cleanup_le(*a, *b),
{
    if str_lex_lt(a.name.as_str(), b.name.as_str()) {
        true
    } else {
        str_eq(a.name.as_str(), b.name.as_str()) && a.last_modified <= b.last_modified
    }
}

/// The deletable part of the client's answer, in order.
pub open spec fn deletable_list(s: Seq<Loadout>) -> Seq<Loadout>
    decreases s.len(),
{
    if s.len() == 0 {
        Seq::empty()
    } else {
        deletable_list(s.drop_last()) + (if s.last().is_deletable {
            seq![s.last()]
        } else {
            Seq::empty()
        })
    }
}

/// Insert `x` into a list after every element that is `cleanup_le` it.
pub open spec fn insert_sorted(s: Seq<Loadout>, x: Loadout) -> Seq<Loadout>
    decreases s.len(),
{
    if s.len() == 0 {
        seq![x]
    } else if cleanup_le(s.last(), x) {
        s.push(x)
    } else {
        insert_sorted(s.drop_last(), x).push(s.last())
    }
}

/// Insertion sort by `cleanup_le`, stable by construction.
pub open spec fn sort_pages(s: Seq<Loadout>) -> Seq<Loadout>
    decreases s.len(),
{
    if s.len() == 0 {
        Seq::empty()
    } else {
        insert_sorted(sort_pages(s.drop_last()), s.last())
    }
}

/// A loadout is marked when its name collides with its successor's, or when
/// it is flagged invalid (the last one is never marked).
pub open spec fn mark_cond(a: Loadout, b: Loadout) -> bool {
    b.name@ == a.name@ || !a.is_valid
}

/// Ids of the marked loadouts of a sorted list, in order.
pub open spec fn doomed(s: Seq<Loadout>) -> Seq<u64>
    decreases s.len(),
{
    if s.len() <= 1 {
        Seq::empty()
    } else {
        doomed(s.drop_last()) + (if mark_cond(s[s.len() - 2], s[s.len() - 1]) {
            seq![s[s.len() - 2].id]
        } else {
            Seq::empty()
        })
    }
}

/// Inserting at the scanned position is what `insert_sorted` describes.
proof fn lemma_insert_at(s: Seq<Loadout>, x: Loadout, j: int)
    requires
        0 <= j <= s.len(),
        forall|m: int| j <= m < s.len() ==> !cleanup_le(#[trigger] s[m], x),
        j > 0 ==> cleanup_le(s[j - 1], x),
    ensures
        insert_sorted(s, x) == s.take(j) + seq![x] + s.skip(j),
    decreases s.len(),
{
    if j == s.len() {
        assert(insert_sorted(s, x) =~= s.take(j) + seq![x] + s.skip(j));
    } else {
        assert(!cleanup_le(s[s.len() - 1], x));
        lemma_insert_at(s.drop_last(), x, j);
        assert(insert_sorted(s, x) == insert_sorted(s.drop_last(), x).push(s.last()));
        assert(s.take(j) + seq![x] + s.skip(j) =~= (s.drop_last().take(j) + seq![x]
            + s.drop_last().skip(j)).push(s.last()));
    }
}

/// Plan the startup cleanup: the ids to delete, or "not ready" when the
/// client reported no loadouts at all.
#[verifier::loop_isolation(false)]
pub fn plan_cleanup(pages: Vec<Loadout>) -> (r: Result<Vec<u64>, CleanupError>)
    ensures
        r is Err <==> pages@.len() == 0,
        r is Ok ==> r->Ok_0@ == doomed(sort_pages(deletable_list(pages@))),
{
    if pages.len() == 0 {
        return Err(CleanupError::NotReady);
    }
    let ghost orig = pages@;
    let mut pages = pages;
    let mut sorted: Vec<Loadout> = Vec::new();
    while pages.len() > 0
        invariant
            orig.skip(orig.len() - pages@.len()) =~= pages@,
            pages@.len() <= orig.len(),
            sorted@ == sort_pages(deletable_list(orig.take(orig.len() - pages@.len()))),
        decreases pages@.len(),
    {
        let ghost k = orig.len() - pages@.len();
        let p = pages.remove(0);
        proof {
            assert(p == orig[k]);
            assert(orig.skip(orig.len() - pages@.len()) =~= pages@);
            assert(orig.take(k + 1).drop_last() =~= orig.take(k));
            assert(orig.take(k + 1).last() == orig[k]);
        }
        if p.is_deletable {
            proof {
                assert(deletable_list(orig.take(k + 1)) =~= deletable_list(orig.take(k)).push(p));
                assert(deletable_list(orig.take(k)).push(p).drop_last() =~= deletable_list(
                    orig.take(k),
                ));
            }
            // Scan from the end for the insertion position.
            let mut j: usize = sorted.len();
            while j > 0 && !cleanup_le_exec(&sorted[j - 1], &p)
                invariant
                    j <= sorted@.len(),
                    forall|m: int| j <= m < sorted@.len() ==> !cleanup_le(#[trigger] sorted@[m], p),
                decreases j,
            {
                j = j - 1;
            }
            proof {
                lemma_insert_at(sorted@, p, j as int);
            }
            sorted.insert(j, p);
            proof {
                assert(sorted@ =~= sort_pages(deletable_list(orig.take(k + 1))));
            }
        } else {
            proof {
                assert(deletable_list(orig.take(k + 1)) =~= deletable_list(orig.take(k)));
            }
        }
    }
    proof {
        assert(orig.take(orig.len() as int) =~= orig);
    }
    // Walk adjacent pairs of the sorted list.
    let mut out: Vec<u64> = Vec::new();
    if sorted.len() > 0 {
        let mut i: usize = 1;
        while i < sorted.len()
            invariant
                1 <= i <= sorted@.len(),
                out@ == doomed(sorted@.take(i as int)),
            decreases sorted@.len() - i,
        {
            let collide = str_eq(sorted[i].name.as_str(), sorted[i - 1].name.as_str());
            if collide || !sorted[i - 1].is_valid {
                out.push(sorted[i - 1].id);
            }
            proof {
                assert(sorted@.take(i as int + 1).drop_last() =~= sorted@.take(i as int));
                assert(out@ =~= doomed(sorted@.take(i as int + 1)));
            }
            i = i + 1;
        }
        proof {
            assert(sorted@.take(sorted@.len() as int) =~= sorted@);
        }
    }
    Ok(out)
}


/// Law: the cleanup order is total.
pub proof fn lemma_cleanup_le_total(a: Loadout, b: Loadout)
    ensures
        cleanup_le(a, b) || cleanup_le(b, a),
{
    crate::text::lemma_lex_total(a.name@, b.name@);
}

/// Law: the cleanup order is transitive.
pub proof fn lemma_cleanup_le_trans(a: Loadout, b: Loadout, c: Loadout)
    requires
        cleanup_le(a, b),
        cleanup_le(b, c),
    ensures
        cleanup_le(a, c),
{
    if lex_lt(a.name@, b.name@) && lex_lt(b.name@, c.name@) {
        crate::text::lemma_lex_trans(a.name@, b.name@, c.name@);
    }
}

/// The list is in cleanup order.
pub open spec fn pages_ordered(s: Seq<Loadout>) -> bool {
    forall|i: int, j: int| 0 <= i < j < s.len() ==> cleanup_le(#[trigger] s[i], #[trigger] s[j])
}

proof fn lemma_insert_sorted_elems(s: Seq<Loadout>, x: Loadout, i: int)
    requires
        0 <= i < insert_sorted(s, x).len(),
    ensures
        insert_sorted(s, x)[i] == x || exists|m: int|
            0 <= m < s.len() && insert_sorted(s, x)[i] == #[trigger] s[m],
    decreases s.len(),
{
    if s.len() == 0 {
    } else if cleanup_le(s.last(), x) {
        if i < s.len() {
            assert(insert_sorted(s, x)[i] == s[i]);
        }
    } else {
        if i == insert_sorted(s, x).len() - 1 {
            assert(insert_sorted(s, x)[i] == s[s.len() - 1]);
        } else {
            lemma_insert_sorted_elems(s.drop_last(), x, i);
            assert(insert_sorted(s, x)[i] == insert_sorted(s.drop_last(), x)[i]);
            if insert_sorted(s.drop_last(), x)[i] != x {
                let m = choose|m: int|
                    0 <= m < s.drop_last().len() && insert_sorted(s.drop_last(), x)[i]
                        == #[trigger] s.drop_last()[m];
                assert(insert_sorted(s, x)[i] == s[m]);
            }
        }
    }
}

proof fn lemma_insert_sorted_ordered(s: Seq<Loadout>, x: Loadout)
    requires
        pages_ordered(s),
    ensures
        pages_ordered(insert_sorted(s, x)),
        insert_sorted(s, x).to_multiset() == s.to_multiset().insert(x),
    decreases s.len(),
{
    s.to_multiset_ensures();
    if s.len() == 0 {
        assert(insert_sorted(s, x) =~= s.push(x));
        assert(s.push(x).to_multiset() =~= s.to_multiset().insert(x));
    } else if cleanup_le(s.last(), x) {
        assert(s.push(x).to_multiset() =~= s.to_multiset().insert(x));
        assert(insert_sorted(s, x) == s.push(x));
        assert forall|i: int, j: int|
            0 <= i < j < s.push(x).len() implies cleanup_le(
            #[trigger] s.push(x)[i],
            #[trigger] s.push(x)[j],
        ) by {
            if j == s.len() as int {
                assert(s.push(x)[i] == s[i]);
                if i < s.len() - 1 {
                    assert(cleanup_le(s[i], s[s.len() - 1]));
                    lemma_cleanup_le_trans(s[i], s[s.len() - 1], x);
                }
            } else {
                assert(s.push(x)[i] == s[i] && s.push(x)[j] == s[j]);
            }
        }
    } else {
        let d = s.drop_last();
        assert(pages_ordered(d)) by {
            assert(forall|i: int| 0 <= i < d.len() ==> #[trigger] d[i] == s[i]);
        }
        lemma_insert_sorted_ordered(d, x);
        lemma_cleanup_le_total(s.last(), x);
        assert(cleanup_le(x, s.last()));
        let ins = insert_sorted(d, x);
        ins.to_multiset_ensures();
        d.to_multiset_ensures();
        assert(insert_sorted(s, x) == ins.push(s.last()));
        assert(ins.push(s.last()).to_multiset() =~= ins.to_multiset().insert(s.last()));
        assert(d.push(s.last()) =~= s);
        assert(d.push(s.last()).to_multiset() =~= d.to_multiset().insert(s.last()));
        assert(s.to_multiset() == d.to_multiset().insert(s.last()));
        assert(ins.to_multiset().insert(s.last()) =~= d.to_multiset().insert(x).insert(s.last()));
        assert(d.to_multiset().insert(x).insert(s.last()) =~= d.to_multiset().insert(
            s.last(),
        ).insert(x));
        assert forall|i: int, j: int|
            0 <= i < j < ins.push(s.last()).len() implies cleanup_le(
            #[trigger] ins.push(s.last())[i],
            #[trigger] ins.push(s.last())[j],
        ) by {
            if j == ins.len() as int {
                lemma_insert_sorted_elems(d, x, i);
                assert(ins.push(s.last())[i] == ins[i]);
                if ins[i] == x {
                } else {
                    let m = choose|m: int| 0 <= m < d.len() && ins[i] == #[trigger] d[m];
                    assert(d[m] == s[m]);
                    assert(cleanup_le(s[m], s[s.len() - 1]));
                }
            } else {
                assert(ins.push(s.last())[i] == ins[i] && ins.push(s.last())[j] == ins[j]);
                assert(cleanup_le(ins[i], ins[j]));
            }
        }
    }
}

/// Law: the cleanup sort really orders the deletable loadouts by name and
/// then by age, and keeps exactly the loadouts it was given.
pub proof fn lemma_sort_pages_ordered(s: Seq<Loadout>)
    ensures
        pages_ordered(sort_pages(s)),
        sort_pages(s).to_multiset() == s.to_multiset(),
    decreases s.len(),
{
    if s.len() == 0 {
        assert(s =~= Seq::<Loadout>::empty());
        assert(sort_pages(s) == Seq::<Loadout>::empty());
    } else {
        lemma_sort_pages_ordered(s.drop_last());
        lemma_insert_sorted_ordered(sort_pages(s.drop_last()), s.last());
        s.drop_last().to_multiset_ensures();
        assert(s.drop_last().push(s.last()).to_multiset() =~= s.drop_last().to_multiset().insert(
            s.last(),
        ));
        assert(s.drop_last().push(s.last()) =~= s);
        assert(s.to_multiset() == s.drop_last().to_multiset().insert(s.last()));
    }
}

} // verus!
