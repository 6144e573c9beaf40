//! The provisioning engine: merge the cached candidate ahead of the
//! community candidates, normalize perk order, drop duplicate builds keeping
//! the first (highest-ranked) occurrence, truncate to the available slots,
//! and write lowest-ranked first so the highest-ranked loadout ends up the
//! live selection — with the reserved ability id swapped to the second
//! position before the live write.

use vstd::prelude::*;
use crate::loadout::Loadout;
use crate::loadout::community_name;
use crate::loadout::make_community_name;
use crate::loadout::make_saved_name;
use crate::loadout::perks_equal;
use crate::loadout::saved_name;
use crate::text::normalize_alpha;
use crate::text::normalized_alpha;
use crate::text::parse_i64;
use crate::text::parse_u64;
use crate::text::parsed_i64;
use crate::text::parsed_u64;
use crate::text::str_eq;

verus! {

/// A loadout candidate: what to write, the ability pair that goes with it,
/// and the ranking key it was sorted under.
#[derive(Debug)]
pub struct Candidate {
    pub loadout: Loadout,
    pub spells: (u64, u64),
    /// Order-preserving encoding of the provider's win-rate; zero for
    /// non-numeric win-rates and for cached candidates.
    pub win_key: u64,
}

/// A community build as the provider reports it, already reduced to plain
/// values: every id still a decimal string.
#[derive(Debug)]
pub struct RawBuild {
    pub name: String,
    pub win_key: u64,
    pub style: String,
    pub sub_style: String,
    pub perk_ids: Vec<String>,
    pub spells: Vec<String>,
}

/// Why community candidates could not be built.
#[derive(Clone, Copy, Debug, PartialEq, Eq, Structural)]
pub enum ProvisionError {
    /// A build's style ids or ability ids were missing or not numeric.
    BadBuild,
}

/// The reserved ability id that must not be applied in the first position.
pub open spec fn reserved_ability() -> u64 {
    4
}

/// The ability pair as it is applied live: a pair leading with the reserved
/// id is swapped; every other pair is unchanged.
pub open spec fn live_pair_spec(p: (u64, u64)) -> (u64, u64) {
    if p.0 == reserved_ability() {
        (p.1, reserved_ability())
    } else {
        p
    }
}

/// Compute the live-applied ability pair.
pub fn live_pair(p: (u64, u64)) -> (r: (u64, u64))
    ensures
        r == live_pair_spec(p),
{
    if p.0 == 4 {
        (p.1, 4)
    } else {
        p
    }
}

/// Law: a pair leading with the reserved id is applied swapped; a pair not
/// leading with it is applied unchanged.
pub proof fn lemma_live_pair_swaps_reserved(p: (u64, u64))
    ensures
        p.0 == reserved_ability() ==> live_pair_spec(p) == (p.1, reserved_ability()),
        p.0 != reserved_ability() ==> live_pair_spec(p) == p,
{
}

/// Two candidates are the same build: equal ability pair, styles, and
/// (already normalized) perk set.
pub open spec fn same_build(a: Candidate, b: Candidate) -> bool {
    &&& a.spells == b.spells
    &&& a.loadout.primary_style_id == b.loadout.primary_style_id
    &&& a.loadout.sub_style_id == b.loadout.sub_style_id
    &&& a.loadout.selected_perk_ids@ == b.loadout.selected_perk_ids@
}

/// Decide `same_build` in executable code.
pub fn same_build_exec(a: &Candidate, b: &Candidate) -> (r: bool)
    ensures
        r == same_build(*a, *b),
{
    a.spells.0 == b.spells.0 && a.spells.1 == b.spells.1 && a.loadout.primary_style_id
        == b.loadout.primary_style_id && a.loadout.sub_style_id == b.loadout.sub_style_id
        && perks_equal(&a.loadout.selected_perk_ids, &b.loadout.selected_perk_ids)
}

/// Insert a perk id into an ascending list, after every element at most it.
pub open spec fn perk_insert(s: Seq<i64>, x: i64) -> Seq<i64>
    decreases s.len(),
{
    if s.len() == 0 {
        seq![x]
    } else if s.last() <= x {
        s.push(x)
    } else {
        perk_insert(s.drop_last(), x).push(s.last())
    }
}

/// Ascending insertion sort of a perk list.
pub open spec fn perk_sort(s: Seq<i64>) -> Seq<i64>
    decreases s.len(),
{
    if s.len() == 0 {
        Seq::empty()
    } else {
        perk_insert(perk_sort(s.drop_last()), s.last())
    }
}

proof fn lemma_perk_insert_at(s: Seq<i64>, x: i64, j: int)
    requires
        0 <= j <= s.len(),
        forall|m: int| j <= m < s.len() ==> #[trigger] s[m] > x,
        j > 0 ==> s[j - 1] <= x,
    ensures
        perk_insert(s, x) == s.take(j) + seq![x] + s.skip(j),
    decreases s.len(),
{
    if j == s.len() {
        assert(perk_insert(s, x) =~= s.take(j) + seq![x] + s.skip(j));
    } else {
        assert(s[s.len() - 1] > x);
        lemma_perk_insert_at(s.drop_last(), x, j);
        assert(s.take(j) + seq![x] + s.skip(j) =~= (s.drop_last().take(j) + seq![x]
            + s.drop_last().skip(j)).push(s.last()));
    }
}

/// Sort a perk list ascending.
#[verifier::loop_isolation(false)]
pub fn sort_perks(v: &Vec<i64>) -> (r: Vec<i64>)
    ensures
        r@ == perk_sort(v@),
{
    let mut out: Vec<i64> = Vec::new();
    let mut i: usize = 0;
    while i < v.len()
        invariant
            i <= v@.len(),
            out@ == perk_sort(v@.take(i as int)),
        decreases v@.len() - i,
    {
        let x = v[i];
        proof {
            assert(v@.take(i + 1).drop_last() =~= v@.take(i as int));
        }
        let mut j: usize = out.len();
        while j > 0 && out[j - 1] > x
            invariant
                j <= out@.len(),
                forall|m: int| j <= m < out@.len() ==> #[trigger] out@[m] > x,
            decreases j,
        {
            j = j - 1;
        }
        proof {
            lemma_perk_insert_at(out@, x, j as int);
        }
        out.insert(j, x);
        proof {
            assert(out@ =~= perk_sort(v@.take(i + 1)));
        }
        i = i + 1;
    }
    proof {
        assert(v@.take(v@.len() as int) =~= v@);
    }
    out
}

/// The perk list is non-decreasing.
pub open spec fn perks_sorted(s: Seq<i64>) -> bool {
    forall|i: int, j: int| 0 <= i < j < s.len() ==> #[trigger] s[i] <= #[trigger] s[j]
}

proof fn lemma_perk_insert_sorted(s: Seq<i64>, x: i64)
    requires
        perks_sorted(s),
    ensures
        perks_sorted(perk_insert(s, x)),
        perk_insert(s, x).to_multiset() == s.to_multiset().insert(x),
    decreases s.len(),
{
    s.to_multiset_ensures();
    if s.len() == 0 {
        assert(perk_insert(s, x) =~= s.push(x));
        assert(s.push(x).to_multiset() =~= s.to_multiset().insert(x));
    } else if s.last() <= x {
        assert(perk_insert(s, x) == s.push(x));
        assert(s.push(x).to_multiset() =~= s.to_multiset().insert(x));
        assert forall|i: int, j: int|
            0 <= i < j < s.push(x).len() implies #[trigger] s.push(x)[i] <= #[trigger] s.push(
            x,
        )[j] by {
            if j == s.len() as int {
                if i < s.len() - 1 {
                    assert(s[i] <= s[s.len() - 1]);
                }
            }
        }
    } else {
        let d = s.drop_last();
        assert(perks_sorted(d)) by {
            assert(forall|i: int| 0 <= i < d.len() ==> #[trigger] d[i] == s[i]);
        }
        lemma_perk_insert_sorted(d, x);
        let ins = perk_insert(d, x);
        ins.to_multiset_ensures();
        d.to_multiset_ensures();
        assert(perk_insert(s, x) == ins.push(s.last()));
        assert(ins.push(s.last()).to_multiset() =~= ins.to_multiset().insert(s.last()));
        assert(d.push(s.last()) =~= s);
        assert(d.push(s.last()).to_multiset() =~= d.to_multiset().insert(s.last()));
        assert(ins.to_multiset().insert(s.last()) =~= d.to_multiset().insert(x).insert(s.last()));
        assert(d.to_multiset().insert(x).insert(s.last()) =~= d.to_multiset().insert(
            s.last(),
        ).insert(x));
        assert forall|i: int, j: int|
            0 <= i < j < ins.push(s.last()).len() implies #[trigger] ins.push(s.last())[i]
            <= #[trigger] ins.push(s.last())[j] by {
            if j == ins.len() as int {
                lemma_perk_insert_elems(d, x, i);
                if ins[i] == x {
                    assert(x < s.last());
                } else {
                    let m = choose|m: int| 0 <= m < d.len() && ins[i] == #[trigger] d[m];
                    assert(s[m] <= s[s.len() - 1]);
                }
            } else {
                assert(ins[i] <= ins[j]);
            }
        }
    }
}

proof fn lemma_perk_insert_elems(s: Seq<i64>, x: i64, i: int)
    requires
        0 <= i < perk_insert(s, x).len(),
    ensures
        perk_insert(s, x)[i] == x || exists|m: int|
            0 <= m < s.len() && perk_insert(s, x)[i] == #[trigger] s[m],
    decreases s.len(),
{
    if s.len() == 0 {
    } else if s.last() <= x {
        if i < s.len() {
            assert(perk_insert(s, x)[i] == s[i]);
        }
    } else {
        if i == perk_insert(s, x).len() - 1 {
            assert(perk_insert(s, x)[i] == s[s.len() - 1]);
        } else {
            lemma_perk_insert_elems(s.drop_last(), x, i);
            assert(perk_insert(s, x)[i] == perk_insert(s.drop_last(), x)[i]);
            if perk_insert(s.drop_last(), x)[i] != x {
                let m = choose|m: int|
                    0 <= m < s.drop_last().len() && perk_insert(s.drop_last(), x)[i]
                        == #[trigger] s.drop_last()[m];
                assert(perk_insert(s, x)[i] == s[m]);
            }
        }
    }
}

/// Law: the perk sort is ascending and keeps exactly the perks it was given.
pub proof fn lemma_perk_sort_sorted(s: Seq<i64>)
    ensures
        perks_sorted(perk_sort(s)),
        perk_sort(s).to_multiset() == s.to_multiset(),
    decreases s.len(),
{
    if s.len() == 0 {
        assert(s =~= Seq::<i64>::empty());
        assert(perk_sort(s) == Seq::<i64>::empty());
    } else {
        lemma_perk_sort_sorted(s.drop_last());
        lemma_perk_insert_sorted(perk_sort(s.drop_last()), s.last());
        s.drop_last().to_multiset_ensures();
        assert(s.drop_last().push(s.last()).to_multiset() =~= s.drop_last().to_multiset().insert(
            s.last(),
        ));
        assert(s.drop_last().push(s.last()) =~= s);
        assert(s.to_multiset() == s.drop_last().to_multiset().insert(s.last()));
    }
}

/// Two ascending lists with the same perks are the same list.
proof fn lemma_sorted_perks_unique(a: Seq<i64>, b: Seq<i64>)
    requires
        perks_sorted(a),
        perks_sorted(b),
        a.to_multiset() == b.to_multiset(),
    ensures
        a == b,
    decreases a.len(),
{
    a.to_multiset_ensures();
    b.to_multiset_ensures();
    if a.len() == 0 {
        assert(b.to_multiset().len() == 0);
        assert(a =~= b);
    } else {
        assert(b.len() == a.len());
        // The last elements agree: each list holds the other's last element,
        // and each last element bounds its own list from above.
        assert(a.to_multiset().count(a.last()) > 0);
        assert(b.contains(a.last()));
        let ia = choose|i: int| 0 <= i < b.len() && b[i] == a.last();
        assert(b[ia] <= b[b.len() - 1] || ia == b.len() - 1);
        assert(b.to_multiset().count(b.last()) > 0);
        assert(a.contains(b.last()));
        let ib = choose|i: int| 0 <= i < a.len() && a[i] == b.last();
        assert(a[ib] <= a[a.len() - 1] || ib == a.len() - 1);
        assert(a.last() == b.last());
        let da = a.drop_last();
        let db = b.drop_last();
        assert(da =~= a.remove(a.len() - 1));
        assert(db =~= b.remove(b.len() - 1));
        assert(a.remove(a.len() - 1).to_multiset() =~= a.to_multiset().remove(a.last()));
        assert(b.remove(b.len() - 1).to_multiset() =~= b.to_multiset().remove(b.last()));
        assert(da.to_multiset() == db.to_multiset());
        assert(perks_sorted(da)) by {
            assert(forall|i: int| 0 <= i < da.len() ==> #[trigger] da[i] == a[i]);
        }
        assert(perks_sorted(db)) by {
            assert(forall|i: int| 0 <= i < db.len() ==> #[trigger] db[i] == b[i]);
        }
        lemma_sorted_perks_unique(da, db);
        assert forall|i: int| 0 <= i < a.len() implies a[i] == b[i] by {
            if i < a.len() - 1 {
                assert(a[i] == da[i]);
                assert(b[i] == db[i]);
            }
        }
        assert(a =~= b);
    }
}

/// Law: normalization cancels perk order — two perk lists holding the same
/// perks, in any orders, normalize to the same list, so build equality does
/// not depend on the order perks came in.
pub proof fn lemma_perk_sort_canonical(a: Seq<i64>, b: Seq<i64>)
    requires
        a.to_multiset() == b.to_multiset(),
    ensures
        perk_sort(a) == perk_sort(b),
{
    lemma_perk_sort_sorted(a);
    lemma_perk_sort_sorted(b);
    lemma_sorted_perks_unique(perk_sort(a), perk_sort(b));
}

/// Insert a candidate into a descending-by-rank list, after every candidate
/// ranked at least as high: the stable position.
pub open spec fn rank_insert(s: Seq<Candidate>, c: Candidate) -> Seq<Candidate>
    decreases s.len(),
{
    if s.len() == 0 {
        seq![c]
    } else if s.last().win_key >= c.win_key {
        s.push(c)
    } else {
        rank_insert(s.drop_last(), c).push(s.last())
    }
}

/// Stable insertion sort, descending by rank key.
pub open spec fn rank_sort(s: Seq<Candidate>) -> Seq<Candidate>
    decreases s.len(),
{
    if s.len() == 0 {
        Seq::empty()
    } else {
        rank_insert(rank_sort(s.drop_last()), s.last())
    }
}

proof fn lemma_rank_insert_at(s: Seq<Candidate>, c: Candidate, j: int)
    requires
        0 <= j <= s.len(),
        forall|m: int| j <= m < s.len() ==> (#[trigger] s[m]).win_key < c.win_key,
        j > 0 ==> s[j - 1].win_key >= c.win_key,
    ensures
        rank_insert(s, c) == s.take(j) + seq![c] + s.skip(j),
    decreases s.len(),
{
    if j == s.len() {
        assert(rank_insert(s, c) =~= s.take(j) + seq![c] + s.skip(j));
    } else {
        assert(s[s.len() - 1].win_key < c.win_key);
        lemma_rank_insert_at(s.drop_last(), c, j);
        assert(s.take(j) + seq![c] + s.skip(j) =~= (s.drop_last().take(j) + seq![c]
            + s.drop_last().skip(j)).push(s.last()));
    }
}

/// Sort community candidates descending by rank key, stably.
#[verifier::loop_isolation(false)]
pub fn rank_community(cands: Vec<Candidate>) -> (r: Vec<Candidate>)
    ensures
        r@ == rank_sort(cands@),
{
    let ghost orig = cands@;
    let mut cands = cands;
    let mut out: Vec<Candidate> = Vec::new();
    while cands.len() > 0
        invariant
            orig.skip(orig.len() - cands@.len()) =~= cands@,
            cands@.len() <= orig.len(),
            out@ == rank_sort(orig.take(orig.len() - cands@.len())),
        decreases cands@.len(),
    {
        let ghost k = orig.len() - cands@.len();
        let c = cands.remove(0);
        proof {
            assert(c == orig[k]);
            assert(orig.skip(orig.len() - cands@.len()) =~= cands@);
            assert(orig.take(k + 1).drop_last() =~= orig.take(k));
        }
        let key = c.win_key;
        let mut j: usize = out.len();
        while j > 0 && out[j - 1].win_key < key
            invariant
                j <= out@.len(),
                forall|m: int| j <= m < out@.len() ==> (#[trigger] out@[m]).win_key < key,
            decreases j,
        {
            j = j - 1;
        }
        proof {
            lemma_rank_insert_at(out@, c, j as int);
        }
        out.insert(j, c);
        proof {
            assert(out@ =~= rank_sort(orig.take(k + 1)));
        }
    }
    proof {
        assert(orig.take(orig.len() as int) =~= orig);
    }
    out
}

/// Law: the rank sort orders its result by non-increasing rank key and keeps
/// exactly the candidates it was given.
pub proof fn lemma_rank_sort_sorted(s: Seq<Candidate>)
    ensures
        forall|i: int, j: int|
            0 <= i < j < rank_sort(s).len() ==> (#[trigger] rank_sort(s)[i]).win_key >= (
            #[trigger] rank_sort(s)[j]).win_key,
        rank_sort(s).to_multiset() == s.to_multiset(),
    decreases s.len(),
{
    if s.len() == 0 {
        assert(s =~= Seq::<Candidate>::empty());
        assert(rank_sort(s) == Seq::<Candidate>::empty());
    } else {
        lemma_rank_sort_sorted(s.drop_last());
        lemma_rank_insert_sorted(rank_sort(s.drop_last()), s.last());
        s.drop_last().to_multiset_ensures();
        assert(s.drop_last().push(s.last()).to_multiset() =~= s.drop_last().to_multiset().insert(
            s.last(),
        ));
        assert(s.drop_last().push(s.last()) =~= s);
        assert(s.to_multiset() == s.drop_last().to_multiset().insert(s.last()));
    }
}

proof fn lemma_rank_insert_sorted(s: Seq<Candidate>, c: Candidate)
    requires
        forall|i: int, j: int|
            0 <= i < j < s.len() ==> (#[trigger] s[i]).win_key >= (#[trigger] s[j]).win_key,
    ensures
        forall|i: int, j: int|
            0 <= i < j < rank_insert(s, c).len() ==> (#[trigger] rank_insert(s, c)[i]).win_key >= (
            #[trigger] rank_insert(s, c)[j]).win_key,
        rank_insert(s, c).to_multiset() == s.to_multiset().insert(c),
    decreases s.len(),
{
    s.to_multiset_ensures();
    if s.len() == 0 {
        assert(rank_insert(s, c) =~= s.push(c));
        assert(s.push(c).to_multiset() =~= s.to_multiset().insert(c));
    } else if s.last().win_key >= c.win_key {
        assert(rank_insert(s, c) == s.push(c));
        assert(s.push(c).to_multiset() =~= s.to_multiset().insert(c));
        assert(forall|i: int| 0 <= i < s.len() ==> (#[trigger] s.push(c)[i]) == s[i]);
        assert forall|i: int, j: int|
            0 <= i < j < s.push(c).len() implies (#[trigger] s.push(c)[i]).win_key >= (
        #[trigger] s.push(c)[j]).win_key by {
            if j == s.len() as int {
                if i < s.len() - 1 {
                    assert(s[i].win_key >= s[s.len() - 1].win_key);
                }
            }
        }
    } else {
        let d = s.drop_last();
        assert(forall|i: int, j: int|
            0 <= i < j < d.len() ==> (#[trigger] d[i]).win_key >= (#[trigger] d[j]).win_key)
            by {
            assert(forall|i: int| 0 <= i < d.len() ==> (#[trigger] d[i]) == s[i]);
        }
        lemma_rank_insert_sorted(d, c);
        let ins = rank_insert(d, c);
        ins.to_multiset_ensures();
        d.to_multiset_ensures();
        assert(rank_insert(s, c) == ins.push(s.last()));
        assert(ins.push(s.last()).to_multiset() =~= ins.to_multiset().insert(s.last()));
        assert(d.push(s.last()) =~= s);
        assert(d.push(s.last()).to_multiset() =~= d.to_multiset().insert(s.last()));
        assert(s.to_multiset() == d.to_multiset().insert(s.last()));
        assert(ins.to_multiset().insert(s.last()) =~= d.to_multiset().insert(c).insert(s.last()));
        assert(d.to_multiset().insert(c).insert(s.last()) =~= d.to_multiset().insert(
            s.last(),
        ).insert(c));
        // order: every element of ins has win_key > last's? No: elements of ins
        // are d's elements and c; all d elements >= ... last of s is < c, and
        // d's elements are >= s.last()? d sorted desc with last removed;
        // s sorted desc means d[i] >= s.last() for all i.
        assert forall|i: int, j: int|
            0 <= i < j < ins.push(s.last()).len() implies (#[trigger] ins.push(
            s.last(),
        )[i]).win_key >= (#[trigger] ins.push(s.last())[j]).win_key by {
            if j == ins.len() as int {
                lemma_rank_insert_elems(d, c, i);
                if ins[i] == c {
                    assert(c.win_key > s.last().win_key);
                } else {
                    assert(exists|m: int| 0 <= m < d.len() && ins[i] == #[trigger] d[m]);
                    let m = choose|m: int| 0 <= m < d.len() && ins[i] == #[trigger] d[m];
                    assert(s[m].win_key >= s[s.len() - 1].win_key);
                }
            } else {
                assert(ins[i].win_key >= ins[j].win_key);
            }
        }
    }
}

proof fn lemma_rank_insert_elems(s: Seq<Candidate>, c: Candidate, i: int)
    requires
        0 <= i < rank_insert(s, c).len(),
    ensures
        rank_insert(s, c)[i] == c || exists|m: int|
            0 <= m < s.len() && rank_insert(s, c)[i] == #[trigger] s[m],
    decreases s.len(),
{
    if s.len() == 0 {
    } else if s.last().win_key >= c.win_key {
        if i < s.len() {
            assert(rank_insert(s, c)[i] == s[i]);
        }
    } else {
        if i == rank_insert(s, c).len() - 1 {
            assert(rank_insert(s, c)[i] == s[s.len() - 1]);
        } else {
            lemma_rank_insert_elems(s.drop_last(), c, i);
            assert(rank_insert(s, c)[i] == rank_insert(s.drop_last(), c)[i]);
            if rank_insert(s.drop_last(), c)[i] != c {
                let m = choose|m: int|
                    0 <= m < s.drop_last().len() && rank_insert(s.drop_last(), c)[i] == #[trigger] s.drop_last()[m];
                assert(rank_insert(s, c)[i] == s[m]);
            }
        }
    }
}


/// The perk ids a list of decimal strings denotes, unparseable entries
/// dropped.
pub open spec fn parsed_perks(ss: Seq<String>) -> Seq<i64>
    decreases ss.len(),
{
    if ss.len() == 0 {
        Seq::empty()
    } else {
        parsed_perks(ss.drop_last()) + (match parsed_i64(ss.last()@) {
            Some(v) => seq![v as i64],
            None => Seq::empty(),
        })
    }
}

/// A provider build that can become a candidate: numeric styles and at least
/// two numeric ability ids.
pub open spec fn raw_ok(b: RawBuild) -> bool {
    &&& parsed_i64(b.style@) is Some
    &&& parsed_i64(b.sub_style@) is Some
    &&& b.spells@.len() >= 2
    &&& parsed_u64(b.spells@[0]@) is Some
    &&& parsed_u64(b.spells@[1]@) is Some
}

/// The candidate a provider build becomes: a fresh, default loadout carrying
/// the tagged name, the parsed styles and perks, and the build's ability
/// pair and rank key.
pub open spec fn candidate_matches(c: Candidate, b: RawBuild) -> bool {
    &&& c.loadout.name@ == community_name(b.name@)
    &&& c.loadout.primary_style_id as int == parsed_i64(b.style@)->0
    &&& c.loadout.sub_style_id as int == parsed_i64(b.sub_style@)->0
    &&& c.loadout.selected_perk_ids@ == parsed_perks(b.perk_ids@)
    &&& c.spells.0 as int == parsed_u64(b.spells@[0]@)->0
    &&& c.spells.1 as int == parsed_u64(b.spells@[1]@)->0
    &&& c.win_key == b.win_key
    &&& !c.loadout.current
    &&& c.loadout.id == 0
    &&& !c.loadout.is_active
    &&& !c.loadout.is_deletable
    &&& !c.loadout.is_editable
    &&& !c.loadout.is_valid
    &&& c.loadout.last_modified == 0
    &&& c.loadout.order == 0
}

/// Turn the provider's builds into candidates: each build must carry numeric
/// style and ability ids; unparseable perk ids are merely dropped.
#[verifier::loop_isolation(false)]
pub fn community_candidates(builds: Vec<RawBuild>) -> (r: Result<Vec<Candidate>, ProvisionError>)
    ensures
        r is Ok <==> (forall|k: int| 0 <= k < builds@.len() ==> raw_ok(#[trigger] builds@[k])),
        r is Ok ==> r->Ok_0@.len() == builds@.len() && (forall|k: int|
            0 <= k < builds@.len() ==> candidate_matches(
                #[trigger] r->Ok_0@[k],
                builds@[k],
            )),
{
    let ghost orig = builds@;
    let mut builds = builds;
    let mut out: Vec<Candidate> = Vec::new();
    while builds.len() > 0
        invariant
            orig.skip(orig.len() - builds@.len()) =~= builds@,
            builds@.len() <= orig.len(),
            out@.len() == orig.len() - builds@.len(),
            forall|k: int| 0 <= k < out@.len() ==> raw_ok(#[trigger] orig[k]),
            forall|k: int|
                0 <= k < out@.len() ==> candidate_matches(#[trigger] out@[k], orig[k]),
        decreases builds@.len(),
    {
        let ghost k = orig.len() - builds@.len();
        let b = builds.remove(0);
        proof {
            assert(b == orig[k]);
            assert(orig.skip(orig.len() - builds@.len()) =~= builds@);
        }
        let primary = match parse_i64(b.style.as_str()) {
            Some(v) => v,
            None => {
                return Err(ProvisionError::BadBuild);
            },
        };
        let sub = match parse_i64(b.sub_style.as_str()) {
            Some(v) => v,
            None => {
                return Err(ProvisionError::BadBuild);
            },
        };
        if b.spells.len() < 2 {
            return Err(ProvisionError::BadBuild);
        }
        let spell1 = match parse_u64(b.spells[0].as_str()) {
            Some(v) => v,
            None => {
                return Err(ProvisionError::BadBuild);
            },
        };
        let spell2 = match parse_u64(b.spells[1].as_str()) {
            Some(v) => v,
            None => {
                return Err(ProvisionError::BadBuild);
            },
        };
        let mut perks: Vec<i64> = Vec::new();
        let mut m: usize = 0;
        while m < b.perk_ids.len()
            invariant
                m <= b.perk_ids@.len(),
                perks@ == parsed_perks(b.perk_ids@.take(m as int)),
            decreases b.perk_ids@.len() - m,
        {
            proof {
                assert(b.perk_ids@.take(m + 1).drop_last() =~= b.perk_ids@.take(m as int));
                assert(b.perk_ids@.take(m + 1).last() == b.perk_ids@[m as int]);
            }
            match parse_i64(b.perk_ids[m].as_str()) {
                Some(v) => {
                    perks.push(v);
                    proof {
                        assert(perks@ =~= parsed_perks(b.perk_ids@.take(m + 1)));
                    }
                },
                None => {
                    proof {
                        assert(perks@ =~= parsed_perks(b.perk_ids@.take(m + 1)));
                    }
                },
            }
            m = m + 1;
        }
        proof {
            assert(b.perk_ids@.take(b.perk_ids@.len() as int) =~= b.perk_ids@);
        }
        let name = make_community_name(b.name.as_str());
        let loadout = Loadout {
            current: false,
            id: 0,
            is_active: false,
            is_deletable: false,
            is_editable: false,
            is_valid: false,
            last_modified: 0,
            name,
            order: 0,
            primary_style_id: primary,
            selected_perk_ids: perks,
            sub_style_id: sub,
        };
        out.push(Candidate { loadout, spells: (spell1, spell2), win_key: b.win_key });
    }
    proof {
        assert(out@.len() == orig.len());
    }
    Ok(out)
}

/// Wrap a loadout restored from the personal store as the cached candidate:
/// it gets the tagged saved name and the stored ability pair, and ranks
/// ahead of the community by position rather than by key.
pub fn cached_candidate(page: Loadout, champ_name: &str, spells: (u64, u64)) -> (c: Candidate)
    ensures
        c.loadout.name@ == saved_name(champ_name@),
        c.loadout.current == page.current,
        c.loadout.id == page.id,
        c.loadout.is_active == page.is_active,
        c.loadout.is_deletable == page.is_deletable,
        c.loadout.is_editable == page.is_editable,
        c.loadout.is_valid == page.is_valid,
        c.loadout.last_modified == page.last_modified,
        c.loadout.order == page.order,
        c.loadout.primary_style_id == page.primary_style_id,
        c.loadout.selected_perk_ids == page.selected_perk_ids,
        c.loadout.sub_style_id == page.sub_style_id,
        c.spells == spells,
        c.win_key == 0,
{
    let Loadout {
        current,
        id,
        is_active,
        is_deletable,
        is_editable,
        is_valid,
        last_modified,
        name: _,
        order,
        primary_style_id,
        selected_perk_ids,
        sub_style_id,
    } = page;
    let name = make_saved_name(champ_name);
    let loadout = Loadout {
        current,
        id,
        is_active,
        is_deletable,
        is_editable,
        is_valid,
        last_modified,
        name,
        order,
        primary_style_id,
        selected_perk_ids,
        sub_style_id,
    };
    Candidate { loadout, spells, win_key: 0 }
}

/// The merge order: the cached candidate, if any, ahead of the community.
pub open spec fn merged(cached: Option<Candidate>, community: Seq<Candidate>) -> Seq<Candidate> {
    (match cached {
        Some(c) => seq![c],
        None => Seq::empty(),
    }) + community
}

/// `b` is `a` with its perk list sorted ascending and all else unchanged.
pub open spec fn norm_rel(a: Candidate, b: Candidate) -> bool {
    &&& b.loadout.current == a.loadout.current
    &&& b.loadout.id == a.loadout.id
    &&& b.loadout.is_active == a.loadout.is_active
    &&& b.loadout.is_deletable == a.loadout.is_deletable
    &&& b.loadout.is_editable == a.loadout.is_editable
    &&& b.loadout.is_valid == a.loadout.is_valid
    &&& b.loadout.last_modified == a.loadout.last_modified
    &&& b.loadout.name == a.loadout.name
    &&& b.loadout.order == a.loadout.order
    &&& b.loadout.primary_style_id == a.loadout.primary_style_id
    &&& b.loadout.selected_perk_ids@ == perk_sort(a.loadout.selected_perk_ids@)
    &&& b.loadout.sub_style_id == a.loadout.sub_style_id
    &&& b.spells == a.spells
    &&& b.win_key == a.win_key
}

/// `normed` is `orig` with every candidate's perk list normalized.
pub open spec fn normed_seq(orig: Seq<Candidate>, normed: Seq<Candidate>) -> bool {
    normed.len() == orig.len() && (forall|k: int|
        0 <= k < orig.len() ==> norm_rel(#[trigger] orig[k], normed[k]))
}

/// There is an earlier candidate of the same build as the last one.
pub open spec fn dup_last(s: Seq<Candidate>) -> bool {
    exists|j: int| 0 <= j < s.len() - 1 && same_build(#[trigger] s[j], s.last())
}

/// Keep the first occurrence of every build, preserving order.
pub open spec fn dedup_keyed(s: Seq<Candidate>) -> Seq<Candidate>
    decreases s.len(),
{
    if s.len() == 0 {
        Seq::empty()
    } else {
        dedup_keyed(s.drop_last()) + (if dup_last(s) {
            Seq::empty()
        } else {
            seq![s.last()]
        })
    }
}

/// Nothing earlier in `s` is the same build as `s[j]`.
pub open spec fn is_first_occ(s: Seq<Candidate>, j: int) -> bool {
    0 <= j < s.len() && (forall|jj: int| 0 <= jj < j ==> !same_build(#[trigger] s[jj], s[j]))
}

/// Some candidate of build `x` appears in `s` before position `n`.
pub open spec fn build_before(s: Seq<Candidate>, n: int, x: Candidate) -> bool {
    exists|j: int| 0 <= j < n && same_build(#[trigger] s[j], x)
}

/// A build occurs somewhere in a list.
pub open spec fn build_in(s: Seq<Candidate>, x: Candidate) -> bool {
    exists|m: int| 0 <= m < s.len() && same_build(#[trigger] s[m], x)
}

/// Dedup keeps a build if and only if the input holds it.
proof fn lemma_dedup_covers(s: Seq<Candidate>, x: Candidate)
    ensures
        build_in(s, x) <==> build_in(dedup_keyed(s), x),
    decreases s.len(),
{
    if s.len() > 0 {
        lemma_dedup_covers(s.drop_last(), x);
        let d = dedup_keyed(s.drop_last());
        if dup_last(s) {
            assert(dedup_keyed(s) == d);
            if build_in(s, x) {
                let j = choose|j: int| 0 <= j < s.len() && same_build(#[trigger] s[j], x);
                if j == s.len() - 1 {
                    let j2 = choose|j2: int|
                        0 <= j2 < s.len() - 1 && same_build(#[trigger] s[j2], s.last());
                    assert(same_build(s.drop_last()[j2], x));
                    assert(build_in(s.drop_last(), x));
                } else {
                    assert(same_build(s.drop_last()[j], x));
                    assert(build_in(s.drop_last(), x));
                }
            }
            if build_in(s.drop_last(), x) {
                let j = choose|j: int|
                    0 <= j < s.drop_last().len() && same_build(#[trigger] s.drop_last()[j], x);
                assert(same_build(s[j], x));
            }
        } else {
            assert(dedup_keyed(s) == d.push(s.last()));
            if build_in(s, x) {
                let j = choose|j: int| 0 <= j < s.len() && same_build(#[trigger] s[j], x);
                if j == s.len() - 1 {
                    assert(same_build(dedup_keyed(s)[dedup_keyed(s).len() - 1], x));
                    assert(build_in(dedup_keyed(s), x));
                } else {
                    assert(same_build(s.drop_last()[j], x));
                    assert(build_in(s.drop_last(), x));
                    let m = choose|m: int|
                        0 <= m < d.len() && same_build(#[trigger] d[m], x);
                    assert(same_build(dedup_keyed(s)[m], x));
                }
            }
            if build_in(dedup_keyed(s), x) {
                let m = choose|m: int|
                    0 <= m < dedup_keyed(s).len() && same_build(#[trigger] dedup_keyed(s)[m], x);
                if m == dedup_keyed(s).len() - 1 {
                    assert(same_build(s.last(), x));
                    assert(same_build(s[s.len() - 1], x));
                } else {
                    assert(same_build(d[m], x));
                    assert(build_in(d, x));
                    let j = choose|j: int|
                        0 <= j < s.drop_last().len() && same_build(#[trigger] s.drop_last()[j], x);
                    assert(same_build(s[j], x));
                }
            }
        }
    }
}

/// Law: dedup keeps, for each build, exactly the earliest candidate of that
/// build, in order: every kept candidate is an earliest occurrence, every
/// earliest occurrence is kept, and no two kept candidates share a build.
pub proof fn lemma_dedup_keeps_earliest(s: Seq<Candidate>)
    ensures
        forall|m: int|
            0 <= m < dedup_keyed(s).len() ==> exists|j: int|
                is_first_occ(s, j) && #[trigger] dedup_keyed(s)[m] == s[j],
        forall|j: int| #[trigger] is_first_occ(s, j) ==> dedup_keyed(s).contains(s[j]),
        forall|m1: int, m2: int|
            0 <= m1 < m2 < dedup_keyed(s).len() ==> !same_build(
                #[trigger] dedup_keyed(s)[m1],
                #[trigger] dedup_keyed(s)[m2],
            ),
    decreases s.len(),
{
    if s.len() > 0 {
        lemma_dedup_keeps_earliest(s.drop_last());
        let dl = s.drop_last();
        let d = dedup_keyed(dl);
        assert forall|j: int| 0 <= j < dl.len() && is_first_occ(dl, j) implies is_first_occ(
            s,
            j,
        ) by {
            assert(forall|jj: int| 0 <= jj < j ==> dl[jj] == s[jj]);
        }
        assert forall|j: int| 0 <= j < dl.len() && is_first_occ(s, j) implies is_first_occ(
            dl,
            j,
        ) by {
            assert(forall|jj: int| 0 <= jj < j ==> dl[jj] == s[jj]);
        }
        if dup_last(s) {
            assert(dedup_keyed(s) == d);
            assert forall|j: int| #[trigger] is_first_occ(s, j) implies dedup_keyed(s).contains(
                s[j],
            ) by {
                if j == s.len() - 1 {
                    let j2 = choose|j2: int|
                        0 <= j2 < s.len() - 1 && same_build(#[trigger] s[j2], s.last());
                    assert(!same_build(s[j2], s[j]));
                    assert(false);
                } else {
                    assert(d.contains(dl[j]));
                    let m = choose|m: int| 0 <= m < d.len() && d[m] == dl[j];
                    assert(dedup_keyed(s)[m] == s[j]);
                }
            }
        } else {
            assert(dedup_keyed(s) == d.push(s.last()));
            assert(is_first_occ(s, s.len() - 1)) by {
                assert forall|jj: int| 0 <= jj < s.len() - 1 implies !same_build(
                    #[trigger] s[jj],
                    s[s.len() - 1],
                ) by {
                    if same_build(s[jj], s.last()) {
                        assert(dup_last(s));
                    }
                }
            }
            assert forall|m: int| 0 <= m < dedup_keyed(s).len() implies exists|j: int|
                is_first_occ(s, j) && #[trigger] dedup_keyed(s)[m] == s[j] by {
                if m == d.len() as int {
                    assert(is_first_occ(s, s.len() - 1) && dedup_keyed(s)[m] == s[s.len() - 1]);
                } else {
                    assert(dedup_keyed(s)[m] == d[m]);
                    let j = choose|j: int| is_first_occ(dl, j) && #[trigger] d[m] == dl[j];
                    assert(is_first_occ(s, j) && dedup_keyed(s)[m] == s[j]);
                }
            }
            assert forall|j: int| #[trigger] is_first_occ(s, j) implies dedup_keyed(s).contains(
                s[j],
            ) by {
                if j == s.len() - 1 {
                    assert(dedup_keyed(s)[d.len() as int] == s[j]);
                } else {
                    assert(d.contains(dl[j]));
                    let m = choose|m: int| 0 <= m < d.len() && d[m] == dl[j];
                    assert(dedup_keyed(s)[m] == s[j]);
                }
            }
            assert forall|m1: int, m2: int|
                0 <= m1 < m2 < dedup_keyed(s).len() implies !same_build(
                #[trigger] dedup_keyed(s)[m1],
                #[trigger] dedup_keyed(s)[m2],
            ) by {
                if m2 == d.len() as int {
                    let j = choose|j: int| is_first_occ(dl, j) && #[trigger] d[m1] == dl[j];
                    if same_build(d[m1], s.last()) {
                        assert(same_build(s[j], s.last()));
                        assert(dup_last(s));
                        assert(false);
                    }
                } else {
                    assert(!same_build(d[m1], d[m2]));
                }
            }
        }
    }
}

/// Law: dedup never drops the leading candidate, so the cached candidate,
/// which is merged first, always survives in first position.
pub proof fn lemma_dedup_keeps_first(s: Seq<Candidate>)
    requires
        s.len() > 0,
    ensures
        dedup_keyed(s).len() > 0,
        dedup_keyed(s)[0] == s[0],
    decreases s.len(),
{
    if s.len() == 1 {
        assert(!dup_last(s));
        assert(dedup_keyed(s) == dedup_keyed(s.drop_last()) + seq![s.last()]);
        assert(dedup_keyed(s.drop_last()) =~= Seq::<Candidate>::empty());
        assert(dedup_keyed(s)[0] == s[0]);
    } else {
        lemma_dedup_keeps_first(s.drop_last());
        assert(s.drop_last()[0] == s[0]);
        if dup_last(s) {
            assert(dedup_keyed(s) == dedup_keyed(s.drop_last()));
        } else {
            assert(dedup_keyed(s)[0] == dedup_keyed(s.drop_last())[0]);
        }
    }
}

/// The survivors truncated to the available slots.
pub open spec fn truncated(s: Seq<Candidate>, n: int) -> Seq<Candidate> {
    if s.len() <= n {
        s
    } else {
        s.take(n)
    }
}

/// What provisioning decided: the loadouts to write, lowest-ranked first,
/// and the ability pair to apply live alongside the last (highest-ranked)
/// write.
#[derive(Debug)]
pub struct ProvisionPlan {
    pub writes: Vec<Candidate>,
    pub live_spells: Option<(u64, u64)>,
}

/// The writes are the normalized merge, deduplicated keeping first
/// occurrences, truncated to the available slots, in reverse rank order.
pub open spec fn planned_writes(
    cached: Option<Candidate>,
    community: Seq<Candidate>,
    available: int,
    writes: Seq<Candidate>,
) -> bool {
    exists|normed: Seq<Candidate>|
        #[trigger] normed_seq(merged(cached, community), normed) && writes == truncated(
            dedup_keyed(normed),
            available,
        ).reverse()
}

/// Plan one provisioning pass over merged, ranked candidates.
#[verifier::loop_isolation(false)]
pub fn plan_provisioning(cached: Option<Candidate>, community: Vec<Candidate>, available: usize) -> (plan:
    ProvisionPlan)
    ensures
        planned_writes(cached, community@, available as int, plan.writes@),
        plan.writes@.len() <= available,
        plan.live_spells == (if plan.writes@.len() > 0 {
            Some(live_pair_spec(plan.writes@.last().spells))
        } else {
            None::<(u64, u64)>
        }),
{
    let ghost comm0 = community@;
    let mut all: Vec<Candidate> = Vec::new();
    match cached {
        Some(c) => all.push(c),
        None => {},
    }
    let mut community = community;
    all.append(&mut community);
    proof {
        assert(all@ =~= merged(cached, comm0));
    }
    let ghost orig_all = all@;
    // Normalize every candidate's perk order.
    let mut normed: Vec<Candidate> = Vec::new();
    while all.len() > 0
        invariant
            orig_all.skip(orig_all.len() - all@.len()) =~= all@,
            all@.len() <= orig_all.len(),
            normed@.len() == orig_all.len() - all@.len(),
            forall|k: int|
                0 <= k < normed@.len() ==> norm_rel(#[trigger] orig_all[k], normed@[k]),
        decreases all@.len(),
    {
        let ghost k = orig_all.len() - all@.len();
        let c = all.remove(0);
        proof {
            assert(c == orig_all[k]);
            assert(orig_all.skip(orig_all.len() - all@.len()) =~= all@);
        }
        let Candidate { loadout, spells, win_key } = c;
        let Loadout {
            current,
            id,
            is_active,
            is_deletable,
            is_editable,
            is_valid,
            last_modified,
            name,
            order,
            primary_style_id,
            selected_perk_ids,
            sub_style_id,
        } = loadout;
        let sorted = sort_perks(&selected_perk_ids);
        let newl = Loadout {
            current,
            id,
            is_active,
            is_deletable,
            is_editable,
            is_valid,
            last_modified,
            name,
            order,
            primary_style_id,
            selected_perk_ids: sorted,
            sub_style_id,
        };
        normed.push(Candidate { loadout: newl, spells, win_key });
    }
    let ghost nv = normed@;
    proof {
        assert(normed_seq(orig_all, nv));
    }
    // Drop duplicate builds, keeping the first occurrence.
    let mut deduped: Vec<Candidate> = Vec::new();
    while normed.len() > 0
        invariant
            nv.skip(nv.len() - normed@.len()) =~= normed@,
            normed@.len() <= nv.len(),
            deduped@ == dedup_keyed(nv.take(nv.len() - normed@.len())),
        decreases normed@.len(),
    {
        let ghost k = nv.len() - normed@.len();
        let c = normed.remove(0);
        proof {
            assert(c == nv[k]);
            assert(nv.skip(nv.len() - normed@.len()) =~= normed@);
            assert(nv.take(k + 1).drop_last() =~= nv.take(k));
            assert(nv.take(k + 1).last() == nv[k]);
        }
        let mut dup = false;
        let mut m: usize = 0;
        while m < deduped.len()
            invariant
                m <= deduped@.len(),
                dup ==> build_in(deduped@, c),
                !dup ==> forall|mm: int|
                    0 <= mm < m ==> !same_build(#[trigger] deduped@[mm], c),
            decreases deduped@.len() - m,
        {
            if !dup && same_build_exec(&deduped[m], &c) {
                dup = true;
            }
            m = m + 1;
        }
        proof {
            lemma_dedup_covers(nv.take(k), c);
            if dup {
                assert(build_in(deduped@, c));
                assert(build_in(nv.take(k), c));
                let j = choose|j: int|
                    0 <= j < nv.take(k).len() && same_build(#[trigger] nv.take(k)[j], c);
                assert(same_build(nv.take(k + 1)[j], nv.take(k + 1).last()));
                assert(dup_last(nv.take(k + 1)));
            } else {
                assert(!build_in(deduped@, c)) by {
                    if build_in(deduped@, c) {
                        let mm = choose|mm: int|
                            0 <= mm < deduped@.len() && same_build(#[trigger] deduped@[mm], c);
                    }
                }
                assert(!build_in(nv.take(k), c));
                assert(!dup_last(nv.take(k + 1))) by {
                    if dup_last(nv.take(k + 1)) {
                        let j = choose|j: int|
                            0 <= j < nv.take(k + 1).len() - 1 && same_build(
                                #[trigger] nv.take(k + 1)[j],
                                nv.take(k + 1).last(),
                            );
                        assert(same_build(nv.take(k)[j], c));
                        assert(build_in(nv.take(k), c));
                    }
                }
            }
        }
        if !dup {
            deduped.push(c);
            proof {
                assert(deduped@ =~= dedup_keyed(nv.take(k + 1)));
            }
        } else {
            proof {
                assert(deduped@ =~= dedup_keyed(nv.take(k + 1)));
            }
        }
    }
    proof {
        assert(nv.take(nv.len() as int) =~= nv);
    }
    // Truncate to the available slots, dropping the lowest-ranked overflow.
    if deduped.len() > available {
        deduped.truncate(available);
    }
    proof {
        assert(deduped@ =~= truncated(dedup_keyed(nv), available as int));
    }
    let ghost trunc = deduped@;
    // Reverse, so the highest-ranked candidate is written last.
    let mut writes: Vec<Candidate> = Vec::new();
    while deduped.len() > 0
        invariant
            deduped@ =~= trunc.take(deduped@.len() as int),
            writes@.len() == trunc.len() - deduped@.len(),
            forall|w: int|
                0 <= w < writes@.len() ==> writes@[w] == trunc[trunc.len() - 1 - w],
        decreases deduped@.len(),
    {
        let ghost dlen = deduped@.len();
        match deduped.pop() {
            Some(c) => {
                proof {
                    assert(c == trunc.take(dlen as int).last());
                    assert(trunc.take(dlen as int).drop_last() =~= trunc.take(dlen - 1));
                }
                writes.push(c);
            },
            None => {},
        }
    }
    proof {
        assert(writes@ =~= trunc.reverse());
        assert(planned_writes(cached, comm0, available as int, writes@)) by {
            assert(normed_seq(merged(cached, comm0), nv) && writes@ == truncated(
                dedup_keyed(nv),
                available as int,
            ).reverse());
        }
    }
    let live = if writes.len() > 0 {
        Some(live_pair(writes[writes.len() - 1].spells))
    } else {
        None
    };
    ProvisionPlan { writes, live_spells: live }
}

/// Law: with at least one slot available, the loadout written last — the one
/// left active in the client — is the top-ranked survivor.
pub proof fn lemma_active_is_top_survivor(s: Seq<Candidate>, n: int)
    requires
        n >= 1,
        s.len() > 0,
    ensures
        truncated(s, n).reverse().len() > 0,
        truncated(s, n).reverse().last() == s[0],
{
    let t = truncated(s, n);
    assert(t.len() > 0);
    assert(t[0] == s[0]);
    assert(t.reverse().last() == t[0]);
}

/// Law: when a cached candidate is present, it survives the merge and dedup
/// in first position, so with at least one slot it is the loadout left
/// active — a cached candidate always outranks any community candidate.
pub proof fn lemma_cached_candidate_wins(
    c: Candidate,
    community: Seq<Candidate>,
    normed: Seq<Candidate>,
    n: int,
)
    requires
        normed_seq(merged(Some(c), community), normed),
        n >= 1,
    ensures
        truncated(dedup_keyed(normed), n).reverse().len() > 0,
        norm_rel(c, truncated(dedup_keyed(normed), n).reverse().last()),
{
    assert(merged(Some(c), community)[0] == c);
    assert(norm_rel(c, normed[0]));
    lemma_dedup_keeps_first(normed);
    lemma_active_is_top_survivor(dedup_keyed(normed), n);
}


/// Law: truncation provisions exactly `min(N, K)` candidates, and they are
/// the leading — highest-ranked — `K` survivors, in order.
pub proof fn lemma_truncate_takes_top(s: Seq<Candidate>, n: int)
    requires
        n >= 0,
    ensures
        truncated(s, n).len() == if s.len() <= n {
            s.len() as int
        } else {
            n
        },
        forall|i: int| 0 <= i < truncated(s, n).len() ==> truncated(s, n)[i] == s[i],
{
}

/// The normal form of a champion name for the provider's index: lowercase
/// letters only, one long name truncated to its four-letter form.
pub open spec fn query_name(s: Seq<char>) -> Seq<char> {
    let n = normalized_alpha(s);
    if n == "nunuwillump"@ {
        n.take(4)
    } else {
        n
    }
}

/// Compute the provider-index normal form of a champion name.
pub fn champion_query_name(name: &str) -> (r: String)
    ensures
        r@ == query_name(name@),
{
    let n = normalize_alpha(name);
    if str_eq(n.as_str(), "nunuwillump") {
        proof {
            reveal_strlit("nunuwillump");
        }
        n.as_str().substring_char(0, 4).to_owned()
    } else {
        n
    }
}

} // verus!
