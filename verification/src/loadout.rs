//! The loadout record: a named bundle of perk selections plus style ids, as
//! the client stores it, with the naming rules that mark loadouts this system
//! owns.

use vstd::prelude::*;
use crate::text::has_sub;
use crate::text::match_at;
use crate::text::str_contains;
use crate::text::str_eq;

verus! {

/// A perk loadout as the local service reports and accepts it.
#[derive(Debug)]
pub struct Loadout {
    pub current: bool,
    pub id: u64,
    pub is_active: bool,
    pub is_deletable: bool,
    pub is_editable: bool,
    pub is_valid: bool,
    pub last_modified: u64,
    pub name: String,
    pub order: u32,
    pub primary_style_id: i64,
    pub selected_perk_ids: Vec<i64>,
    pub sub_style_id: i64,
}

impl Loadout {
    /// An empty, all-default loadout, ready to be filled in.
    pub fn blank() -> (r: Loadout)
        ensures
            !r.current,
            r.id == 0,
            !r.is_active,
            !r.is_deletable,
            !r.is_editable,
            !r.is_valid,
            r.last_modified == 0,
            r.name@ == Seq::<char>::empty(),
            r.order == 0,
            r.primary_style_id == 0,
            r.selected_perk_ids@ == Seq::<i64>::empty(),
            r.sub_style_id == 0,
    {
        Loadout {
            current: false,
            id: 0,
            is_active: false,
            is_deletable: false,
            is_editable: false,
            is_valid: false,
            last_modified: 0,
            name: String::new(),
            order: 0,
            primary_style_id: 0,
            selected_perk_ids: Vec::new(),
            sub_style_id: 0,
        }
    }
}

/// Loadouts are equal when every stored field agrees, the name and the perk
/// list compared by content.
pub open spec fn loadout_eq(a: Loadout, b: Loadout) -> bool {
    &&& a.current == b.current
    &&& a.id == b.id
    &&& a.is_active == b.is_active
    &&& a.is_deletable == b.is_deletable
    &&& a.is_editable == b.is_editable
    &&& a.is_valid == b.is_valid
    &&& a.last_modified == b.last_modified
    &&& a.name@ == b.name@
    &&& a.order == b.order
    &&& a.primary_style_id == b.primary_style_id
    &&& a.selected_perk_ids@ == b.selected_perk_ids@
    &&& a.sub_style_id == b.sub_style_id
}

/// Element-wise equality of two perk lists.
pub fn perks_equal(a: &Vec<i64>, b: &Vec<i64>) -> (r: bool)
    ensures
        r == (a@ == b@),
{
    if a.len() != b.len() {
        assert(a@ != b@);
        return false;
    }
    let mut i: usize = 0;
    while i < a.len()
        invariant
            a@.len() == b@.len(),
            i <= a@.len(),
            forall|k: int| 0 <= k < i ==> a@[k] == b@[k],
        decreases a@.len() - i,
    {
        if a[i] != b[i] {
            return false;
        }
        i = i + 1;
    }
    proof {
        assert(a@ =~= b@);
    }
    true
}

/// Decide `loadout_eq` in executable code.
pub fn loadouts_equal(a: &Loadout, b: &Loadout) -> (r: bool)
    ensures
        r == loadout_eq(*a, *b),
{
    a.current == b.current && a.id == b.id && a.is_active == b.is_active && a.is_deletable
        == b.is_deletable && a.is_editable == b.is_editable && a.is_valid == b.is_valid
        && a.last_modified == b.last_modified && str_eq(a.name.as_str(), b.name.as_str()) && a.order
        == b.order && a.primary_style_id == b.primary_style_id && perks_equal(
        &a.selected_perk_ids,
        &b.selected_perk_ids,
    ) && a.sub_style_id == b.sub_style_id
}

/// The fixed substring that marks a loadout as created by this system.
pub open spec fn marker() -> Seq<char> {
    "(RP)"@
}

/// The marker as a string slice.
pub fn marker_str() -> (r: &'static str)
    ensures
        r@ == marker(),
{
    "(RP)"
}

/// A loadout name carries the managed marker.
pub open spec fn is_managed_name(name: Seq<char>) -> bool {
    has_sub(name, marker())
}

/// Decide whether a loadout name carries the managed marker.
pub fn name_has_marker(name: &str) -> (r: bool)
    ensures
        r == is_managed_name(name@),
{
    str_contains(name, marker_str())
}

/// The display name given to a loadout restored from the personal store:
/// the champion's name, a source tag, and the managed marker.
pub open spec fn saved_name(champ: Seq<char>) -> Seq<char> {
    champ + " (saved) "@ + marker()
}

/// Build the display name for a loadout restored from the personal store.
pub fn make_saved_name(champ: &str) -> (r: String)
    ensures
        r@ == saved_name(champ@),
{
    let mut s = champ.to_owned();
    s.append(" (saved) ");
    s.append(marker_str());
    s
}

/// The display name given to a community-sourced loadout: the build's name,
/// a source tag, and the managed marker.
pub open spec fn community_name(build: Seq<char>) -> Seq<char> {
    build + " (mobalytics) "@ + marker()
}

/// Build the display name for a community-sourced loadout.
pub fn make_community_name(build: &str) -> (r: String)
    ensures
        r@ == community_name(build@),
{
    let mut s = build.to_owned();
    s.append(" (mobalytics) ");
    s.append(marker_str());
    s
}

/// Law: every name this system gives a loadout carries the managed marker,
/// so the capacity pass recognizes and purges system-created loadouts.
pub proof fn lemma_system_names_are_managed(name: Seq<char>)
    ensures
        is_managed_name(saved_name(name)),
        is_managed_name(community_name(name)),
{
    reveal_strlit(" (saved) ");
    reveal_strlit(" (mobalytics) ");
    reveal_strlit("(RP)");
    let s = saved_name(name);
    assert(match_at(s, marker(), name.len() as int + 9)) by {
        assert(s.subrange(name.len() as int + 9, name.len() as int + 9 + marker().len() as int) =~= marker());
    }
    let c = community_name(name);
    assert(match_at(c, marker(), name.len() as int + 14)) by {
        assert(c.subrange(name.len() as int + 14, name.len() as int + 14 + marker().len() as int) =~= marker());
    }
}

} // verus!
