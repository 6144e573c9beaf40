//! The subscription registry: topic -> ordered handler ids. Handler bodies
//! live with the caller, keyed by id; the registry owns the routing order and
//! the id discipline (fresh, monotonically increasing, unique).

use vstd::prelude::*;
use crate::text::str_eq;

verus! {

/// Why a registry operation failed.
#[derive(Clone, Copy, Debug, PartialEq, Eq, Structural)]
pub enum RegistryError {
    /// No handler with the given id is registered anywhere.
    IdNotFound,
}

/// The handler ids registered for `name`, in registration order: those of
/// the first entry whose topic is `name`, or none.
pub open spec fn ids_for_seq(ts: Seq<(String, Vec<u64>)>, name: Seq<char>) -> Seq<u64>
    decreases ts.len(),
{
    if ts.len() == 0 {
        Seq::empty()
    } else if ts[0].0@ == name {
        ts[0].1@
    } else {
        ids_for_seq(ts.drop_first(), name)
    }
}

/// Some entry holds the topic `name`.
pub open spec fn has_topic(ts: Seq<(String, Vec<u64>)>, name: Seq<char>) -> bool {
    exists|j: int| 0 <= j < ts.len() && (#[trigger] ts[j]).0@ == name
}

/// The id is registered under some topic.
pub open spec fn id_registered(ts: Seq<(String, Vec<u64>)>, id: u64) -> bool {
    exists|j: int, k: int|
        #![trigger ts[j].1@[k]]
        0 <= j < ts.len() && 0 <= k < ts[j].1@.len() && ts[j].1@[k] == id
}

/// `s` with every occurrence of `id` removed, order kept.
pub open spec fn without_id(s: Seq<u64>, id: u64) -> Seq<u64>
    decreases s.len(),
{
    if s.len() == 0 {
        Seq::empty()
    } else if s.last() == id {
        without_id(s.drop_last(), id)
    } else {
        without_id(s.drop_last(), id).push(s.last())
    }
}

/// The subscription registry.
pub struct Registry {
    /// The id the next subscription will receive.
    pub next_id: u64,
    /// Topic name -> handler ids, in registration order.
    pub topics: Vec<(String, Vec<u64>)>,
}

impl Registry {
    /// Well-formed: topics are distinct, every id is below `next_id`, and no
    /// id appears twice anywhere.
    pub open spec fn wf(self) -> bool {
        &&& forall|j: int, k: int|
            0 <= j < self.topics@.len() && 0 <= k < (#[trigger] self.topics@[j]).1@.len()
                ==> #[trigger] self.topics@[j].1@[k] < self.next_id
        &&& forall|j1: int, j2: int|
            0 <= j1 < j2 < self.topics@.len() ==> (#[trigger] self.topics@[j1]).0@ != (
            #[trigger] self.topics@[j2]).0@
        &&& forall|j1: int, k1: int, j2: int, k2: int|
            #![trigger self.topics@[j1].1@[k1], self.topics@[j2].1@[k2]]
            0 <= j1 < self.topics@.len() && 0 <= k1 < self.topics@[j1].1@.len() && 0 <= j2
                < self.topics@.len() && 0 <= k2 < self.topics@[j2].1@.len() && (j1 != j2 || k1
                != k2) ==> self.topics@[j1].1@[k1] != self.topics@[j2].1@[k2]
    }

    /// The handler ids registered for a topic, in registration order.
    pub open spec fn ids_for(self, name: Seq<char>) -> Seq<u64> {
        ids_for_seq(self.topics@, name)
    }

    /// A fresh, empty registry.
    pub fn new() -> (r: Registry)
        ensures
            r.wf(),
            r.next_id == 0,
            r.topics@.len() == 0,
            forall|n: Seq<char>| r.ids_for(n) == Seq::<u64>::empty(),
    {
        Registry { next_id: 0, topics: Vec::new() }
    }

    /// Register a handler id for a topic: the id is fresh and is appended to
    /// the topic's list; no other topic changes.
    #[verifier::loop_isolation(false)]
    pub fn subscribe(&mut self, topic: String) -> (id: u64)
        requires
            old(self).wf(),
            old(self).next_id < u64::MAX,
        ensures
            final(self).wf(),
            id == old(self).next_id,
            final(self).next_id == old(self).next_id + 1,
            final(self).ids_for(topic@) == old(self).ids_for(topic@).push(id),
            forall|n: Seq<char>| n != topic@ ==> final(self).ids_for(n) == old(self).ids_for(n),
    {
        let id = self.next_id;
        self.next_id = id + 1;
        let ghost old_ts = self.topics@;
        let mut j: usize = 0;
        while j < self.topics.len()
            invariant
                self.topics@ == old_ts,
                old_ts == old(self).topics@,
                self.next_id == old(self).next_id + 1,
                id == old(self).next_id,
                j <= old_ts.len(),
                forall|jj: int| 0 <= jj < j ==> (#[trigger] old_ts[jj]).0@ != topic@,
            decreases old_ts.len() - j,
        {
            if str_eq(self.topics[j].0.as_str(), topic.as_str()) {
                let mut pair = self.topics.remove(j);
                pair.1.push(id);
                self.topics.insert(j, pair);
                proof {
                    assert(self.topics@ =~= old_ts.update(
                        j as int,
                        (old_ts[j as int].0, pair.1),
                    ));
                    lemma_ids_for_update(old_ts, j as int, (old_ts[j as int].0, pair.1), topic@);
                    lemma_ids_for_skip(old_ts, j as int, topic@);
                    assert(ids_for_seq(old_ts.skip(j as int), topic@) == old_ts[j as int].1@);
                    assert forall|n: Seq<char>| n != topic@ implies ids_for_seq(self.topics@, n)
                        == ids_for_seq(old_ts, n) by {
                        lemma_ids_for_update(old_ts, j as int, (old_ts[j as int].0, pair.1), n);
                    }
                    assert(self.wf()) by {
                        let ts = self.topics@;
                        assert forall|j1: int, k1: int, j2: int, k2: int|
                            #![trigger ts[j1].1@[k1], ts[j2].1@[k2]]
                            0 <= j1 < ts.len() && 0 <= k1 < ts[j1].1@.len() && 0 <= j2 < ts.len()
                                && 0 <= k2 < ts[j2].1@.len() && (j1 != j2 || k1 != k2) implies ts[j1].1@[k1] != ts[j2].1@[k2] by {
                            if j1 == j as int && k1 == old_ts[j as int].1@.len() {
                                assert(ts[j1].1@[k1] == id);
                                assert(ts[j2].1@[k2] < id || ts[j2].1@[k2] == id);
                            } else if j2 == j as int && k2 == old_ts[j as int].1@.len() {
                                assert(ts[j2].1@[k2] == id);
                            }
                        }
                    }
                }
                return id;
            }
            j = j + 1;
        }
        let mut ids: Vec<u64> = Vec::new();
        ids.push(id);
        self.topics.push((topic, ids));
        proof {
            let pair = self.topics@.last();
            assert(self.topics@ =~= old_ts.push(pair));
            assert(!has_topic(old_ts, pair.0@));
            lemma_ids_for_push(old_ts, pair, pair.0@);
            assert(!has_topic(old_ts, pair.0@) ==> ids_for_seq(old_ts, pair.0@)
                == Seq::<u64>::empty()) by {
                lemma_ids_for_no_topic(old_ts, pair.0@);
            }
            assert(self.ids_for(pair.0@) =~= ids_for_seq(old_ts, pair.0@).push(id));
            assert forall|n: Seq<char>| n != pair.0@ implies ids_for_seq(self.topics@, n)
                == ids_for_seq(old_ts, n) by {
                lemma_ids_for_push(old_ts, pair, n);
                if !has_topic(old_ts, n) {
                    lemma_ids_for_no_topic(old_ts, n);
                }
            }
            assert(self.wf()) by {
                let ts = self.topics@;
                assert forall|j1: int, k1: int, j2: int, k2: int|
                    #![trigger ts[j1].1@[k1], ts[j2].1@[k2]]
                    0 <= j1 < ts.len() && 0 <= k1 < ts[j1].1@.len() && 0 <= j2 < ts.len() && 0
                        <= k2 < ts[j2].1@.len() && (j1 != j2 || k1 != k2) implies ts[j1].1@[k1] != ts[j2].1@[k2] by {
                    if j1 == old_ts.len() as int {
                        assert(ts[j1].1@[k1] == id);
                    } else if j2 == old_ts.len() as int {
                        assert(ts[j2].1@[k2] == id);
                    }
                }
            }
        }
        id
    }

    /// Remove a handler id wherever it is registered; fails exactly when the
    /// id is registered nowhere.
    #[verifier::loop_isolation(false)]
    pub fn unsubscribe(&mut self, id: u64) -> (r: Result<(), RegistryError>)
        requires
            old(self).wf(),
        ensures
            final(self).wf(),
            final(self).next_id == old(self).next_id,
            r is Ok <==> id_registered(old(self).topics@, id),
            forall|n: Seq<char>|
                final(self).ids_for(n) == without_id(#[trigger] old(self).ids_for(n), id),
    {
        let ghost old_ts = self.topics@;
        let mut j: usize = 0;
        while j < self.topics.len()
            invariant
                self.topics@ == old_ts,
                old_ts == old(self).topics@,
                self.next_id == old(self).next_id,
                j <= old_ts.len(),
                forall|jj: int, kk: int|
                    #![trigger old_ts[jj].1@[kk]]
                    0 <= jj < j && 0 <= kk < old_ts[jj].1@.len() ==> old_ts[jj].1@[kk] != id,
            decreases old_ts.len() - j,
        {
            let tlen = self.topics[j].1.len();
            let mut k: usize = 0;
            while k < tlen
                invariant
                    self.topics@ == old_ts,
                    old_ts == old(self).topics@,
                    self.next_id == old(self).next_id,
                    j < old_ts.len(),
                    tlen == old_ts[j as int].1@.len(),
                    k <= tlen,
                    forall|kk: int| 0 <= kk < k ==> old_ts[j as int].1@[kk] != id,
                decreases tlen - k,
            {
                if self.topics[j].1[k] == id {
                    let mut pair = self.topics.remove(j);
                    pair.1.remove(k);
                    self.topics.insert(j, pair);
                    proof {
                        let newvec = old_ts[j as int].1@.remove(k as int);
                        assert(self.topics@ =~= old_ts.update(
                            j as int,
                            (old_ts[j as int].0, pair.1),
                        ));
                        assert(pair.1@ == newvec);
                        let ghost oldvec = old_ts[j as int].1@;
                        assert forall|m: int|
                            0 <= m < oldvec.len() && m != k as int implies oldvec[m] != id by {
                            assert(old(self).topics@[j as int].1@[m]
                                != old(self).topics@[j as int].1@[k as int]);
                        }
                        assert forall|j1: int, j2: int| 0 <= j1 < j2 < old_ts.len() implies (
                        #[trigger] old_ts[j1]).0@ != (#[trigger] old_ts[j2]).0@ by {
                            assert((old(self).topics@[j1]).0@ != (old(self).topics@[j2]).0@);
                        }
                        lemma_without_unique(old_ts[j as int].1@, k as int, id);
                        assert(id_registered(old_ts, id)) by {
                            assert(0 <= j < old_ts.len() && 0 <= k
                                < (old_ts[j as int]).1@.len() && old_ts[j as int].1@[k as int]
                                == id);
                        }
                        let name = old_ts[j as int].0@;
                        assert forall|n: Seq<char>| #[trigger]
                            ids_for_seq(self.topics@, n) == without_id(
                            ids_for_seq(old_ts, n),
                            id,
                        ) by {
                            lemma_ids_for_update(
                                old_ts,
                                j as int,
                                (old_ts[j as int].0, pair.1),
                                n,
                            );
                            if n == name {
                                lemma_ids_for_skip(old_ts, j as int, n);
                                assert(ids_for_seq(old_ts, n) == old_ts[j as int].1@);
                            } else {
                                lemma_ids_for_topic_or_empty(old_ts, n);
                                if ids_for_seq(old_ts, n).len() == 0 {
                                    assert(without_id(ids_for_seq(old_ts, n), id)
                                        =~= ids_for_seq(old_ts, n));
                                } else {
                                    let jj = choose|jj: int|
                                        0 <= jj < old_ts.len() && (#[trigger] old_ts[jj]).0@ == n
                                            && ids_for_seq(old_ts, n) == old_ts[jj].1@;
                                    assert(jj != j as int);
                                    lemma_without_absent(old_ts[jj].1@, id);
                                }
                            }
                        }
                        assert(self.wf()) by {
                            let ts = self.topics@;
                            assert forall|j1: int, k1: int, j2: int, k2: int|
                                #![trigger ts[j1].1@[k1], ts[j2].1@[k2]]
                                0 <= j1 < ts.len() && 0 <= k1 < ts[j1].1@.len() && 0 <= j2
                                    < ts.len() && 0 <= k2 < ts[j2].1@.len() && (j1 != j2 || k1
                                    != k2) implies ts[j1].1@[k1] != ts[j2].1@[k2] by {
                                if j1 == j as int {
                                    assert(ts[j1].1@[k1] == old_ts[j as int].1@[
                                        if k1 < k as int { k1 } else { k1 + 1 }
                                    ]);
                                }
                                if j2 == j as int {
                                    assert(ts[j2].1@[k2] == old_ts[j as int].1@[
                                        if k2 < k as int { k2 } else { k2 + 1 }
                                    ]);
                                }
                            }
                        }
                    }
                    return Ok(());
                }
                k = k + 1;
            }
            j = j + 1;
        }
        proof {
            assert(self.wf());
            assert(!id_registered(old_ts, id));
            assert forall|n: Seq<char>| #[trigger]
                ids_for_seq(self.topics@, n) == without_id(ids_for_seq(old_ts, n), id) by {
                lemma_ids_for_topic_or_empty(old_ts, n);
                if ids_for_seq(old_ts, n).len() == 0 {
                    assert(without_id(ids_for_seq(old_ts, n), id) =~= ids_for_seq(old_ts, n));
                } else {
                    let jj = choose|jj: int|
                        0 <= jj < old_ts.len() && (#[trigger] old_ts[jj]).0@ == n && ids_for_seq(
                            old_ts,
                            n,
                        ) == old_ts[jj].1@;
                    lemma_without_absent(old_ts[jj].1@, id);
                }
            }
        }
        Err(RegistryError::IdNotFound)
    }

    /// The handler ids for a topic, in registration order.
    #[verifier::loop_isolation(false)]
    pub fn handlers_for(&self, topic: &str) -> (r: Vec<u64>)
        ensures
            r@ == self.ids_for(topic@),
    {
        let ghost ts = self.topics@;
        let mut j: usize = 0;
        while j < self.topics.len()
            invariant
                ts == self.topics@,
                j <= ts.len(),
                forall|jj: int| 0 <= jj < j ==> (#[trigger] ts[jj]).0@ != topic@,
            decreases ts.len() - j,
        {
            if str_eq(self.topics[j].0.as_str(), topic) {
                proof {
                    lemma_ids_for_skip(ts, j as int, topic@);
                }
                let src = &self.topics[j].1;
                let len = src.len();
                let mut out: Vec<u64> = Vec::new();
                let mut k: usize = 0;
                while k < len
                    invariant
                        len == src@.len(),
                        k <= len,
                        out@ =~= src@.take(k as int),
                    decreases len - k,
                {
                    out.push(src[k]);
                    proof {
                        assert(out@ =~= src@.take(k + 1));
                    }
                    k = k + 1;
                }
                proof {
                    assert(src@.take(len as int) =~= src@);
                }
                return out;
            }
            j = j + 1;
        }
        proof {
            lemma_ids_for_skip(ts, ts.len() as int, topic@);
            assert(ts.skip(ts.len() as int) =~= Seq::<(String, Vec<u64>)>::empty());
        }
        Vec::new()
    }
}

/// Searching from `idx` on is the same as searching the whole list when no
/// earlier entry holds the topic.
proof fn lemma_ids_for_skip(ts: Seq<(String, Vec<u64>)>, idx: int, name: Seq<char>)
    requires
        0 <= idx <= ts.len(),
        forall|j: int| 0 <= j < idx ==> (#[trigger] ts[j]).0@ != name,
    ensures
        ids_for_seq(ts, name) == ids_for_seq(ts.skip(idx), name),
    decreases idx,
{
    if idx == 0 {
        assert(ts.skip(0) =~= ts);
    } else {
        assert(ts[0].0@ != name);
        assert(ts.drop_first() =~= ts.skip(1));
        assert(forall|j: int|
            0 <= j < idx - 1 ==> (#[trigger] ts.skip(1)[j]).0@ == ts[j + 1].0@ && ts[j + 1].0@
                != name);
        lemma_ids_for_skip(ts.skip(1), idx - 1, name);
        assert(ts.skip(1).skip(idx - 1) =~= ts.skip(idx));
    }
}

/// Replacing an entry with one of the same topic changes only that topic's
/// ids.
proof fn lemma_ids_for_update(
    ts: Seq<(String, Vec<u64>)>,
    idx: int,
    pair: (String, Vec<u64>),
    name: Seq<char>,
)
    requires
        0 <= idx < ts.len(),
        pair.0@ == ts[idx].0@,
        forall|j1: int, j2: int|
            0 <= j1 < j2 < ts.len() ==> (#[trigger] ts[j1]).0@ != (#[trigger] ts[j2]).0@,
    ensures
        ids_for_seq(ts.update(idx, pair), name) == if name == ts[idx].0@ {
            pair.1@
        } else {
            ids_for_seq(ts, name)
        },
    decreases idx,
{
    let up = ts.update(idx, pair);
    if idx == 0 {
        if name == ts[0].0@ {
            assert(up[0].0@ == name);
        } else {
            assert(up.drop_first() =~= ts.drop_first());
        }
    } else {
        if ts[0].0@ == name {
            assert(up[0] == ts[0]);
            assert(ts[0].0@ != ts[idx].0@);
        } else {
            assert(up.drop_first() =~= ts.drop_first().update(idx - 1, pair));
            assert(ts.drop_first()[idx - 1] == ts[idx]);
            assert(forall|j1: int, j2: int|
                0 <= j1 < j2 < ts.drop_first().len() ==> (#[trigger] ts.drop_first()[j1]).0@ != (
                #[trigger] ts.drop_first()[j2]).0@) by {
                assert(forall|j: int|
                    0 <= j < ts.drop_first().len() ==> (#[trigger] ts.drop_first()[j]) == ts[j
                        + 1]);
            }
            lemma_ids_for_update(ts.drop_first(), idx - 1, pair, name);
        }
    }
}

/// Appending a new entry changes nothing for topics already present, and
/// installs the new entry's ids for its own topic.
proof fn lemma_ids_for_push(ts: Seq<(String, Vec<u64>)>, pair: (String, Vec<u64>), name: Seq<char>)
    ensures
        ids_for_seq(ts.push(pair), name) == if has_topic(ts, name) {
            ids_for_seq(ts, name)
        } else if pair.0@ == name {
            pair.1@
        } else {
            Seq::<u64>::empty()
        },
    decreases ts.len(),
{
    let pu = ts.push(pair);
    if ts.len() == 0 {
        assert(pu[0] == pair);
        if pair.0@ == name {
            assert(ids_for_seq(pu, name) == pair.1@);
        } else {
            assert(pu.drop_first() =~= Seq::<(String, Vec<u64>)>::empty());
            assert(ids_for_seq(Seq::<(String, Vec<u64>)>::empty(), name) == Seq::<u64>::empty());
            assert(ids_for_seq(pu, name) == Seq::<u64>::empty());
        }
        assert(!has_topic(ts, name));
    } else {
        assert(pu[0] == ts[0]);
        if ts[0].0@ == name {
            assert(has_topic(ts, name)) by {
                assert((ts[0]).0@ == name);
            }
            assert(pu[0] == ts[0]);
        } else {
            assert(pu.drop_first() =~= ts.drop_first().push(pair));
            lemma_ids_for_push(ts.drop_first(), pair, name);
            assert(has_topic(ts.drop_first(), name) <==> has_topic(ts, name)) by {
                if has_topic(ts.drop_first(), name) {
                    let j = choose|j: int|
                        0 <= j < ts.drop_first().len() && (#[trigger] ts.drop_first()[j]).0@
                            == name;
                    assert((ts[j + 1]).0@ == name);
                }
                if has_topic(ts, name) {
                    let j = choose|j: int| 0 <= j < ts.len() && (#[trigger] ts[j]).0@ == name;
                    assert(j != 0);
                    assert((ts.drop_first()[j - 1]).0@ == name);
                }
            }
        }
    }
}

/// A topic nowhere in the list has no ids.
proof fn lemma_ids_for_no_topic(ts: Seq<(String, Vec<u64>)>, name: Seq<char>)
    requires
        !has_topic(ts, name),
    ensures
        ids_for_seq(ts, name) == Seq::<u64>::empty(),
    decreases ts.len(),
{
    if ts.len() > 0 {
        assert(ts[0].0@ != name) by {
            if ts[0].0@ == name {
                assert((ts[0]).0@ == name);
            }
        }
        assert(!has_topic(ts.drop_first(), name)) by {
            if has_topic(ts.drop_first(), name) {
                let j = choose|j: int|
                    0 <= j < ts.drop_first().len() && (#[trigger] ts.drop_first()[j]).0@ == name;
                assert((ts[j + 1]).0@ == name);
            }
        }
        lemma_ids_for_no_topic(ts.drop_first(), name);
    }
}

/// The ids of any topic are those of some entry holding that topic, or none.
proof fn lemma_ids_for_topic_or_empty(ts: Seq<(String, Vec<u64>)>, name: Seq<char>)
    ensures
        ids_for_seq(ts, name).len() == 0 || exists|j: int|
            0 <= j < ts.len() && (#[trigger] ts[j]).0@ == name && ids_for_seq(ts, name)
                == ts[j].1@,
    decreases ts.len(),
{
    if ts.len() > 0 {
        if ts[0].0@ == name {
            if ids_for_seq(ts, name).len() > 0 {
                assert((ts[0]).0@ == name && ids_for_seq(ts, name) == ts[0].1@);
            }
        } else {
            lemma_ids_for_topic_or_empty(ts.drop_first(), name);
            if ids_for_seq(ts, name).len() > 0 {
                let j = choose|j: int|
                    0 <= j < ts.drop_first().len() && (#[trigger] ts.drop_first()[j]).0@ == name
                        && ids_for_seq(ts.drop_first(), name) == ts.drop_first()[j].1@;
                assert((ts[j + 1]).0@ == name && ids_for_seq(ts, name) == ts[j + 1].1@);
            }
        }
    }
}

/// Removing the only occurrence of `id` is what `without_id` describes.
proof fn lemma_without_unique(s: Seq<u64>, k: int, id: u64)
    requires
        0 <= k < s.len(),
        s[k] == id,
        forall|m: int| 0 <= m < s.len() && m != k ==> s[m] != id,
    ensures
        without_id(s, id) =~= s.remove(k),
    decreases s.len(),
{
    if k == s.len() - 1 {
        assert(s.last() == id);
        lemma_without_absent(s.drop_last(), id);
        assert(s.remove(k) =~= s.drop_last());
    } else {
        assert(s.last() != id);
        lemma_without_unique(s.drop_last(), k, id);
        assert(s.remove(k) =~= s.drop_last().remove(k).push(s.last()));
    }
}

/// `without_id` leaves a sequence without the id unchanged.
proof fn lemma_without_absent(s: Seq<u64>, id: u64)
    requires
        forall|m: int| 0 <= m < s.len() ==> s[m] != id,
    ensures
        without_id(s, id) =~= s,
    decreases s.len(),
{
    if s.len() > 0 {
        lemma_without_absent(s.drop_last(), id);
    }
}

} // verus!
