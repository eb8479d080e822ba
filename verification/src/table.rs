//! The key-to-statistic table: a sorted association vector whose view is a
//! mathematical map from key bytes to statistic models, and the merge rule
//! that combines two tables.

use vstd::prelude::*;
use crate::stats::{RunningStat, StatModel, stat_wf, stat_combine};
use crate::order::{lex_lt, lemma_lex_lt_asym, lemma_lex_lt_trans, key_cmp};
use crate::parse::copy_bytes;
use vstd::pervasive::VecAdditionalExecFns;

verus! {

pub type StatMap = Map<Seq<u8>, StatModel>;

/// Every statistic in the map is well-formed.
pub open spec fn map_wf(m: StatMap) -> bool {
    forall|k: Seq<u8>| #[trigger] m.dom().contains(k) ==> stat_wf(m[k])
}

/// Fold one statistic for key `k` into the map: combine with the present
/// entry, or create one.
pub open spec fn add_stat_m(m: StatMap, k: Seq<u8>, st: StatModel) -> StatMap {
    if m.dom().contains(k) {
        m.insert(k, stat_combine(m[k], st))
    } else {
        m.insert(k, st)
    }
}

/// Merge of two maps: union of the domains, combining statistics of shared
/// keys pairwise.
pub open spec fn map_merge(a: StatMap, b: StatMap) -> StatMap {
    Map::new(
        |k: Seq<u8>| a.dom().contains(k) || b.dom().contains(k),
        |k: Seq<u8>|
            if a.dom().contains(k) && b.dom().contains(k) {
                stat_combine(a[k], b[k])
            } else if b.dom().contains(k) {
                b[k]
            } else {
                a[k]
            },
    )
}

/// The empty map is a unit of the merge.
pub proof fn lemma_merge_empty(a: StatMap)
    ensures
        map_merge(a, Map::empty()) == a,
        map_merge(Map::empty(), a) == a,
{
    assert(map_merge(a, Map::empty()) =~= a);
    assert(map_merge(Map::empty(), a) =~= a);
}

/// Merging is commutative.
pub proof fn lemma_merge_comm(a: StatMap, b: StatMap)
    ensures
        map_merge(a, b) == map_merge(b, a),
{
    assert(map_merge(a, b) =~= map_merge(b, a));
}

/// Merging is associative.
pub proof fn lemma_merge_assoc(a: StatMap, b: StatMap, c: StatMap)
    ensures
        map_merge(map_merge(a, b), c) == map_merge(a, map_merge(b, c)),
{
    assert(map_merge(map_merge(a, b), c) =~= map_merge(a, map_merge(b, c)));
}

/// Folding one statistic is merging with a singleton map.
pub proof fn lemma_add_stat_as_merge(m: StatMap, k: Seq<u8>, st: StatModel)
    ensures
        add_stat_m(m, k, st) == map_merge(m, Map::empty().insert(k, st)),
{
    assert(add_stat_m(m, k, st) =~= map_merge(m, Map::empty().insert(k, st)));
}

/// Inserting a fresh key on the right of a merge folds it into the result.
pub proof fn lemma_merge_insert(a: StatMap, m: StatMap, k: Seq<u8>, st: StatModel)
    requires
        !m.dom().contains(k),
    ensures
        map_merge(a, m.insert(k, st)) == add_stat_m(map_merge(a, m), k, st),
{
    assert(map_merge(a, m.insert(k, st)) =~= add_stat_m(map_merge(a, m), k, st));
}

/// One table entry: an owned key and its running statistic.
pub struct Entry {
    pub key: Vec<u8>,
    pub stat: RunningStat,
}

/// The map described by an entry sequence, later entries taking precedence.
pub open spec fn entries_map(s: Seq<(Seq<u8>, StatModel)>) -> StatMap
    decreases s.len(),
{
    if s.len() == 0 {
        Map::empty()
    } else {
        entries_map(s.drop_last()).insert(s.last().0, s.last().1)
    }
}

/// Keys strictly ascending in lexicographic order.
pub open spec fn kv_sorted(s: Seq<(Seq<u8>, StatModel)>) -> bool {
    forall|i: int, j: int| 0 <= i < j < s.len() ==> lex_lt(s[i].0, s[j].0)
}

/// Every key of an entry sequence is in the map it describes.
pub proof fn lemma_em_contains(s: Seq<(Seq<u8>, StatModel)>, i: int)
    requires
        0 <= i < s.len(),
    ensures
        entries_map(s).dom().contains(s[i].0),
    decreases s.len(),
{
    if i < s.len() - 1 {
        lemma_em_contains(s.drop_last(), i);
    }
}

/// Every key of the map comes from some entry.
pub proof fn lemma_em_dom(s: Seq<(Seq<u8>, StatModel)>)
    ensures
        forall|k: Seq<u8>| #[trigger] entries_map(s).dom().contains(k) ==> exists|i: int|
            0 <= i < s.len() && (#[trigger] s[i]).0 == k,
    decreases s.len(),
{
    if s.len() > 0 {
        lemma_em_dom(s.drop_last());
        assert forall|k: Seq<u8>| #[trigger] entries_map(s).dom().contains(k) implies exists|
            i: int,
        | 0 <= i < s.len() && (#[trigger] s[i]).0 == k by {
            if k == s.last().0 {
                assert(0 <= s.len() - 1 < s.len() && s[s.len() - 1].0 == k);
            } else {
                assert(entries_map(s.drop_last()).dom().contains(k));
                let i = choose|i: int|
                    0 <= i < s.drop_last().len() && (#[trigger] s.drop_last()[i]).0 == k;
                assert(s.drop_last()[i] == s[i]);
                assert(0 <= i < s.len() && s[i].0 == k);
            }
        }
    }
}

/// Sorted entries have pairwise distinct keys.
pub proof fn lemma_sorted_distinct(s: Seq<(Seq<u8>, StatModel)>)
    requires
        kv_sorted(s),
    ensures
        forall|i: int, j: int|
            0 <= i < s.len() && 0 <= j < s.len() && i != j ==> (#[trigger] s[i]).0 != (
            #[trigger] s[j]).0,
{
    assert forall|i: int, j: int|
        0 <= i < s.len() && 0 <= j < s.len() && i != j implies (#[trigger] s[i]).0 != (
    #[trigger] s[j]).0 by {
        if i < j {
            lemma_lex_lt_asym(s[i].0, s[j].0);
        } else {
            lemma_lex_lt_asym(s[j].0, s[i].0);
        }
    }
}

/// If `i` holds the only entry with its key, the map holds its statistic.
pub proof fn lemma_em_value(s: Seq<(Seq<u8>, StatModel)>, i: int)
    requires
        0 <= i < s.len(),
        forall|j: int| 0 <= j < s.len() && j != i ==> (#[trigger] s[j]).0 != s[i].0,
    ensures
        entries_map(s)[s[i].0] == s[i].1,
    decreases s.len(),
{
    if i < s.len() - 1 {
        lemma_em_value(s.drop_last(), i);
    }
}

/// Replacing the statistic at the only entry with key `k` updates the map.
pub proof fn lemma_em_update(s: Seq<(Seq<u8>, StatModel)>, i: int, st: StatModel)
    requires
        0 <= i < s.len(),
        forall|j: int| 0 <= j < s.len() && j != i ==> (#[trigger] s[j]).0 != s[i].0,
    ensures
        entries_map(s.update(i, (s[i].0, st))) == entries_map(s).insert(s[i].0, st),
    decreases s.len(),
{
    let t = s.update(i, (s[i].0, st));
    if i == s.len() - 1 {
        assert(t.drop_last() =~= s.drop_last());
        assert(entries_map(t) =~= entries_map(s).insert(s[i].0, st));
    } else {
        lemma_em_update(s.drop_last(), i, st);
        assert(t.drop_last() =~= s.drop_last().update(i, (s[i].0, st)));
        assert(entries_map(t) =~= entries_map(s).insert(s[i].0, st));
    }
}

/// Inserting an entry with a fresh key at any position inserts into the map.
pub proof fn lemma_em_insert(s: Seq<(Seq<u8>, StatModel)>, i: int, k: Seq<u8>, st: StatModel)
    requires
        0 <= i <= s.len(),
        forall|j: int| 0 <= j < s.len() ==> (#[trigger] s[j]).0 != k,
    ensures
        entries_map(s.insert(i, (k, st))) == entries_map(s).insert(k, st),
    decreases s.len(),
{
    let t = s.insert(i, (k, st));
    if i == s.len() {
        assert(t.drop_last() =~= s);
        assert(entries_map(t) =~= entries_map(s).insert(k, st));
    } else {
        lemma_em_insert(s.drop_last(), i, k, st);
        assert(t.drop_last() =~= s.drop_last().insert(i, (k, st)));
        assert(t.last() == s.last());
        assert(entries_map(t) =~= entries_map(s).insert(k, st));
    }
}

/// The chunk-local and global result table: entries sorted by key.
pub struct AggMap {
    pub entries: Vec<Entry>,
}

impl View for AggMap {
    type V = StatMap;

    open spec fn view(&self) -> StatMap {
        entries_map(self.kv_seq())
    }
}

impl AggMap {
    /// The entry sequence at the specification level.
    pub open spec fn kv_seq(&self) -> Seq<(Seq<u8>, StatModel)> {
        self.entries@.map_values(|e: Entry| (e.key@, e.stat@))
    }

    /// Invariant: sorted keys, well-formed statistics.
    pub open spec fn inv(&self) -> bool {
        &&& kv_sorted(self.kv_seq())
        &&& forall|i: int|
            0 <= i < self.kv_seq().len() ==> stat_wf((#[trigger] self.kv_seq()[i]).1)
    }

    pub proof fn lemma_view_wf(&self)
        requires
            self.inv(),
        ensures
            map_wf(self@),
    {
        lemma_em_dom(self.kv_seq());
        assert forall|k: Seq<u8>| #[trigger] self@.dom().contains(k) implies stat_wf(
            self@[k],
        ) by {
            let i = choose|i: int|
                0 <= i < self.kv_seq().len() && (#[trigger] self.kv_seq()[i]).0 == k;
            lemma_sorted_distinct(self.kv_seq());
            lemma_em_value(self.kv_seq(), i);
        }
    }

    /// An empty table.
    pub fn new() -> (r: Self)
        ensures
            r.inv(),
            r@ == Map::<Seq<u8>, StatModel>::empty(),
            r.kv_seq() == Seq::<(Seq<u8>, StatModel)>::empty(),
    {
        let r = AggMap { entries: Vec::new() };
        proof {
            assert(r.kv_seq() =~= Seq::<(Seq<u8>, StatModel)>::empty());
        }
        r
    }

    /// First slot whose key is not below `key`, and whether it equals `key`.
    #[verifier::loop_isolation(false)]
    fn find_slot(&self, key: &Vec<u8>) -> (r: (usize, bool))
        requires
            self.inv(),
        ensures
            r.0 <= self.kv_seq().len(),
            forall|j: int| 0 <= j < r.0 ==> lex_lt((#[trigger] self.kv_seq()[j]).0, key@),
            r.1 ==> r.0 < self.kv_seq().len() && self.kv_seq()[r.0 as int].0 == key@,
            !r.1 && r.0 < self.kv_seq().len() ==> lex_lt(key@, self.kv_seq()[r.0 as int].0),
    {
        let n = self.entries.len();
        let mut i: usize = 0;
        while i < n
            invariant
                0 <= i <= n,
                forall|j: int| 0 <= j < i ==> lex_lt((#[trigger] self.kv_seq()[j]).0, key@),
            decreases n - i,
        {
            let c = key_cmp(&self.entries[i].key, key);
            if c == 0i8 {
                return (i, true);
            }
            if c == 1i8 {
                return (i, false);
            }
            i = i + 1;
        }
        (n, false)
    }

    /// Fold one well-formed statistic for `key` into the table.
    pub fn add_stat(&mut self, key: Vec<u8>, st: RunningStat)
        requires
            old(self).inv(),
            stat_wf(st@),
            old(self)@.dom().contains(key@) ==> old(self)@[key@].count + st@.count
                <= usize::MAX,
        ensures
            final(self).inv(),
            final(self)@ == add_stat_m(old(self)@, key@, st@),
    {
        let ghost s0 = self.kv_seq();
        proof {
            lemma_sorted_distinct(s0);
            lemma_em_dom(s0);
        }
        let (i, eq) = self.find_slot(&key);
        if eq {
            proof {
                lemma_em_contains(s0, i as int);
                lemma_em_value(s0, i as int);
            }
            let combined = self.entries[i].stat.combine(&st);
            let ghost cst = combined@;
            self.entries.set(i, Entry { key, stat: combined });
            proof {
                assert(self.kv_seq() =~= s0.update(i as int, (s0[i as int].0, cst)));
                lemma_em_update(s0, i as int, cst);
                assert(self@ == add_stat_m(old(self)@, s0[i as int].0, st@));
            }
        } else {
            proof {
                // Every present key at or past the slot lies above `key@`.
                assert forall|j: int| i <= j < s0.len() implies lex_lt(
                    key@,
                    (#[trigger] s0[j]).0,
                ) by {
                    if j > i {
                        lemma_lex_lt_trans(key@, s0[i as int].0, s0[j].0);
                    }
                }
                // `key@` is distinct from every present key.
                assert forall|j: int| 0 <= j < s0.len() implies (#[trigger] s0[j]).0 != key@ by {
                    if j < i {
                        lemma_lex_lt_asym(s0[j].0, key@);
                    } else {
                        lemma_lex_lt_asym(key@, s0[j].0);
                    }
                }
                if old(self)@.dom().contains(key@) {
                    let w = choose|w: int| 0 <= w < s0.len() && (#[trigger] s0[w]).0 == key@;
                    assert(false);
                }
            }
            let ghost stm = st@;
            let ghost kv = key@;
            self.entries.insert(i, Entry { key, stat: st });
            proof {
                assert(self.kv_seq() =~= s0.insert(i as int, (kv, stm)));
                lemma_em_insert(s0, i as int, kv, stm);
                // Sortedness of the new sequence.
                let s1 = self.kv_seq();
                assert forall|j: int| i <= j < s0.len() implies lex_lt(
                    kv,
                    (#[trigger] s0[j]).0,
                ) by {
                    if j > i {
                        lemma_lex_lt_trans(kv, s0[i as int].0, s0[j].0);
                    }
                }
                assert forall|x: int, y: int| 0 <= x < y < s1.len() implies lex_lt(
                    (#[trigger] s1[x]).0,
                    (#[trigger] s1[y]).0,
                ) by {
                    if x < i {
                        assert(s1[x] == s0[x]);
                    }
                    if y > i {
                        assert(s1[y] == s0[y - 1]);
                    }
                    if x < i && y > i {
                        lemma_lex_lt_trans(s0[x].0, kv, s0[y - 1].0);
                    }
                }
            }
        }
    }

    /// Merge another table into this one, combining shared keys pairwise.
    #[verifier::loop_isolation(false)]
    pub fn merge_from(&mut self, other: &AggMap)
        requires
            old(self).inv(),
            other.inv(),
            forall|k: Seq<u8>|
                old(self)@.dom().contains(k) && #[trigger] other@.dom().contains(k)
                    ==> old(self)@[k].count + other@[k].count <= usize::MAX,
        ensures
            final(self).inv(),
            final(self)@ == map_merge(old(self)@, other@),
    {
        let ghost so = other.kv_seq();
        proof {
            lemma_sorted_distinct(so);
            lemma_em_dom(so);
            lemma_merge_empty(old(self)@);
            assert(entries_map(so.take(0)) =~= Map::<Seq<u8>, StatModel>::empty());
        }
        let n = other.entries.len();
        let mut idx: usize = 0;
        while idx < n
            invariant
                0 <= idx <= n,
                self.inv(),
                self@ == map_merge(old(self)@, entries_map(so.take(idx as int))),
            decreases n - idx,
        {
            let ghost prefix = so.take(idx as int);
            let klen = other.entries[idx].key.len();
            let k = copy_bytes(other.entries[idx].key.as_slice(), 0, klen);
            let st = other.entries[idx].stat.clone();
            proof {
                assert(k@ =~= so[idx as int].0);
                lemma_em_value(so, idx as int);
                lemma_em_contains(so, idx as int);
                // The key is fresh in the prefix.
                assert forall|j: int| 0 <= j < prefix.len() implies (#[trigger] prefix[j]).0
                    != k@ by {
                    assert(prefix[j] == so[j]);
                }
                lemma_em_dom(prefix);
                if entries_map(prefix).dom().contains(k@) {
                    let w = choose|w: int|
                        0 <= w < prefix.len() && (#[trigger] prefix[w]).0 == k@;
                    assert(false);
                }
                // The folded statistic is the entry's, and well-formed.
                assert(st@ == so[idx as int].1);
                assert(stat_wf((#[trigger] other.kv_seq()[idx as int]).1));
                assert(other@[k@] == so[idx as int].1);
                // Count bound for the pending fold.
                if self@.dom().contains(k@) {
                    assert(self@[k@] == old(self)@[k@]);
                    assert(old(self)@.dom().contains(k@));
                    assert(other@.dom().contains(k@));
                }
            }
            self.add_stat(k, st);
            proof {
                lemma_merge_insert(
                    old(self)@,
                    entries_map(prefix),
                    so[idx as int].0,
                    so[idx as int].1,
                );
                assert(so.take(idx as int + 1) =~= prefix.push(so[idx as int]));
                assert(so.take(idx as int + 1).drop_last() =~= prefix);
                assert(entries_map(so.take(idx as int + 1)) == entries_map(prefix).insert(
                    so[idx as int].0,
                    so[idx as int].1,
                ));
            }
            idx = idx + 1;
        }
        proof {
            assert(so.take(n as int) =~= so);
        }
    }
}

} // verus!
