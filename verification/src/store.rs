//! The in-memory store and its operations.
//!
//! The store owns two containers: the scalar map, from keys to single string
//! values, and the list map, from names to ordered sequences of values. Both
//! are held as association vectors with pairwise-distinct keys and are
//! specified through the finite maps they induce. Loading and saving go
//! through the documents of `codec`: the caller reads and writes the two
//! backing files and hands the raw bytes in and out.

use vstd::prelude::*;
use vstd::map::*;
use vstd::string::StrSliceExecFns;
use vstd::string::StringSliceAdditionalSpecFns;
use crate::codec::{
    distinct_keys, distinct_names, pair_views, vec_views, list_pair_views, loaded_scalar,
    loaded_lists, enc_scalar_doc, enc_list_doc, parse_scalar_doc, parse_list_doc,
    decode_scalar_doc, decode_list_doc, encode_scalar_doc, encode_list_doc,
    lemma_scalar_round_trip, lemma_list_round_trip,
};

verus! {

/// Whether some entry binds the key `k`.
pub open spec fn scalar_contains(es: Seq<(Seq<u8>, Seq<u8>)>, k: Seq<u8>) -> bool {
    exists|i: int| 0 <= i < es.len() && (#[trigger] es[i]).0 == k
}

/// The value bound to `k` by some entry.
pub open spec fn scalar_value(es: Seq<(Seq<u8>, Seq<u8>)>, k: Seq<u8>) -> Seq<u8> {
    es[choose|i: int| 0 <= i < es.len() && (#[trigger] es[i]).0 == k].1
}

/// The finite map induced by a sequence of scalar entries.
pub open spec fn scalar_map_of(es: Seq<(Seq<u8>, Seq<u8>)>) -> Map<Seq<u8>, Seq<u8>> {
    Map::new(|k: Seq<u8>| scalar_contains(es, k), |k: Seq<u8>| scalar_value(es, k))
}

/// Whether some entry binds the name `k`.
pub open spec fn list_contains(es: Seq<(Seq<u8>, Seq<Seq<u8>>)>, k: Seq<u8>) -> bool {
    exists|i: int| 0 <= i < es.len() && (#[trigger] es[i]).0 == k
}

/// The values bound to `k` by some entry.
pub open spec fn list_value(es: Seq<(Seq<u8>, Seq<Seq<u8>>)>, k: Seq<u8>) -> Seq<Seq<u8>> {
    es[choose|i: int| 0 <= i < es.len() && (#[trigger] es[i]).0 == k].1
}

/// The finite map induced by a sequence of list entries.
pub open spec fn list_map_of(es: Seq<(Seq<u8>, Seq<Seq<u8>>)>) -> Map<Seq<u8>, Seq<Seq<u8>>> {
    Map::new(|k: Seq<u8>| list_contains(es, k), |k: Seq<u8>| list_value(es, k))
}

/// With distinct keys, the entry at `i` decides membership and value of its key.
pub proof fn lemma_scalar_value_at(es: Seq<(Seq<u8>, Seq<u8>)>, k: Seq<u8>, i: int)
    requires
        distinct_keys(es),
        0 <= i < es.len(),
        es[i].0 == k,
    ensures
        scalar_contains(es, k),
        scalar_value(es, k) == es[i].1,
{
    assert(scalar_contains(es, k));
    let j = choose|j: int| 0 <= j < es.len() && (#[trigger] es[j]).0 == k;
    if j != i {
        if j < i {
            assert(es[j].0 != es[i].0);
        } else {
            assert(es[i].0 != es[j].0);
        }
    }
}

/// With distinct names, the entry at `i` decides membership and value of its name.
pub proof fn lemma_list_value_at(es: Seq<(Seq<u8>, Seq<Seq<u8>>)>, k: Seq<u8>, i: int)
    requires
        distinct_names(es),
        0 <= i < es.len(),
        es[i].0 == k,
    ensures
        list_contains(es, k),
        list_value(es, k) == es[i].1,
{
    assert(list_contains(es, k));
    let j = choose|j: int| 0 <= j < es.len() && (#[trigger] es[j]).0 == k;
    if j != i {
        if j < i {
            assert(es[j].0 != es[i].0);
        } else {
            assert(es[i].0 != es[j].0);
        }
    }
}

/// Overwriting the value at an existing key inserts into the induced map.
proof fn lemma_scalar_map_update(es: Seq<(Seq<u8>, Seq<u8>)>, i: int, v: Seq<u8>)
    requires
        distinct_keys(es),
        0 <= i < es.len(),
    ensures
        distinct_keys(es.update(i, (es[i].0, v))),
        scalar_map_of(es.update(i, (es[i].0, v))) == scalar_map_of(es).insert(es[i].0, v),
{
    let k = es[i].0;
    let new = es.update(i, (k, v));
    assert forall|p: int, q: int| 0 <= p < q < new.len() implies (#[trigger] new[p]).0 != (
    #[trigger] new[q]).0 by {
        assert(new[p].0 == es[p].0 && new[q].0 == es[q].0);
        assert(es[p].0 != es[q].0);
    }
    assert_maps_equal!(scalar_map_of(new), scalar_map_of(es).insert(k, v), x => {
        if x == k {
            lemma_scalar_value_at(new, k, i);
        } else {
            if scalar_contains(new, x) {
                let j = choose|j: int| 0 <= j < new.len() && (#[trigger] new[j]).0 == x;
                assert(es[j].0 == x);
                lemma_scalar_value_at(new, x, j);
                lemma_scalar_value_at(es, x, j);
            }
            if scalar_contains(es, x) {
                let j = choose|j: int| 0 <= j < es.len() && (#[trigger] es[j]).0 == x;
                assert(new[j].0 == x);
                lemma_scalar_value_at(new, x, j);
                lemma_scalar_value_at(es, x, j);
            }
        }
    });
}

/// Appending an entry with a fresh key inserts into the induced map.
proof fn lemma_scalar_map_push(es: Seq<(Seq<u8>, Seq<u8>)>, k: Seq<u8>, v: Seq<u8>)
    requires
        distinct_keys(es),
        forall|j: int| 0 <= j < es.len() ==> (#[trigger] es[j]).0 != k,
    ensures
        distinct_keys(es.push((k, v))),
        scalar_map_of(es.push((k, v))) == scalar_map_of(es).insert(k, v),
{
    let new = es.push((k, v));
    let n = es.len() as int;
    assert forall|p: int, q: int| 0 <= p < q < new.len() implies (#[trigger] new[p]).0 != (
    #[trigger] new[q]).0 by {
        if q < n {
            assert(new[p].0 == es[p].0 && new[q].0 == es[q].0);
            assert(es[p].0 != es[q].0);
        } else {
            assert(new[p].0 == es[p].0);
            assert(es[p].0 != k);
        }
    }
    assert_maps_equal!(scalar_map_of(new), scalar_map_of(es).insert(k, v), x => {
        if x == k {
            assert(new[n].0 == k);
            lemma_scalar_value_at(new, k, n);
        } else {
            if scalar_contains(new, x) {
                let j = choose|j: int| 0 <= j < new.len() && (#[trigger] new[j]).0 == x;
                assert(j < n);
                assert(es[j].0 == x);
                lemma_scalar_value_at(new, x, j);
                lemma_scalar_value_at(es, x, j);
            }
            if scalar_contains(es, x) {
                let j = choose|j: int| 0 <= j < es.len() && (#[trigger] es[j]).0 == x;
                assert(new[j].0 == x);
                lemma_scalar_value_at(new, x, j);
                lemma_scalar_value_at(es, x, j);
            }
        }
    });
}

/// Appending an entry with a fresh name inserts into the induced map.
proof fn lemma_list_map_push(es: Seq<(Seq<u8>, Seq<Seq<u8>>)>, k: Seq<u8>, vs: Seq<Seq<u8>>)
    requires
        distinct_names(es),
        forall|j: int| 0 <= j < es.len() ==> (#[trigger] es[j]).0 != k,
    ensures
        distinct_names(es.push((k, vs))),
        list_map_of(es.push((k, vs))) == list_map_of(es).insert(k, vs),
{
    let new = es.push((k, vs));
    let n = es.len() as int;
    assert forall|p: int, q: int| 0 <= p < q < new.len() implies (#[trigger] new[p]).0 != (
    #[trigger] new[q]).0 by {
        if q < n {
            assert(new[p].0 == es[p].0 && new[q].0 == es[q].0);
            assert(es[p].0 != es[q].0);
        } else {
            assert(new[p].0 == es[p].0);
            assert(es[p].0 != k);
        }
    }
    assert_maps_equal!(list_map_of(new), list_map_of(es).insert(k, vs), x => {
        if x == k {
            assert(new[n].0 == k);
            lemma_list_value_at(new, k, n);
        } else {
            if list_contains(new, x) {
                let j = choose|j: int| 0 <= j < new.len() && (#[trigger] new[j]).0 == x;
                assert(j < n);
                assert(es[j].0 == x);
                lemma_list_value_at(new, x, j);
                lemma_list_value_at(es, x, j);
            }
            if list_contains(es, x) {
                let j = choose|j: int| 0 <= j < es.len() && (#[trigger] es[j]).0 == x;
                assert(new[j].0 == x);
                lemma_list_value_at(new, x, j);
                lemma_list_value_at(es, x, j);
            }
        }
    });
}

/// Moving the entry at `i` to the back with `v` appended to its values
/// inserts the grown list into the induced map.
proof fn lemma_list_map_move_back(es: Seq<(Seq<u8>, Seq<Seq<u8>>)>, i: int, v: Seq<u8>)
    requires
        distinct_names(es),
        0 <= i < es.len(),
    ensures
        distinct_names(es.remove(i).push((es[i].0, es[i].1.push(v)))),
        list_map_of(es.remove(i).push((es[i].0, es[i].1.push(v)))) == list_map_of(es).insert(
            es[i].0,
            es[i].1.push(v),
        ),
{
    let k = es[i].0;
    let nvals = es[i].1.push(v);
    let rem = es.remove(i);
    assert forall|p: int, q: int| 0 <= p < q < rem.len() implies (#[trigger] rem[p]).0 != (
    #[trigger] rem[q]).0 by {
        let p0 = if p < i { p } else { p + 1 };
        let q0 = if q < i { q } else { q + 1 };
        assert(rem[p].0 == es[p0].0 && rem[q].0 == es[q0].0);
        assert(es[p0].0 != es[q0].0);
    }
    assert forall|j: int| 0 <= j < rem.len() implies (#[trigger] rem[j]).0 != k by {
        let j0 = if j < i { j } else { j + 1 };
        assert(rem[j].0 == es[j0].0);
        if j0 < i {
            assert(es[j0].0 != es[i].0);
        } else {
            assert(es[i].0 != es[j0].0);
        }
    }
    lemma_list_map_push(rem, k, nvals);
    assert_maps_equal!(list_map_of(rem).insert(k, nvals), list_map_of(es).insert(k, nvals), x => {
        if x != k {
            if list_contains(es, x) {
                let j = choose|j: int| 0 <= j < es.len() && (#[trigger] es[j]).0 == x;
                if j < i {
                    assert(rem[j].0 == x);
                    lemma_list_value_at(rem, x, j);
                } else {
                    assert(j != i);
                    assert(rem[j - 1].0 == x);
                    lemma_list_value_at(rem, x, j - 1);
                }
                lemma_list_value_at(es, x, j);
            }
            if list_contains(rem, x) {
                let j = choose|j: int| 0 <= j < rem.len() && (#[trigger] rem[j]).0 == x;
                let j0 = if j < i { j } else { j + 1 };
                assert(es[j0].0 == x);
                lemma_list_value_at(rem, x, j);
                lemma_list_value_at(es, x, j0);
            }
        }
    });
}

/// Whether two byte strings are equal.
fn bytes_eq(a: &Vec<u8>, b: &Vec<u8>) -> (r: bool)
    ensures
        r == (a@ == b@),
{
    if a.len() != b.len() {
        return false;
    }
    let mut i: usize = 0;
    while i < a.len()
        invariant
            a@.len() == b@.len(),
            i <= a.len(),
            forall|j: int| 0 <= j < i ==> a@[j] == b@[j],
        decreases a.len() - i,
    {
        if a[i] != b[i] {
            return false;
        }
        i += 1;
    }
    proof {
        assert(a@ =~= b@);
    }
    true
}

/// Whether the keys of the given scalar entries are pairwise distinct.
fn scalar_keys_distinct(es: &Vec<(Vec<u8>, Vec<u8>)>) -> (r: bool)
    ensures
        r == distinct_keys(pair_views(es@)),
{
    let ghost pv = pair_views(es@);
    let mut i: usize = 0;
    while i < es.len()
        invariant
            i <= es.len(),
            pv == pair_views(es@),
            forall|p: int, q: int|
                #![trigger pv[p], pv[q]]
                0 <= p < q < pv.len() && p < i ==> pv[p].0 != pv[q].0,
        decreases es.len() - i,
    {
        let mut j: usize = i + 1;
        while j < es.len()
            invariant
                i < j <= es.len(),
                i < es.len(),
                pv == pair_views(es@),
                forall|q: int| #![trigger pv[q]] i < q < j ==> pv[i as int].0 != pv[q].0,
            decreases es.len() - j,
        {
            if bytes_eq(&es[i].0, &es[j].0) {
                proof {
                    assert(pv[i as int].0 == pv[j as int].0);
                }
                return false;
            }
            proof {
                assert(pv[j as int].0 == es@[j as int].0@);
            }
            j += 1;
        }
        i += 1;
    }
    true
}

/// Whether the names of the given list entries are pairwise distinct.
fn list_names_distinct(es: &Vec<(Vec<u8>, Vec<Vec<u8>>)>) -> (r: bool)
    ensures
        r == distinct_names(list_pair_views(es@)),
{
    let ghost pv = list_pair_views(es@);
    let mut i: usize = 0;
    while i < es.len()
        invariant
            i <= es.len(),
            pv == list_pair_views(es@),
            forall|p: int, q: int|
                #![trigger pv[p], pv[q]]
                0 <= p < q < pv.len() && p < i ==> pv[p].0 != pv[q].0,
        decreases es.len() - i,
    {
        let mut j: usize = i + 1;
        while j < es.len()
            invariant
                i < j <= es.len(),
                i < es.len(),
                pv == list_pair_views(es@),
                forall|q: int| #![trigger pv[q]] i < q < j ==> pv[i as int].0 != pv[q].0,
            decreases es.len() - j,
        {
            if bytes_eq(&es[i].0, &es[j].0) {
                proof {
                    assert(pv[i as int].0 == pv[j as int].0);
                }
                return false;
            }
            proof {
                assert(pv[j as int].0 == es@[j as int].0@);
            }
            j += 1;
        }
        i += 1;
    }
    true
}

/// The bytes of an optional backing file.
pub open spec fn opt_bytes(file: Option<Vec<u8>>) -> Option<Seq<u8>> {
    match file {
        Some(v) => Some(v@),
        None => None,
    }
}

/// The sequence a list holds after one more value: grown by one element, or
/// begun with it where the name was absent.
pub open spec fn appended(m: Map<Seq<u8>, Seq<Seq<u8>>>, name: Seq<u8>, v: Seq<u8>) -> Seq<
    Seq<u8>,
> {
    if m.contains_key(name) {
        m[name].push(v)
    } else {
        seq![v]
    }
}

/// The persistent store: a scalar map and a list map, each kept as an
/// association vector with pairwise-distinct keys.
pub struct InMemoryStore {
    kv: Vec<(Vec<u8>, Vec<u8>)>,
    lists: Vec<(Vec<u8>, Vec<Vec<u8>>)>,
}

impl InMemoryStore {
    /// The scalar entries, in storage order.
    pub closed spec fn scalar_entries(&self) -> Seq<(Seq<u8>, Seq<u8>)> {
        pair_views(self.kv@)
    }

    /// The list entries, in storage order.
    pub closed spec fn list_entries(&self) -> Seq<(Seq<u8>, Seq<Seq<u8>>)> {
        list_pair_views(self.lists@)
    }

    /// Both containers carry pairwise-distinct keys.
    pub open spec fn wf(&self) -> bool {
        distinct_keys(self.scalar_entries()) && distinct_names(self.list_entries())
    }

    /// The scalar map the store holds.
    pub open spec fn scalar_map(&self) -> Map<Seq<u8>, Seq<u8>> {
        scalar_map_of(self.scalar_entries())
    }

    /// The list map the store holds.
    pub open spec fn list_map(&self) -> Map<Seq<u8>, Seq<Seq<u8>>> {
        list_map_of(self.list_entries())
    }

    /// Builds the store from the bytes of the two backing files, if present.
    /// A missing, undecodable or duplicate-keyed document leaves its
    /// container empty; the other container is unaffected. Never fails.
    pub fn new(kv_file: Option<Vec<u8>>, list_file: Option<Vec<u8>>) -> (r: Self)
        ensures
            r.wf(),
            r.scalar_entries() == loaded_scalar(opt_bytes(kv_file)),
            r.list_entries() == loaded_lists(opt_bytes(list_file)),
    {
        let mut kv: Vec<(Vec<u8>, Vec<u8>)> = Vec::new();
        proof {
            assert(pair_views(kv@) =~= Seq::<(Seq<u8>, Seq<u8>)>::empty());
        }
        match kv_file {
            None => {},
            Some(bytes) => {
                match decode_scalar_doc(&bytes) {
                    Some(es) => {
                        if scalar_keys_distinct(&es) {
                            kv = es;
                        }
                    },
                    None => {},
                }
            },
        }
        let mut lists: Vec<(Vec<u8>, Vec<Vec<u8>>)> = Vec::new();
        proof {
            assert(list_pair_views(lists@) =~= Seq::<(Seq<u8>, Seq<Seq<u8>>)>::empty());
        }
        match list_file {
            None => {},
            Some(bytes) => {
                match decode_list_doc(&bytes) {
                    Some(es) => {
                        if list_names_distinct(&es) {
                            lists = es;
                        }
                    },
                    None => {},
                }
            },
        }
        InMemoryStore { kv, lists }
    }

    /// Binds `key` to `value` in the scalar map, overwriting any previous
    /// binding. The list map is untouched.
    pub fn set(&mut self, key: &str, value: &str)
        requires
            old(self).wf(),
            key@.len() != 0,
            value@.len() != 0,
        ensures
            final(self).wf(),
            final(self).scalar_map() == old(self).scalar_map().insert(
                key.spec_bytes(),
                value.spec_bytes(),
            ),
            final(self).list_entries() == old(self).list_entries(),
    {
        let kb = key.as_bytes_vec();
        let vb = value.as_bytes_vec();
        let ghost old_pv = pair_views(self.kv@);
        let mut i: usize = 0;
        while i < self.kv.len()
            invariant
                i <= self.kv.len(),
                self.kv@ == old(self).kv@,
                self.lists@ == old(self).lists@,
                old_pv == pair_views(self.kv@),
                distinct_keys(old_pv),
                distinct_names(list_pair_views(self.lists@)),
                kb@ == key.spec_bytes(),
                vb@ == value.spec_bytes(),
                forall|j: int| #![trigger old_pv[j]] 0 <= j < i ==> old_pv[j].0 != kb@,
            decreases self.kv.len() - i,
        {
            if bytes_eq(&self.kv[i].0, &kb) {
                proof {
                    assert(old_pv[i as int].0 == kb@);
                }
                let _replaced = self.kv.remove(i);
                self.kv.insert(i, (kb, vb));
                proof {
                    assert(self.kv@ =~= old(self).kv@.update(i as int, (kb, vb)));
                    assert(pair_views(self.kv@) =~= old_pv.update(i as int, (kb@, vb@)));
                    lemma_scalar_map_update(old_pv, i as int, vb@);
                    assert((old_pv[i as int].0, vb@) == (kb@, vb@));
                }
                return;
            }
            proof {
                assert(old_pv[i as int].0 == self.kv@[i as int].0@);
            }
            i += 1;
        }
        self.kv.push((kb, vb));
        proof {
            assert(pair_views(self.kv@) =~= old_pv.push((kb@, vb@)));
            lemma_scalar_map_push(old_pv, kb@, vb@);
        }
    }

    /// Appends `value` at the end of the named list, creating the list where
    /// the name was absent. No other list, and no scalar entry, changes.
    pub fn append(&mut self, list: &str, value: &str)
        requires
            old(self).wf(),
            list@.len() != 0,
            value@.len() != 0,
        ensures
            final(self).wf(),
            final(self).scalar_entries() == old(self).scalar_entries(),
            final(self).list_map() == old(self).list_map().insert(
                list.spec_bytes(),
                appended(old(self).list_map(), list.spec_bytes(), value.spec_bytes()),
            ),
            forall|b: Seq<u8>|
                b != list.spec_bytes() ==> #[trigger] final(self).list_map().contains_key(b)
                    == old(self).list_map().contains_key(b),
            forall|b: Seq<u8>|
                b != list.spec_bytes() && old(self).list_map().contains_key(b)
                    ==> #[trigger] final(self).list_map()[b] == old(self).list_map()[b],
    {
        let nb = list.as_bytes_vec();
        let vb = value.as_bytes_vec();
        let ghost old_lv = list_pair_views(self.lists@);
        let mut i: usize = 0;
        while i < self.lists.len()
            invariant
                i <= self.lists.len(),
                self.kv@ == old(self).kv@,
                self.lists@ == old(self).lists@,
                old_lv == list_pair_views(self.lists@),
                distinct_names(old_lv),
                distinct_keys(pair_views(self.kv@)),
                nb@ == list.spec_bytes(),
                vb@ == value.spec_bytes(),
                forall|j: int| #![trigger old_lv[j]] 0 <= j < i ==> old_lv[j].0 != nb@,
            decreases self.lists.len() - i,
        {
            if bytes_eq(&self.lists[i].0, &nb) {
                proof {
                    assert(old_lv[i as int].0 == nb@);
                    assert(old_lv[i as int].1 == vec_views(self.lists@[i as int].1@));
                }
                let (name, mut vals) = self.lists.remove(i);
                vals.push(vb);
                proof {
                    assert(vec_views(vals@) =~= old_lv[i as int].1.push(vb@));
                }
                self.lists.push((name, vals));
                proof {
                    assert(list_pair_views(self.lists@) =~= old_lv.remove(i as int).push(
                        (old_lv[i as int].0, old_lv[i as int].1.push(vb@)),
                    ));
                    lemma_list_map_move_back(old_lv, i as int, vb@);
                    lemma_list_value_at(old_lv, nb@, i as int);
                }
                return;
            }
            proof {
                assert(old_lv[i as int].0 == self.lists@[i as int].0@);
            }
            i += 1;
        }
        let mut vals: Vec<Vec<u8>> = Vec::new();
        vals.push(vb);
        proof {
            assert(vec_views(vals@) =~= seq![value.spec_bytes()]);
        }
        self.lists.push((nb, vals));
        proof {
            assert(list_pair_views(self.lists@) =~= old_lv.push(
                (nb@, seq![value.spec_bytes()]),
            ));
            lemma_list_map_push(old_lv, nb@, seq![value.spec_bytes()]);
            if list_contains(old_lv, nb@) {
                let j = choose|j: int| 0 <= j < old_lv.len() && (#[trigger] old_lv[j]).0 == nb@;
                assert(old_lv[j].0 != nb@);
            }
        }
    }

    /// The current snapshot, for rendering: both containers as they stand.
    pub fn display(&self) -> (r: (&Vec<(Vec<u8>, Vec<u8>)>, &Vec<(Vec<u8>, Vec<Vec<u8>>)>))
        ensures
            pair_views(r.0@) == self.scalar_entries(),
            list_pair_views(r.1@) == self.list_entries(),
    {
        (&self.kv, &self.lists)
    }

    /// The value bound to `key` in the scalar map, if any.
    pub fn get_scalar(&self, key: &str) -> (r: Option<&Vec<u8>>)
        requires
            self.wf(),
        ensures
            match r {
                Some(v) => self.scalar_map().contains_key(key.spec_bytes()) && v@
                    == self.scalar_map()[key.spec_bytes()],
                None => !self.scalar_map().contains_key(key.spec_bytes()),
            },
    {
        let kb = key.as_bytes_vec();
        let ghost pv = pair_views(self.kv@);
        let mut i: usize = 0;
        while i < self.kv.len()
            invariant
                i <= self.kv.len(),
                pv == pair_views(self.kv@),
                kb@ == key.spec_bytes(),
                self.wf(),
                forall|j: int| #![trigger pv[j]] 0 <= j < i ==> pv[j].0 != kb@,
            decreases self.kv.len() - i,
        {
            if bytes_eq(&self.kv[i].0, &kb) {
                proof {
                    assert(pv[i as int].0 == kb@);
                    lemma_scalar_value_at(pv, kb@, i as int);
                    assert(pv[i as int].1 == self.kv@[i as int].1@);
                }
                return Some(&self.kv[i].1);
            }
            proof {
                assert(pv[i as int].0 == self.kv@[i as int].0@);
            }
            i += 1;
        }
        proof {
            if scalar_contains(pv, kb@) {
                let j = choose|j: int| 0 <= j < pv.len() && (#[trigger] pv[j]).0 == kb@;
                assert(pv[j].0 != kb@);
            }
        }
        None
    }

    /// The values of the named list, if the name is bound.
    pub fn get_list(&self, name: &str) -> (r: Option<&Vec<Vec<u8>>>)
        requires
            self.wf(),
        ensures
            match r {
                Some(v) => self.list_map().contains_key(name.spec_bytes()) && vec_views(v@)
                    == self.list_map()[name.spec_bytes()],
                None => !self.list_map().contains_key(name.spec_bytes()),
            },
    {
        let nb = name.as_bytes_vec();
        let ghost pv = list_pair_views(self.lists@);
        let mut i: usize = 0;
        while i < self.lists.len()
            invariant
                i <= self.lists.len(),
                pv == list_pair_views(self.lists@),
                nb@ == name.spec_bytes(),
                self.wf(),
                forall|j: int| #![trigger pv[j]] 0 <= j < i ==> pv[j].0 != nb@,
            decreases self.lists.len() - i,
        {
            if bytes_eq(&self.lists[i].0, &nb) {
                proof {
                    assert(pv[i as int].0 == nb@);
                    lemma_list_value_at(pv, nb@, i as int);
                    assert(pv[i as int].1 == vec_views(self.lists@[i as int].1@));
                }
                return Some(&self.lists[i].1);
            }
            proof {
                assert(pv[i as int].0 == self.lists@[i as int].0@);
            }
            i += 1;
        }
        proof {
            if list_contains(pv, nb@) {
                let j = choose|j: int| 0 <= j < pv.len() && (#[trigger] pv[j]).0 == nb@;
                assert(pv[j].0 != nb@);
            }
        }
        None
    }

    /// The scalar-map document to be written back: a complete encoding of the
    /// container, and one that decodes to exactly the entries it holds.
    pub fn serialize_kv(&self) -> (r: Vec<u8>)
        ensures
            r@ == enc_scalar_doc(self.scalar_entries()),
            parse_scalar_doc(r@) == Some(self.scalar_entries()),
    {
        let out = encode_scalar_doc(&self.kv);
        proof {
            lemma_scalar_round_trip(self.scalar_entries());
        }
        out
    }

    /// The list-map document to be written back, under the same guarantee.
    pub fn serialize_lists(&self) -> (r: Vec<u8>)
        ensures
            r@ == enc_list_doc(self.list_entries()),
            parse_list_doc(r@) == Some(self.list_entries()),
    {
        let out = encode_list_doc(&self.lists);
        proof {
            lemma_list_round_trip(self.list_entries());
        }
        out
    }
}

/// Writing a store out and loading the two documents afresh yields back
/// exactly the entries it held: the scalar map with the last value set per
/// key, and every list with its values in append order.
pub proof fn lemma_store_round_trip(s: &InMemoryStore)
    requires
        s.wf(),
    ensures
        loaded_scalar(Some(enc_scalar_doc(s.scalar_entries()))) == s.scalar_entries(),
        loaded_lists(Some(enc_list_doc(s.list_entries()))) == s.list_entries(),
{
    lemma_scalar_round_trip(s.scalar_entries());
    lemma_list_round_trip(s.list_entries());
}

} // verus!

