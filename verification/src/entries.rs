//! The in-memory form of the secret blob: an association list from registry
//! URL to the serialized credential record stored under it, keys unique,
//! insertion order kept. The spec model is a sequence of pairs of character
//! sequences, with first-match lookup.

use vstd::prelude::*;
use vstd::string::StrSliceExecFns;

verus! {

/// The serialized record stored under one registry URL.
#[derive(Debug, PartialEq, Eq)]
pub(crate) struct Entry {
    pub(crate) key: String,
    pub(crate) value: String,
}

/// First-match lookup in a member list.
pub open spec fn lookup<V>(es: Seq<(Seq<char>, V)>, k: Seq<char>) -> Option<V>
    decreases es.len(),
{
    if es.len() == 0 {
        None
    } else if es[0].0 == k {
        Some(es[0].1)
    } else {
        lookup(es.drop_first(), k)
    }
}

/// How many members carry the key `k`.
pub open spec fn count_key<V>(es: Seq<(Seq<char>, V)>, k: Seq<char>) -> nat
    decreases es.len(),
{
    if es.len() == 0 {
        0
    } else {
        (if es[0].0 == k {
            1nat
        } else {
            0nat
        }) + count_key(es.drop_first(), k)
    }
}

/// Last-writer-wins insertion: replaces the value in place where the key is
/// present, appends at the end where it is not.
pub open spec fn insert_entry(
    es: Seq<(Seq<char>, Seq<char>)>,
    k: Seq<char>,
    v: Seq<char>,
) -> Seq<(Seq<char>, Seq<char>)>
    decreases es.len(),
{
    if es.len() == 0 {
        seq![(k, v)]
    } else if es[0].0 == k {
        seq![(k, v)] + es.drop_first()
    } else {
        seq![es[0]] + insert_entry(es.drop_first(), k, v)
    }
}

/// The member list without any member keyed `k`; order of the rest kept.
pub open spec fn remove_key(es: Seq<(Seq<char>, Seq<char>)>, k: Seq<char>) -> Seq<
    (Seq<char>, Seq<char>),
>
    decreases es.len(),
{
    if es.len() == 0 {
        Seq::empty()
    } else if es[0].0 == k {
        remove_key(es.drop_first(), k)
    } else {
        seq![es[0]] + remove_key(es.drop_first(), k)
    }
}

/// No two members share a key.
pub open spec fn distinct_keys(es: Seq<(Seq<char>, Seq<char>)>) -> bool {
    forall|p: int, q: int| 0 <= p < q < es.len() ==> es[p].0 != es[q].0
}

/// Inserting a fresh key appends the member at the end.
pub proof fn lemma_insert_entry_absent(es: Seq<(Seq<char>, Seq<char>)>, k: Seq<char>, v: Seq<char>)
    requires
        forall|j: int| 0 <= j < es.len() ==> (#[trigger] es[j]).0 != k,
    ensures
        insert_entry(es, k, v) == es.push((k, v)),
    decreases es.len(),
{
    if es.len() == 0 {
        assert(seq![(k, v)] =~= es.push((k, v)));
    } else {
        assert(forall|j: int|
            0 <= j < es.drop_first().len() ==> (#[trigger] es.drop_first()[j]).0 != k);
        lemma_insert_entry_absent(es.drop_first(), k, v);
        assert(seq![es[0]] + es.drop_first().push((k, v)) =~= es.push((k, v)));
    }
}

/// Inserting a key that stands at position `i` (and nowhere earlier)
/// replaces the value at that position.
pub proof fn lemma_insert_entry_found(
    es: Seq<(Seq<char>, Seq<char>)>,
    k: Seq<char>,
    v: Seq<char>,
    i: int,
)
    requires
        0 <= i < es.len(),
        es[i].0 == k,
        forall|j: int| 0 <= j < i ==> (#[trigger] es[j]).0 != k,
    ensures
        insert_entry(es, k, v) == es.update(i, (k, v)),
    decreases es.len(),
{
    if i == 0 {
        assert(seq![(k, v)] + es.drop_first() =~= es.update(0, (k, v)));
    } else {
        assert(es.drop_first()[i - 1].0 == k);
        assert(forall|j: int| 0 <= j < i - 1 ==> (#[trigger] es.drop_first()[j]).0 != k);
        lemma_insert_entry_found(es.drop_first(), k, v, i - 1);
        assert(seq![es[0]] + es.drop_first().update(i - 1, (k, v)) =~= es.update(i, (k, v)));
    }
}

/// What lookup finds after an insertion: the new value under the inserted
/// key, everything else untouched.
pub proof fn lemma_lookup_insert(
    es: Seq<(Seq<char>, Seq<char>)>,
    k: Seq<char>,
    v: Seq<char>,
    k2: Seq<char>,
)
    ensures
        lookup(insert_entry(es, k, v), k2) == if k2 == k {
            Some(v)
        } else {
            lookup(es, k2)
        },
    decreases es.len(),
{
    if es.len() == 0 {
        let r = seq![(k, v)];
        assert(insert_entry(es, k, v) == r);
        assert(r[0] == (k, v));
        assert(r.drop_first() =~= Seq::<(Seq<char>, Seq<char>)>::empty());
        assert(lookup(Seq::<(Seq<char>, Seq<char>)>::empty(), k2) is None);
        assert(lookup(r, k2) == if k2 == k { Some(v) } else { lookup(es, k2) });
    } else if es[0].0 == k {
        let r = seq![(k, v)] + es.drop_first();
        assert(insert_entry(es, k, v) == r);
        assert(r[0] == (k, v));
        assert(r.drop_first() =~= es.drop_first());
        assert(lookup(r, k2) == if k2 == k { Some(v) } else { lookup(es, k2) });
    } else {
        let r = seq![es[0]] + insert_entry(es.drop_first(), k, v);
        assert(insert_entry(es, k, v) == r);
        assert(r[0] == es[0]);
        assert(r.drop_first() =~= insert_entry(es.drop_first(), k, v));
        lemma_lookup_insert(es.drop_first(), k, v, k2);
        assert(lookup(r, k2) == if k2 == k { Some(v) } else { lookup(es, k2) });
    }
}

/// Removing a key leaves the rest of the map as it was, and the key gone.
pub proof fn lemma_lookup_remove(es: Seq<(Seq<char>, Seq<char>)>, k: Seq<char>, k2: Seq<char>)
    ensures
        lookup(remove_key(es, k), k2) == if k2 == k {
            None::<Seq<char>>
        } else {
            lookup(es, k2)
        },
    decreases es.len(),
{
    if es.len() == 0 {
    } else if es[0].0 == k {
        lemma_lookup_remove(es.drop_first(), k, k2);
    } else {
        let r = seq![es[0]] + remove_key(es.drop_first(), k);
        assert(r[0] == es[0]);
        assert(r.drop_first() =~= remove_key(es.drop_first(), k));
        lemma_lookup_remove(es.drop_first(), k, k2);
    }
}

/// Removing a key that no member carries changes nothing.
pub proof fn lemma_remove_key_absent(es: Seq<(Seq<char>, Seq<char>)>, k: Seq<char>)
    requires
        forall|j: int| 0 <= j < es.len() ==> (#[trigger] es[j]).0 != k,
    ensures
        remove_key(es, k) == es,
    decreases es.len(),
{
    if es.len() > 0 {
        assert(forall|j: int|
            0 <= j < es.drop_first().len() ==> (#[trigger] es.drop_first()[j]).0 != k);
        lemma_remove_key_absent(es.drop_first(), k);
        assert(seq![es[0]] + es.drop_first() =~= es);
    }
}

/// When the key stands only at position `i`, removing it removes exactly
/// that member.
pub proof fn lemma_remove_key_at(es: Seq<(Seq<char>, Seq<char>)>, k: Seq<char>, i: int)
    requires
        0 <= i < es.len(),
        es[i].0 == k,
        forall|j: int| 0 <= j < es.len() && j != i ==> (#[trigger] es[j]).0 != k,
    ensures
        remove_key(es, k) == es.remove(i),
    decreases es.len(),
{
    if i == 0 {
        assert(forall|j: int|
            0 <= j < es.drop_first().len() ==> (#[trigger] es.drop_first()[j]).0 != k);
        lemma_remove_key_absent(es.drop_first(), k);
        assert(es.drop_first() =~= es.remove(0));
    } else {
        assert(es.drop_first()[i - 1].0 == k);
        assert(forall|j: int|
            0 <= j < es.drop_first().len() && j != i - 1 ==> (#[trigger] es.drop_first()[j]).0
                != k);
        lemma_remove_key_at(es.drop_first(), k, i - 1);
        assert(seq![es[0]] + es.drop_first().remove(i - 1) =~= es.remove(i));
    }
}

/// Character-for-character equality of two string slices.
pub fn str_eq(a: &str, b: &str) -> (r: bool)
    ensures
        r == (a@ == b@),
{
    let na = a.unicode_len();
    let nb = b.unicode_len();
    if na != nb {
        return false;
    }
    let mut i: usize = 0;
    while i < na
        invariant
            na as nat == a@.len(),
            nb as nat == b@.len(),
            na == nb,
            i <= na,
            forall|j: int| 0 <= j < i ==> a@[j] == b@[j],
        decreases na - i,
    {
        if a.get_char(i) != b.get_char(i) {
            return false;
        }
        i += 1;
    }
    proof {
        assert(a@ =~= b@);
    }
    true
}

/// The decoded secret map: registry URL to serialized record, keys unique,
/// order kept as decoded or inserted.
#[derive(Debug, PartialEq, Eq)]
pub struct SecretMap {
    entries: Vec<Entry>,
}

impl SecretMap {
    /// The member list the map holds, as character sequences.
    pub closed spec fn entries_view(&self) -> Seq<(Seq<char>, Seq<char>)> {
        self.entries@.map_values(|e: Entry| (e.key@, e.value@))
    }

    /// Key uniqueness: the one invariant every operation preserves.
    pub open spec fn wf(&self) -> bool {
        distinct_keys(self.entries_view())
    }

    /// The serialized record stored under `url`, if any.
    pub open spec fn spec_lookup(&self, url: Seq<char>) -> Option<Seq<char>> {
        lookup(self.entries_view(), url)
    }

    /// An empty map.
    pub fn new() -> (m: SecretMap)
        ensures
            m.wf(),
            m.entries_view() == Seq::<(Seq<char>, Seq<char>)>::empty(),
    {
        let m = SecretMap { entries: Vec::new() };
        proof {
            assert(m.entries_view() =~= Seq::<(Seq<char>, Seq<char>)>::empty());
        }
        m
    }

    /// How many registries the map holds.
    pub fn len(&self) -> (n: usize)
        ensures
            n as nat == self.entries_view().len(),
    {
        self.entries.len()
    }

    /// A copy of the entry at position `i`: the URL and the serialized
    /// record stored under it.
    pub fn entry_at(&self, i: usize) -> (r: (String, String))
        requires
            i < self.entries_view().len(),
        ensures
            r.0@ == self.entries_view()[i as int].0,
            r.1@ == self.entries_view()[i as int].1,
    {
        let e = &self.entries[i];
        (e.key.clone(), e.value.clone())
    }

    /// A copy of the serialized record stored under `url`, if any.
    pub fn lookup(&self, url: &str) -> (r: Option<String>)
        ensures
            (r is Some) == (self.spec_lookup(url@) is Some),
            r is Some ==> r->0@ == self.spec_lookup(url@)->0,
    {
        let n = self.entries.len();
        proof {
            assert(self.entries_view().skip(0) =~= self.entries_view());
        }
        let mut i: usize = 0;
        while i < n
            invariant
                n == self.entries.len(),
                i <= n,
                lookup(self.entries_view().skip(i as int), url@) == lookup(
                    self.entries_view(),
                    url@,
                ),
            decreases n - i,
        {
            let ghost suf = self.entries_view().skip(i as int);
            proof {
                assert(suf[0] == self.entries_view()[i as int]);
                assert(suf.drop_first() =~= self.entries_view().skip(i as int + 1));
            }
            if str_eq(self.entries[i].key.as_str(), url) {
                return Some(self.entries[i].value.clone());
            }
            i += 1;
        }
        proof {
            assert(self.entries_view().skip(n as int) =~= Seq::<(Seq<char>, Seq<char>)>::empty());
        }
        None
    }

    /// Stores `value` under `url`: replaces in place where the URL is known,
    /// appends where it is new.
    pub fn insert(&mut self, url: &str, value: String)
        requires
            old(self).wf(),
        ensures
            final(self).wf(),
            final(self).entries_view() == insert_entry(old(self).entries_view(), url@, value@),
    {
        let ghost old_view = self.entries_view();
        let n = self.entries.len();
        let mut i: usize = 0;
        while i < n
            invariant
                n == self.entries.len(),
                i <= n,
                self.entries@ == old(self).entries@,
                old_view == old(self).entries_view(),
                distinct_keys(old_view),
                forall|j: int| 0 <= j < i ==> (#[trigger] old(self).entries_view()[j]).0 != url@,
            decreases n - i,
        {
            if str_eq(self.entries[i].key.as_str(), url) {
                let old_e = self.entries.remove(i);
                self.entries.insert(i, Entry { key: old_e.key, value });
                proof {
                    lemma_insert_entry_found(old_view, url@, value@, i as int);
                    assert(self.entries_view() =~= old_view.update(i as int, (url@, value@)));
                    assert(forall|j: int|
                        0 <= j < old_view.len() ==> (#[trigger] self.entries_view()[j]).0
                            == old_view[j].0);
                }
                return ;
            }
            i += 1;
        }
        self.entries.push(Entry { key: url.to_owned(), value });
        proof {
            lemma_insert_entry_absent(old_view, url@, value@);
            assert(self.entries_view() =~= old_view.push((url@, value@)));
        }
    }

    /// Drops the entry stored under `url`. Returns whether one was there.
    pub fn remove(&mut self, url: &str) -> (found: bool)
        requires
            old(self).wf(),
        ensures
            final(self).wf(),
            found == (old(self).spec_lookup(url@) is Some),
            final(self).entries_view() == remove_key(old(self).entries_view(), url@),
    {
        let ghost old_view = self.entries_view();
        let n = self.entries.len();
        proof {
            assert(old_view.skip(0) =~= old_view);
        }
        let mut i: usize = 0;
        while i < n
            invariant
                n == self.entries.len(),
                i <= n,
                self.entries@ == old(self).entries@,
                old_view == old(self).entries_view(),
                distinct_keys(old_view),
                lookup(old_view.skip(i as int), url@) == lookup(old_view, url@),
                forall|j: int| 0 <= j < i ==> (#[trigger] old_view[j]).0 != url@,
            decreases n - i,
        {
            let ghost suf = old_view.skip(i as int);
            proof {
                assert(suf[0] == old_view[i as int]);
                assert(suf.drop_first() =~= old_view.skip(i as int + 1));
            }
            if str_eq(self.entries[i].key.as_str(), url) {
                self.entries.remove(i);
                proof {
                    assert forall|j: int| 0 <= j < old_view.len() && j != i implies (
                    #[trigger] old_view[j]).0 != url@ by {
                        if j < i {
                        } else {
                            assert(old_view[i as int].0 != old_view[j].0);
                        }
                    }
                    lemma_remove_key_at(old_view, url@, i as int);
                    assert(self.entries_view() =~= old_view.remove(i as int));
                    let nv = self.entries_view();
                    assert(forall|j: int|
                        0 <= j < nv.len() ==> (#[trigger] nv[j]) == old_view[if j < i {
                            j
                        } else {
                            j + 1
                        }]);
                    assert forall|p: int, q: int| 0 <= p < q < nv.len() implies nv[p].0 != nv[q].0 by {
                        let p2: int = if p < i { p } else { p + 1 };
                        let q2: int = if q < i { q } else { q + 1 };
                        assert(old_view[p2].0 != old_view[q2].0);
                    }
                }
                return true;
            }
            i += 1;
        }
        proof {
            assert(old_view.skip(n as int) =~= Seq::<(Seq<char>, Seq<char>)>::empty());
            lemma_remove_key_absent(old_view, url@);
        }
        false
    }
}

} // verus!
