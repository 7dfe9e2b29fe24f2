//! A scope of the configuration store: a mapping from dotted keys to values.

use crate::error::RegistryError;
use crate::text::{has_prefix, keys_of, str_eq, texts};
use vstd::prelude::*;

verus! {

/// Whether `entries` lists the mapping `m`: every pair of `m` once, no other
/// pair, no key twice.
pub open spec fn enumerates(
    entries: Seq<(Seq<char>, Seq<char>)>,
    m: Map<Seq<char>, Seq<char>>,
) -> bool {
    &&& forall|i: int, j: int|
        0 <= i < j < entries.len() ==> (#[trigger] entries[i]).0 != (#[trigger] entries[j]).0
    &&& forall|i: int|
        0 <= i < entries.len() ==> m.contains_pair((#[trigger] entries[i]).0, entries[i].1)
    &&& forall|k: Seq<char>|
        m.contains_key(k) ==> exists|i: int|
            0 <= i < entries.len() && (#[trigger] entries[i]).0 == k
}

/// The part of `m` whose keys start with `prefix`; all of `m` without one.
pub open spec fn under(m: Map<Seq<char>, Seq<char>>, prefix: Option<Seq<char>>) -> Map<
    Seq<char>,
    Seq<char>,
> {
    match prefix {
        Some(p) => m.restrict(Set::new(|k: Seq<char>| p.is_prefix_of(k))),
        None => m,
    }
}

/// `m` after each pair is written in turn: a later pair overwrites an earlier
/// one of the same key.
pub open spec fn written(
    m: Map<Seq<char>, Seq<char>>,
    pairs: Seq<(Seq<char>, Seq<char>)>,
) -> Map<Seq<char>, Seq<char>>
    decreases pairs.len(),
{
    if pairs.len() == 0 {
        m
    } else {
        written(m, pairs.drop_last()).insert(pairs.last().0, pairs.last().1)
    }
}

/// One scope of the store, held in memory: the entries of a configuration
/// file as a mapping from key to value.
#[derive(Debug)]
pub struct Config {
    entries: Vec<(String, String)>,
}

/// The mapping that entries with distinct names stand for.
spec fn mapping(entries: Seq<(Seq<char>, Seq<char>)>) -> Map<Seq<char>, Seq<char>> {
    Map::new(
        |k: Seq<char>| keys_of(entries).contains(k),
        |k: Seq<char>| entries[keys_of(entries).index_of(k)].1,
    )
}

/// Entries with distinct names list their mapping.
proof fn lemma_mapping_enumerates(entries: Seq<(Seq<char>, Seq<char>)>)
    requires
        keys_of(entries).no_duplicates(),
    ensures
        enumerates(entries, mapping(entries)),
{
    let all = keys_of(entries);
    let m = mapping(entries);
    assert forall|i: int, j: int| 0 <= i < j < entries.len() implies (#[trigger] entries[i]).0 != (
    #[trigger] entries[j]).0 by {
        assert(all[i] == entries[i].0 && all[j] == entries[j].0);
    }
    assert forall|i: int| 0 <= i < entries.len() implies m.contains_pair(
        (#[trigger] entries[i]).0,
        entries[i].1,
    ) by {
        assert(all[i] == entries[i].0);
        assert(all.contains(entries[i].0));
        let at = all.index_of(entries[i].0);
        assert(all[at] == all[i]);
    }
    assert forall|k: Seq<char>| m.contains_key(k) implies exists|i: int|
        0 <= i < entries.len() && (#[trigger] entries[i]).0 == k by {
        let at = all.index_of(k);
        assert(entries[at].0 == k);
    }
}

/// Entries list one mapping only.
proof fn lemma_enumerates_one(
    entries: Seq<(Seq<char>, Seq<char>)>,
    m: Map<Seq<char>, Seq<char>>,
    n: Map<Seq<char>, Seq<char>>,
)
    requires
        enumerates(entries, m),
        enumerates(entries, n),
    ensures
        m == n,
{
    assert forall|k: Seq<char>| m.contains_key(k) implies n.contains_key(k) && n[k] == m[k] by {
        let i = choose|i: int| 0 <= i < entries.len() && (#[trigger] entries[i]).0 == k;
        assert(n.contains_pair(entries[i].0, entries[i].1));
        assert(m.contains_pair(entries[i].0, entries[i].1));
    }
    assert forall|k: Seq<char>| n.contains_key(k) implies m.contains_key(k) by {
        let i = choose|i: int| 0 <= i < entries.len() && (#[trigger] entries[i]).0 == k;
        assert(m.contains_pair(entries[i].0, entries[i].1));
    }
    assert(m =~= n);
}

/// Entries that list a mapping have distinct names and stand for it.
proof fn lemma_enumerates_mapping(
    entries: Seq<(Seq<char>, Seq<char>)>,
    m: Map<Seq<char>, Seq<char>>,
)
    requires
        enumerates(entries, m),
    ensures
        keys_of(entries).no_duplicates(),
        mapping(entries) == m,
{
    let all = keys_of(entries);
    assert forall|i: int, j: int| 0 <= i < all.len() && 0 <= j < all.len() && i != j implies all[i]
        != all[j] by {
        assert(all[i] == entries[i].0 && all[j] == entries[j].0);
        if i < j {
            assert(entries[i].0 != entries[j].0);
        } else {
            assert(entries[j].0 != entries[i].0);
        }
    }
    lemma_mapping_enumerates(entries);
    lemma_enumerates_one(entries, mapping(entries), m);
}

/// Filtering a sequence that grew by one item.
pub proof fn lemma_filter_push<A>(s: Seq<A>, x: A, keep: spec_fn(A) -> bool)
    ensures
        s.push(x).filter(keep) == if keep(x) {
            s.filter(keep).push(x)
        } else {
            s.filter(keep)
        },
{
    reveal(Seq::filter);
    assert(s.push(x).drop_last() =~= s);
}

/// A filter that everything passes keeps a sequence as it is.
pub proof fn lemma_filter_all<A>(s: Seq<A>, keep: spec_fn(A) -> bool)
    requires
        forall|x: A| #[trigger] keep(x),
    ensures
        s.filter(keep) == s,
    decreases s.len(),
{
    reveal(Seq::filter);
    if s.len() > 0 {
        lemma_filter_all(s.drop_last(), keep);
        assert(s.drop_last().push(s.last()) =~= s);
    }
}

/// Filtering keeps a sequence free of duplicates, and keeps exactly the
/// items that pass.
pub proof fn lemma_filter_distinct<A>(s: Seq<A>, keep: spec_fn(A) -> bool)
    requires
        s.no_duplicates(),
    ensures
        s.filter(keep).no_duplicates(),
        forall|x: A| #[trigger] s.filter(keep).contains(x) <==> s.contains(x) && keep(x),
    decreases s.len(),
{
    reveal(Seq::filter);
    if s.len() > 0 {
        let init = s.drop_last();
        let last = s.last();
        lemma_filter_distinct(init, keep);
        let sub = init.filter(keep);
        let out = s.filter(keep);
        assert(!init.contains(last)) by {
            if init.contains(last) {
                let j = init.index_of(last);
                assert(s[j] == s[s.len() - 1]);
            }
        }
        assert forall|x: A| #[trigger] out.contains(x) <==> s.contains(x) && keep(x) by {
            if out.contains(x) {
                let a = out.index_of(x);
                if a < sub.len() {
                    assert(sub[a] == x);
                    assert(sub.contains(x));
                    let j = init.index_of(x);
                    assert(s[j] == x);
                } else {
                    assert(s[s.len() - 1] == x);
                }
            }
            if s.contains(x) && keep(x) {
                let j = s.index_of(x);
                if j < init.len() {
                    assert(init[j] == x);
                    assert(init.contains(x));
                    let a = sub.index_of(x);
                    assert(out[a] == x);
                } else {
                    assert(out[out.len() - 1] == x);
                }
            }
        }
        if keep(last) {
            assert(!sub.contains(last));
            assert forall|a: int, b: int|
                0 <= a < out.len() && 0 <= b < out.len() && a != b implies out[a] != out[b] by {
                if a < sub.len() && b < sub.len() {
                    assert(sub[a] != sub[b]);
                } else if a < sub.len() {
                    assert(sub.contains(sub[a]));
                } else {
                    assert(sub.contains(sub[b]));
                }
            }
        }
    }
}

/// The keys of a listing that pass a filter list the keys of the mapping
/// that pass it.
pub proof fn lemma_filter_names(
    entries: Seq<(Seq<char>, Seq<char>)>,
    m: Map<Seq<char>, Seq<char>>,
    keep: spec_fn(Seq<char>) -> bool,
)
    requires
        enumerates(entries, m),
    ensures
        keys_of(entries).filter(keep).no_duplicates(),
        keys_of(entries).filter(keep).to_set() == m.dom().filter(keep),
{
    lemma_enumerates_mapping(entries, m);
    let all = keys_of(entries);
    lemma_filter_distinct(all, keep);
    assert forall|k: Seq<char>| all.filter(keep).to_set().contains(k) <==> m.dom().filter(
        keep,
    ).contains(k) by {
        if all.contains(k) {
            let j = all.index_of(k);
            assert(m.contains_pair(entries[j].0, entries[j].1));
        }
        if m.contains_key(k) {
            let j = choose|j: int| 0 <= j < entries.len() && (#[trigger] entries[j]).0 == k;
            assert(all[j] == k);
        }
    }
    assert(all.filter(keep).to_set() =~= m.dom().filter(keep));
}

/// The entries of a listing whose key passes a filter list the part of the
/// mapping whose keys pass it.
proof fn lemma_filter_enumerates(
    entries: Seq<(Seq<char>, Seq<char>)>,
    m: Map<Seq<char>, Seq<char>>,
    keep: spec_fn(Seq<char>) -> bool,
    pick: spec_fn((Seq<char>, Seq<char>)) -> bool,
)
    requires
        enumerates(entries, m),
        forall|e: (Seq<char>, Seq<char>)| #[trigger] pick(e) == keep(e.0),
    ensures
        enumerates(entries.filter(pick), m.restrict(Set::new(keep))),
{
    let out = entries.filter(pick);
    let part = m.restrict(Set::new(keep));
    assert(entries.no_duplicates()) by {
        assert forall|i: int, j: int|
            0 <= i < entries.len() && 0 <= j < entries.len() && i != j implies entries[i]
            != entries[j] by {
            if i < j {
                assert(entries[i].0 != entries[j].0);
            } else {
                assert(entries[j].0 != entries[i].0);
            }
        }
    }
    lemma_filter_distinct(entries, pick);
    assert forall|a: int| 0 <= a < out.len() implies part.contains_pair(
        (#[trigger] out[a]).0,
        out[a].1,
    ) by {
        assert(out.contains(out[a]));
        let j = entries.index_of(out[a]);
        assert(m.contains_pair(entries[j].0, entries[j].1));
    }
    assert forall|a: int, b: int| 0 <= a < b < out.len() implies (#[trigger] out[a]).0 != (
    #[trigger] out[b]).0 by {
        assert(out.contains(out[a]) && out.contains(out[b]));
        let x = entries.index_of(out[a]);
        let y = entries.index_of(out[b]);
        if x < y {
            assert(entries[x].0 != entries[y].0);
        } else if y < x {
            assert(entries[y].0 != entries[x].0);
        }
    }
    assert forall|k: Seq<char>| part.contains_key(k) implies exists|a: int|
        0 <= a < out.len() && (#[trigger] out[a]).0 == k by {
        let j = choose|j: int| 0 <= j < entries.len() && (#[trigger] entries[j]).0 == k;
        assert(entries.contains(entries[j]));
        assert(out.contains(entries[j]));
        let a = out.index_of(entries[j]);
        assert(out[a].0 == k);
    }
}

/// Where the entry named `key` stands, if there is one.
fn position(entries: &Vec<(String, String)>, key: &str) -> (r: Option<usize>)
    ensures
        match r {
            Some(i) => i < entries.len() && entries@[i as int].0@ == key@,
            None => !keys_of(entries.deep_view()).contains(key@),
        },
{
    let mut i: usize = 0;
    while i < entries.len()
        invariant
            i <= entries.len(),
            forall|j: int| 0 <= j < i ==> entries@[j].0@ != key@,
        decreases entries.len() - i,
    {
        if str_eq(entries[i].0.as_str(), key) {
            return Some(i);
        }
        i += 1;
    }
    assert forall|j: int| 0 <= j < keys_of(entries.deep_view()).len() implies keys_of(
        entries.deep_view(),
    )[j] != key@ by {
        assert(keys_of(entries.deep_view())[j] == entries@[j].0@);
    }
    None
}

impl View for Config {
    type V = Map<Seq<char>, Seq<char>>;

    closed spec fn view(&self) -> Map<Seq<char>, Seq<char>> {
        mapping(self.entries.deep_view())
    }
}

impl Config {
    #[verifier::type_invariant]
    spec fn distinct(self) -> bool {
        keys_of(self.entries.deep_view()).no_duplicates()
    }

    /// A scope without entries.
    pub fn new() -> (r: Config)
        ensures
            r@ == Map::<Seq<char>, Seq<char>>::empty(),
    {
        let r = Config { entries: Vec::new() };
        assert(r@ =~= Map::<Seq<char>, Seq<char>>::empty());
        r
    }

    /// The value stored under `key`, or `NotFound`.
    pub fn get_string(&self, key: &str) -> (r: Result<String, RegistryError>)
        ensures
            match r {
                Ok(value) => self@.contains_key(key@) && value@ == self@[key@],
                Err(e) => !self@.contains_key(key@) && e == RegistryError::NotFound,
            },
    {
        proof {
            use_type_invariant(self);
        }
        match position(&self.entries, key) {
            Some(i) => {
                let ghost all = keys_of(self.entries.deep_view());
                assert(all[i as int] == key@);
                Ok(self.entries[i].1.clone())
            },
            None => Err(RegistryError::NotFound),
        }
    }

    /// The entry stored under `key`, as its key and its value, or `NotFound`.
    pub fn get_entry(&self, key: &str) -> (r: Result<(String, String), RegistryError>)
        ensures
            match r {
                Ok(entry) => self@.contains_key(key@) && entry.deep_view() == (key@, self@[key@]),
                Err(e) => !self@.contains_key(key@) && e == RegistryError::NotFound,
            },
    {
        match self.get_string(key) {
            Ok(value) => Ok((key.to_owned(), value)),
            Err(e) => Err(e),
        }
    }

    /// Stores `value` under `key`, in place of what was stored there.
    pub fn set_str(&mut self, key: &str, value: &str)
        ensures
            final(self)@ == old(self)@.insert(key@, value@),
    {
        proof {
            use_type_invariant(&*self);
        }
        let mut entries: Vec<(String, String)> = Vec::new();
        std::mem::swap(&mut entries, &mut self.entries);
        let ghost before = entries.deep_view();
        let ghost mut at: int = 0;
        proof {
            lemma_mapping_enumerates(before);
        }
        match position(&entries, key) {
            Some(i) => {
                entries[i] = (key.to_owned(), value.to_owned());
                assert(entries.deep_view() =~= before.update(i as int, (key@, value@)));
                proof {
                    at = i as int;
                }
            },
            None => {
                entries.push((key.to_owned(), value.to_owned()));
                assert(entries.deep_view() =~= before.push((key@, value@)));
                assert forall|j: int| 0 <= j < before.len() implies (#[trigger] before[j]).0
                    != key@ by {
                    assert(keys_of(before)[j] == before[j].0);
                }
                proof {
                    at = before.len() as int;
                }
            },
        }
        proof {
            let after = entries.deep_view();
            let m = mapping(before).insert(key@, value@);
            assert(after[at] == (key@, value@));
            assert forall|j: int| 0 <= j < after.len() && j != at implies #[trigger] after[j]
                == before[j] && before[j].0 != key@ by {
                if at < before.len() {
                    if j < at {
                        assert(before[j].0 != before[at].0);
                    } else {
                        assert(before[at].0 != before[j].0);
                    }
                }
            }
            assert forall|a: int, b: int| 0 <= a < b < after.len() implies (#[trigger] after[a]).0
                != (#[trigger] after[b]).0 by {
                if a != at && b != at {
                    assert(before[a].0 != before[b].0);
                }
            }
            assert forall|a: int| 0 <= a < after.len() implies m.contains_pair(
                (#[trigger] after[a]).0,
                after[a].1,
            ) by {
                if a != at {
                    assert(mapping(before).contains_pair(before[a].0, before[a].1));
                }
            }
            assert forall|k: Seq<char>| m.contains_key(k) implies exists|i: int|
                0 <= i < after.len() && (#[trigger] after[i]).0 == k by {
                if k == key@ {
                    assert(after[at].0 == k);
                } else {
                    let j = choose|i: int| 0 <= i < before.len() && (#[trigger] before[i]).0 == k;
                    assert(after[j].0 == k);
                }
            }
            lemma_enumerates_mapping(after, m);
        }
        self.entries = entries;
    }

    /// Deletes the entry of `key`, or reports `NotFound` and changes nothing.
    pub fn remove(&mut self, key: &str) -> (r: Result<(), RegistryError>)
        ensures
            match r {
                Ok(_) => old(self)@.contains_key(key@) && final(self)@ == old(self)@.remove(key@),
                Err(e) => !old(self)@.contains_key(key@) && e == RegistryError::NotFound
                    && final(self)@ == old(self)@,
            },
    {
        proof {
            use_type_invariant(&*self);
        }
        let mut entries: Vec<(String, String)> = Vec::new();
        std::mem::swap(&mut entries, &mut self.entries);
        let ghost before = entries.deep_view();
        proof {
            lemma_mapping_enumerates(before);
        }
        let found = position(&entries, key);
        if let Some(i) = found {
            entries.remove(i);
            proof {
                let after = entries.deep_view();
                let m = mapping(before).remove(key@);
                assert(after =~= before.remove(i as int));
                assert(keys_of(before)[i as int] == key@);
                assert forall|a: int, b: int| 0 <= a < b < after.len() implies (
                #[trigger] after[a]).0 != (#[trigger] after[b]).0 by {
                    let x = if a < i { a } else { a + 1 };
                    let y = if b < i { b } else { b + 1 };
                    assert(after[a] == before[x] && after[b] == before[y]);
                }
                assert forall|a: int| 0 <= a < after.len() implies m.contains_pair(
                    (#[trigger] after[a]).0,
                    after[a].1,
                ) by {
                    let x = if a < i { a } else { a + 1 };
                    assert(after[a] == before[x]);
                    if x < i {
                        assert(before[x].0 != before[i as int].0);
                    } else {
                        assert(before[i as int].0 != before[x].0);
                    }
                }
                assert forall|k: Seq<char>| m.contains_key(k) implies exists|a: int|
                    0 <= a < after.len() && (#[trigger] after[a]).0 == k by {
                    let x = choose|x: int| 0 <= x < before.len() && (#[trigger] before[x]).0 == k;
                    let a = if x < i { x } else { x - 1 };
                    assert(after[a] == before[x]);
                }
                lemma_enumerates_mapping(after, m);
            }
        }
        self.entries = entries;
        match found {
            Some(_) => Ok(()),
            None => Err(RegistryError::NotFound),
        }
    }

    /// The entries whose key starts with `prefix`, each once and in no
    /// particular order, or all entries where no prefix is given. The prefix
    /// `user.work.` asks for what the pattern `user.work.*` stands for.
    pub fn entries(&self, prefix: Option<&str>) -> (r: Vec<(String, String)>)
        ensures
            enumerates(
                r.deep_view(),
                under(
                    self@,
                    match prefix {
                        Some(p) => Some(p@),
                        None => None,
                    },
                ),
            ),
    {
        proof {
            use_type_invariant(self);
            lemma_mapping_enumerates(self.entries.deep_view());
        }
        let ghost all = self.entries.deep_view();
        let ghost keep = |k: Seq<char>|
            match prefix {
                Some(p) => p@.is_prefix_of(k),
                None => true,
            };
        let ghost pick = |e: (Seq<char>, Seq<char>)| keep(e.0);
        let mut found: Vec<(String, String)> = Vec::new();
        let mut i: usize = 0;
        proof {
            reveal(Seq::filter);
            assert(all.take(0) =~= Seq::empty());
        }
        while i < self.entries.len()
            invariant
                i <= self.entries.len(),
                all == self.entries.deep_view(),
                forall|e: (Seq<char>, Seq<char>)|
                    #[trigger] pick(e) == match prefix {
                        Some(p) => p@.is_prefix_of(e.0),
                        None => true,
                    },
                found.deep_view() == all.take(i as int).filter(pick),
            decreases self.entries.len() - i,
        {
            proof {
                lemma_filter_push(all.take(i as int), all[i as int], pick);
                assert(all.take(i + 1) =~= all.take(i as int).push(all[i as int]));
            }
            let keep_it = match prefix {
                Some(p) => has_prefix(self.entries[i].0.as_str(), p),
                None => true,
            };
            if keep_it {
                let ghost before = found.deep_view();
                found.push((self.entries[i].0.clone(), self.entries[i].1.clone()));
                assert(found.deep_view() =~= before.push(all[i as int]));
            }
            i += 1;
        }
        proof {
            assert(all.take(self.entries.len() as int) =~= all);
            lemma_filter_enumerates(all, self@, keep, pick);
            let wanted = match prefix {
                Some(p) => Some(p@),
                None => None,
            };
            assert(self@.restrict(Set::new(keep)) =~= under(self@, wanted));
        }
        found
    }

    /// Writes each pair in turn.
    pub fn write_all(&mut self, pairs: &Vec<(String, String)>)
        ensures
            final(self)@ == written(old(self)@, pairs.deep_view()),
    {
        let mut i: usize = 0;
        assert(pairs.deep_view().take(0) =~= Seq::empty());
        while i < pairs.len()
            invariant
                i <= pairs.len(),
                self@ == written(old(self)@, pairs.deep_view().take(i as int)),
            decreases pairs.len() - i,
        {
            assert(pairs.deep_view().take(i + 1).drop_last() =~= pairs.deep_view().take(i as int));
            assert(pairs.deep_view().take(i + 1).last() == pairs.deep_view()[i as int]);
            self.set_str(pairs[i].0.as_str(), pairs[i].1.as_str());
            i += 1;
        }
        assert(pairs.deep_view().take(pairs.len() as int) =~= pairs.deep_view());
    }

    /// Deletes the entries of the given keys; a key without an entry is
    /// passed over.
    pub fn remove_all(&mut self, keys: &Vec<String>)
        ensures
            final(self)@ == old(self)@.remove_keys(texts(keys@).to_set()),
    {
        let mut i: usize = 0;
        assert(old(self)@.remove_keys(texts(keys@).take(0).to_set()) =~= old(self)@);
        while i < keys.len()
            invariant
                i <= keys.len(),
                self@ == old(self)@.remove_keys(texts(keys@).take(i as int).to_set()),
            decreases keys.len() - i,
        {
            let ghost done = texts(keys@).take(i as int);
            let ghost next = texts(keys@).take(i + 1);
            assert(next =~= done.push(keys@[i as int]@));
            assert(next.to_set() =~= done.to_set().insert(keys@[i as int]@)) by {
                assert forall|k: Seq<char>| next.to_set().contains(k) <==> done.to_set().insert(
                    keys@[i as int]@,
                ).contains(k) by {
                    if next.contains(k) {
                        let j = next.index_of(k);
                        if j < i {
                            assert(done[j] == k);
                        }
                    }
                    if done.contains(k) {
                        let j = done.index_of(k);
                        assert(next[j] == k);
                    }
                    assert(next[i as int] == keys@[i as int]@);
                }
            }
            let _ = self.remove(keys[i].as_str());
            assert(self@ =~= old(self)@.remove_keys(next.to_set()));
            i += 1;
        }
        assert(texts(keys@).take(keys.len() as int) =~= texts(keys@));
    }
}

} // verus!
