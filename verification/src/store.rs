//! The key-value store: an entry map with lazy expiry, plus the settings and
//! metadata maps. Entries live in a vector of unique-keyed pairs so that the
//! key listing has a definite order; the two string maps are hash maps.

use crate::cli::{CliParam, CliParamView};
use crate::text::{contains_substr, has_substring};
use vstd::prelude::*;
use vstd::string::StringExecFns;

verus! {

/// A stored value together with its optional absolute expiry timestamp in
/// milliseconds since the epoch.
#[derive(Debug)]
pub struct Entry {
    pub value: String,
    pub expires_at: Option<u128>,
}

/// The mathematical shape of an entry: the value's characters and the expiry.
pub ghost struct EntryView {
    pub value: Seq<char>,
    pub expires_at: Option<u128>,
}

impl View for Entry {
    type V = EntryView;

    open spec fn view(&self) -> EntryView {
        EntryView { value: self.value@, expires_at: self.expires_at }
    }
}

/// Entry sequences never hold two pairs with the same key.
pub open spec fn unique_keys(entries: Seq<(Seq<char>, EntryView)>) -> bool {
    forall|i: int, j: int| 0 <= i < j < entries.len() ==> (#[trigger] entries[i]).0 != (#[trigger] entries[j]).0
}

/// The entry stored under `k`, if any.
pub open spec fn lookup(entries: Seq<(Seq<char>, EntryView)>, k: Seq<char>) -> Option<EntryView>
    decreases entries.len(),
{
    if entries.len() == 0 {
        None
    } else if entries[0].0 == k {
        Some(entries[0].1)
    } else {
        lookup(entries.drop_first(), k)
    }
}

/// The entries after an unconditional overwrite of `k`: the first pair with
/// key `k` is replaced in place, or a new pair is appended.
pub open spec fn spec_set(
    entries: Seq<(Seq<char>, EntryView)>,
    k: Seq<char>,
    e: EntryView,
) -> Seq<(Seq<char>, EntryView)>
    decreases entries.len(),
{
    if entries.len() == 0 {
        seq![(k, e)]
    } else if entries[0].0 == k {
        seq![(k, e)] + entries.drop_first()
    } else {
        seq![entries[0]] + spec_set(entries.drop_first(), k, e)
    }
}

/// The entries after removing `k`, if present.
pub open spec fn spec_remove(entries: Seq<(Seq<char>, EntryView)>, k: Seq<char>) -> Seq<
    (Seq<char>, EntryView),
>
    decreases entries.len(),
{
    if entries.len() == 0 {
        entries
    } else if entries[0].0 == k {
        entries.drop_first()
    } else {
        seq![entries[0]] + spec_remove(entries.drop_first(), k)
    }
}

/// What one read of `k` at time `now` yields and leaves behind: the value if
/// the entry is present and not expired; nothing, with the entry removed as a
/// side effect, if it is present but expired; nothing otherwise.
pub open spec fn spec_get(
    entries: Seq<(Seq<char>, EntryView)>,
    k: Seq<char>,
    now: u128,
) -> (Option<Seq<char>>, Seq<(Seq<char>, EntryView)>) {
    match lookup(entries, k) {
        None => (None, entries),
        Some(e) => match e.expires_at {
            None => (Some(e.value), entries),
            Some(t) => if now <= t {
                (Some(e.value), entries)
            } else {
                (None, spec_remove(entries, k))
            },
        },
    }
}

/// The keys that a `KEYS` request with `pattern` reports, in storage order:
/// every key when the pattern is `*`, else the keys holding the pattern as a
/// substring.
pub open spec fn spec_keys(entries: Seq<(Seq<char>, EntryView)>, pattern: Seq<char>) -> Seq<
    Seq<char>,
>
    decreases entries.len(),
{
    if entries.len() == 0 {
        Seq::empty()
    } else {
        let rest = spec_keys(entries.drop_last(), pattern);
        if pattern == "*"@ || has_substring(entries.last().0, pattern) {
            rest.push(entries.last().0)
        } else {
            rest
        }
    }
}

pub proof fn lemma_lookup_at(entries: Seq<(Seq<char>, EntryView)>, k: Seq<char>, i: int)
    requires
        0 <= i < entries.len(),
        entries[i].0 == k,
        forall|j: int| 0 <= j < i ==> (#[trigger] entries[j]).0 != k,
    ensures
        lookup(entries, k) == Some(entries[i].1),
    decreases i,
{
    if i > 0 {
        lemma_lookup_at(entries.drop_first(), k, i - 1);
    }
}

pub proof fn lemma_lookup_absent(entries: Seq<(Seq<char>, EntryView)>, k: Seq<char>)
    requires
        forall|j: int| 0 <= j < entries.len() ==> (#[trigger] entries[j]).0 != k,
    ensures
        lookup(entries, k) is None,
    decreases entries.len(),
{
    if entries.len() > 0 {
        lemma_lookup_absent(entries.drop_first(), k);
    }
}

pub proof fn lemma_set_at(entries: Seq<(Seq<char>, EntryView)>, k: Seq<char>, e: EntryView, i: int)
    requires
        0 <= i < entries.len(),
        entries[i].0 == k,
        forall|j: int| 0 <= j < i ==> (#[trigger] entries[j]).0 != k,
    ensures
        spec_set(entries, k, e) == entries.update(i, (k, e)),
    decreases i,
{
    if i == 0 {
        assert(spec_set(entries, k, e) =~= entries.update(0, (k, e)));
    } else {
        lemma_set_at(entries.drop_first(), k, e, i - 1);
        assert(seq![entries[0]] + entries.drop_first().update(i - 1, (k, e)) =~= entries.update(
            i,
            (k, e),
        ));
    }
}

pub proof fn lemma_set_absent(entries: Seq<(Seq<char>, EntryView)>, k: Seq<char>, e: EntryView)
    requires
        forall|j: int| 0 <= j < entries.len() ==> (#[trigger] entries[j]).0 != k,
    ensures
        spec_set(entries, k, e) == entries.push((k, e)),
    decreases entries.len(),
{
    if entries.len() == 0 {
        assert(spec_set(entries, k, e) =~= entries.push((k, e)));
    } else {
        lemma_set_absent(entries.drop_first(), k, e);
        assert(seq![entries[0]] + entries.drop_first().push((k, e)) =~= entries.push((k, e)));
    }
}

pub proof fn lemma_remove_at(entries: Seq<(Seq<char>, EntryView)>, k: Seq<char>, i: int)
    requires
        0 <= i < entries.len(),
        entries[i].0 == k,
        forall|j: int| 0 <= j < i ==> (#[trigger] entries[j]).0 != k,
    ensures
        spec_remove(entries, k) == entries.remove(i),
    decreases i,
{
    if i == 0 {
        assert(spec_remove(entries, k) =~= entries.remove(0));
    } else {
        lemma_remove_at(entries.drop_first(), k, i - 1);
        assert(seq![entries[0]] + entries.drop_first().remove(i - 1) =~= entries.remove(i));
    }
}

pub proof fn lemma_remove_absent(entries: Seq<(Seq<char>, EntryView)>, k: Seq<char>)
    requires
        forall|j: int| 0 <= j < entries.len() ==> (#[trigger] entries[j]).0 != k,
    ensures
        spec_remove(entries, k) == entries,
    decreases entries.len(),
{
    if entries.len() > 0 {
        lemma_remove_absent(entries.drop_first(), k);
        assert(seq![entries[0]] + entries.drop_first() =~= entries);
    }
}

/// The store: the entry map, the startup settings, and snapshot metadata.
pub struct Database {
    pub(crate) data: Vec<(String, Entry)>,
    pub(crate) config: vstd::hash_map::StringHashMap<String>,
    pub(crate) metadata: vstd::hash_map::StringHashMap<String>,
}

impl Database {
    /// The entry pairs as mathematical values, in storage order.
    pub closed spec fn entries(&self) -> Seq<(Seq<char>, EntryView)> {
        self.data@.map_values(|p: (String, Entry)| (p.0@, p.1@))
    }

    /// The settings map as mathematical values.
    pub closed spec fn config_map(&self) -> Map<Seq<char>, Seq<char>> {
        self.config@.map_values(|v: String| v@)
    }

    /// The metadata map as mathematical values.
    pub closed spec fn metadata_map(&self) -> Map<Seq<char>, Seq<char>> {
        self.metadata@.map_values(|v: String| v@)
    }

    /// The store's invariant: entry keys are unique.
    pub open spec fn wf(&self) -> bool {
        unique_keys(self.entries())
    }

    /// An empty store.
    pub fn new() -> (db: Database)
        ensures
            db.wf(),
            db.entries() == Seq::<(Seq<char>, EntryView)>::empty(),
            db.config_map() == Map::<Seq<char>, Seq<char>>::empty(),
            db.metadata_map() == Map::<Seq<char>, Seq<char>>::empty(),
    {
        let db = Database {
            data: Vec::new(),
            config: vstd::hash_map::StringHashMap::new(),
            metadata: vstd::hash_map::StringHashMap::new(),
        };
        proof {
            assert(db.entries() =~= Seq::<(Seq<char>, EntryView)>::empty());
            assert(db.config_map() =~= Map::<Seq<char>, Seq<char>>::empty());
            assert(db.metadata_map() =~= Map::<Seq<char>, Seq<char>>::empty());
        }
        db
    }

    fn find_key_index(data: &Vec<(String, Entry)>, key: &String) -> (r: Option<usize>)
        ensures
            match r {
                Some(i) => 0 <= i < data@.len() && data@[i as int].0@ == key@ && forall|j: int|
                    0 <= j < i ==> (#[trigger] data@[j]).0@ != key@,
                None => forall|j: int| 0 <= j < data@.len() ==> (#[trigger] data@[j]).0@ != key@,
            },
    {
        let mut i: usize = 0;
        while i < data.len()
            invariant
                0 <= i <= data@.len(),
                forall|j: int| 0 <= j < i ==> (#[trigger] data@[j]).0@ != key@,
            decreases data@.len() - i,
        {
            if data[i].0 == *key {
                return Some(i);
            }
            i += 1;
        }
        None
    }

    /// Stores `value` under `key`, overwriting unconditionally; the entry
    /// carries the given absolute expiry, if any.
    pub fn set(&mut self, key: String, value: String, expires_at: Option<u128>)
        requires
            old(self).wf(),
        ensures
            final(self).wf(),
            final(self).entries() == spec_set(
                old(self).entries(),
                key@,
                EntryView { value: value@, expires_at },
            ),
            final(self).config_map() == old(self).config_map(),
            final(self).metadata_map() == old(self).metadata_map(),
    {
        let ghost e = EntryView { value: value@, expires_at };
        let ghost entries0 = self.entries();
        match Self::find_key_index(&self.data, &key) {
            Some(i) => {
                self.data.remove(i);
                self.data.insert(i, (key, Entry { value, expires_at }));
                proof {
                    lemma_set_at(entries0, key@, e, i as int);
                    assert(self.entries() =~= entries0.update(i as int, (key@, e)));
                    assert(forall|t: int|
                        0 <= t < self.entries().len() ==> (#[trigger] self.entries()[t]).0
                            == entries0[t].0);
                }
            },
            None => {
                self.data.push((key, Entry { value, expires_at }));
                proof {
                    lemma_set_absent(entries0, key@, e);
                    assert(self.entries() =~= entries0.push((key@, e)));
                }
            },
        }
        proof {
            assert(self.entries() == spec_set(entries0, key@, e));
        }
    }

    /// Reads `key` at time `now_ms`. An entry that is present but expired is
    /// removed as a side effect of the read and reported absent.
    pub fn get(&mut self, key: String, now_ms: u128) -> (r: Option<String>)
        requires
            old(self).wf(),
        ensures
            final(self).wf(),
            r.deep_view() == spec_get(old(self).entries(), key@, now_ms).0,
            final(self).entries() == spec_get(old(self).entries(), key@, now_ms).1,
            final(self).config_map() == old(self).config_map(),
            final(self).metadata_map() == old(self).metadata_map(),
    {
        let ghost entries0 = self.entries();
        match Self::find_key_index(&self.data, &key) {
            None => {
                proof {
                    lemma_lookup_absent(entries0, key@);
                }
                None
            },
            Some(i) => {
                proof {
                    lemma_lookup_at(entries0, key@, i as int);
                }
                match self.data[i].1.expires_at {
                    None => Some(self.data[i].1.value.clone()),
                    Some(t) => {
                        if now_ms <= t {
                            Some(self.data[i].1.value.clone())
                        } else {
                            self.data.remove(i);
                            proof {
                                lemma_remove_at(entries0, key@, i as int);
                                assert(self.entries() =~= entries0.remove(i as int));
                                assert forall|a: int, b: int|
                                    0 <= a < b < self.entries().len() implies (
                                #[trigger] self.entries()[a]).0 != (
                                #[trigger] self.entries()[b]).0 by {
                                    let a0 = if a < i { a } else { a + 1 };
                                    let b0 = if b < i { b } else { b + 1 };
                                    assert(entries0[a0].0 != entries0[b0].0);
                                }
                            }
                            None
                        }
                    },
                }
            },
        }
    }

    /// Removes `key` if present; removing an absent key changes nothing.
    pub fn delete(&mut self, key: String)
        requires
            old(self).wf(),
        ensures
            final(self).wf(),
            final(self).entries() == spec_remove(old(self).entries(), key@),
            final(self).config_map() == old(self).config_map(),
            final(self).metadata_map() == old(self).metadata_map(),
    {
        let ghost entries0 = self.entries();
        match Self::find_key_index(&self.data, &key) {
            None => {
                proof {
                    lemma_remove_absent(entries0, key@);
                }
            },
            Some(i) => {
                self.data.remove(i);
                proof {
                    lemma_remove_at(entries0, key@, i as int);
                    assert(self.entries() =~= entries0.remove(i as int));
                    assert forall|a: int, b: int|
                        0 <= a < b < self.entries().len() implies (
                    #[trigger] self.entries()[a]).0 != (#[trigger] self.entries()[b]).0 by {
                        let a0 = if a < i { a } else { a + 1 };
                        let b0 = if b < i { b } else { b + 1 };
                        assert(entries0[a0].0 != entries0[b0].0);
                    }
                }
            },
        }
    }

    /// Lists the stored keys that the pattern selects, in storage order.
    pub fn keys(&self, pattern: String) -> (r: Vec<String>)
        ensures
            r.deep_view() == spec_keys(self.entries(), pattern@),
    {
        let star = String::from_str("*");
        proof {
            reveal_strlit("*");
        }
        let is_star = pattern == star;
        let mut r: Vec<String> = Vec::new();
        let mut i: usize = 0;
        proof {
            assert(self.entries().take(0) =~= Seq::<(Seq<char>, EntryView)>::empty());
            assert(r.deep_view() =~= Seq::<Seq<char>>::empty());
        }
        while i < self.data.len()
            invariant
                0 <= i <= self.data@.len(),
                is_star == (pattern@ == "*"@),
                r.deep_view() == spec_keys(self.entries().take(i as int), pattern@),
            decreases self.data@.len() - i,
        {
            let matched = if is_star {
                true
            } else {
                contains_substr(self.data[i].0.as_str(), pattern.as_str())
            };
            let ghost r0 = r.deep_view();
            if matched {
                r.push(self.data[i].0.clone());
                proof {
                    assert(r.deep_view() =~= r0.push(self.entries()[i as int].0));
                }
            }
            proof {
                assert(self.entries().take(i + 1).drop_last() =~= self.entries().take(i as int));
                assert(self.entries().take(i + 1).last() == self.entries()[i as int]);
            }
            i += 1;
        }
        proof {
            assert(self.entries().take(self.data@.len() as int) =~= self.entries());
        }
        r
    }
}

/// The settings map after applying a list of startup settings in order; a
/// later setting for the same key overwrites an earlier one.
pub open spec fn spec_apply_params(
    cfg: Map<Seq<char>, Seq<char>>,
    ps: Seq<CliParamView>,
) -> Map<Seq<char>, Seq<char>>
    decreases ps.len(),
{
    if ps.len() == 0 {
        cfg
    } else {
        let prev = spec_apply_params(cfg, ps.drop_last());
        match ps.last() {
            CliParamView::Dir(d) => prev.insert("dir"@, d),
            CliParamView::DbFilename(f) => prev.insert("dbfilename"@, f),
        }
    }
}

impl Database {
    /// Records the startup settings in the settings map: a directory under
    /// `dir`, a snapshot file name under `dbfilename`.
    pub fn config_setup(&mut self, cli_params: &[CliParam])
        ensures
            final(self).config_map() == spec_apply_params(
                old(self).config_map(),
                cli_params.deep_view(),
            ),
            final(self).entries() == old(self).entries(),
            final(self).metadata_map() == old(self).metadata_map(),
    {
        let ghost ps = cli_params.deep_view();
        let ghost cfg0 = self.config_map();
        let mut i: usize = 0;
        proof {
            assert(ps.take(0) =~= Seq::<CliParamView>::empty());
        }
        while i < cli_params.len()
            invariant
                ps == cli_params.deep_view(),
                ps.len() == cli_params@.len(),
                0 <= i <= ps.len(),
                self.config_map() == spec_apply_params(cfg0, ps.take(i as int)),
                self.entries() == old(self).entries(),
                self.metadata_map() == old(self).metadata_map(),
                cfg0 == old(self).config_map(),
            decreases ps.len() - i,
        {
            let ghost cfg_pre = self.config_map();
            match &cli_params[i] {
                CliParam::Dir(dir) => {
                    self.config.insert(String::from_str("dir"), dir.clone());
                    proof {
                        assert(self.config_map() =~= cfg_pre.insert("dir"@, dir@));
                    }
                },
                CliParam::DbFilename(dbfilename) => {
                    self.config.insert(String::from_str("dbfilename"), dbfilename.clone());
                    proof {
                        assert(self.config_map() =~= cfg_pre.insert("dbfilename"@, dbfilename@));
                    }
                },
            }
            proof {
                assert(ps.take(i + 1).drop_last() =~= ps.take(i as int));
                assert(ps.take(i + 1).last() == ps[i as int]);
                assert(ps[i as int] == cli_params@[i as int]@);
            }
            i += 1;
        }
        proof {
            assert(ps.take(ps.len() as int) =~= ps);
        }
    }

    /// Looks a key up in the settings map.
    pub fn config_get(&self, key: &str) -> (r: Option<String>)
        ensures
            match r {
                Some(v) => self.config_map().contains_key(key@) && v@ == self.config_map()[key@],
                None => !self.config_map().contains_key(key@),
            },
    {
        match self.config.get(key) {
            Some(v) => Some(v.clone()),
            None => None,
        }
    }

    /// Records a snapshot metadata pair.
    pub(crate) fn metadata_set(&mut self, key: String, value: String)
        ensures
            final(self).metadata_map() == old(self).metadata_map().insert(key@, value@),
            final(self).entries() == old(self).entries(),
            final(self).config_map() == old(self).config_map(),
    {
        let ghost meta0 = self.metadata_map();
        self.metadata.insert(key, value);
        proof {
            assert(self.metadata_map() =~= meta0.insert(key@, value@));
        }
    }

    /// Looks a key up in the snapshot metadata map.
    pub fn metadata_get(&self, key: &str) -> (r: Option<String>)
        ensures
            match r {
                Some(v) => self.metadata_map().contains_key(key@) && v@ == self.metadata_map()[key@],
                None => !self.metadata_map().contains_key(key@),
            },
    {
        match self.metadata.get(key) {
            Some(v) => Some(v.clone()),
            None => None,
        }
    }

    /// Both settings the snapshot loader needs are present.
    pub fn can_load_from_disk(&mut self) -> (r: bool)
        ensures
            r == (old(self).config_map().contains_key("dir"@) && old(self).config_map().contains_key("dbfilename"@)),
            *final(self) == *old(self),
    {
        let dir = self.config_get("dir");
        let dbfilename = self.config_get("dbfilename");
        dir.is_some() && dbfilename.is_some()
    }
}

} // verus!
