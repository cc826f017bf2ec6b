//! The aggregator: a key-sorted mapping from normalized relative path to the
//! states of that file, and the document that is finally emitted.

use vstd::prelude::*;
use crate::entry::IconStates;
use crate::extract::all_payload_states;
use crate::extract::extract;
use crate::extract::ztxt_payloads;
use crate::extract::ExtractError;
use crate::paths::ends_with_dmi;
use crate::paths::has_dmi_ext;
use crate::paths::has_dmi_extension;
use crate::paths::lemma_normalized_key;
use crate::paths::no_backslash;
use crate::paths::normalize_separators;
use crate::paths::normalized;
use crate::text::bytes_eq;
use crate::text::lemma_lex_irrefl;
use crate::text::lemma_lex_total;
use crate::text::lemma_lex_trans;
use crate::text::lex_less;
use crate::text::lex_lt;
use crate::text::sorted_strict;

verus! {

/// One row of the index: a normalized relative path and the states found in
/// the file it names.
pub struct IndexEntry {
    pub path: Vec<u8>,
    pub states: IconStates,
}

/// The whole row, mathematically: key, form, and names in emission order.
pub open spec fn entry_views(s: Seq<IndexEntry>) -> Seq<(Seq<u8>, bool, Seq<Seq<u8>>)> {
    s.map_values(|e: IndexEntry| (e.path@, e.states.is_assoc(), e.states.names()))
}

/// A failure of one file that aborts the whole run.
#[derive(Debug)]
pub enum BuildError {
    /// The file's bytes were rejected by the extractor.
    Extract { path: Vec<u8>, source: ExtractError },
    /// Two files normalized to the same relative path.
    DuplicatePath { path: Vec<u8> },
}

/// The aggregate: entries sorted by key, every key unique, normalized, and
/// ending in `.dmi`, every entry of the one form chosen for the run.
pub struct IconIndex {
    pub assoc: bool,
    pub entries: Vec<IndexEntry>,
}

impl IconIndex {
    /// The emitted keys, in order.
    pub open spec fn keys(&self) -> Seq<Seq<u8>> {
        self.entries@.map_values(|e: IndexEntry| e.path@)
    }

    pub open spec fn wf(&self) -> bool {
        &&& sorted_strict(self.keys())
        &&& forall|i: int|
            0 <= i < self.entries@.len() ==> {
                let e = #[trigger] self.entries@[i];
                &&& e.states.wf()
                &&& e.states.is_assoc() == self.assoc
                &&& no_backslash(e.path@)
                &&& ends_with_dmi(e.path@)
            }
    }

    /// An empty index of the chosen form.
    pub fn new(assoc: bool) -> (r: IconIndex)
        ensures
            r.wf(),
            r.assoc == assoc,
            r.entries@.len() == 0,
    {
        IconIndex { assoc, entries: Vec::new() }
    }

    pub fn file_count(&self) -> (n: usize)
        ensures
            n == self.entries@.len(),
    {
        self.entries.len()
    }

    /// Extracts one file and inserts its entry under the normalized relative
    /// path. A path without the `dmi` extension is not indexed; an extraction
    /// failure or an already-present key aborts, leaving the index unchanged.
    pub fn add_file(&mut self, rel_path: Vec<u8>, png_bytes: &Vec<u8>) -> (r: Result<
        bool,
        BuildError,
    >)
        requires
            old(self).wf(),
        ensures
            final(self).wf(),
            final(self).assoc == old(self).assoc,
            match r {
                Ok(true) => {
                    &&& has_dmi_ext(rel_path@)
                    &&& ztxt_payloads(png_bytes@) matches Some(ps)
                    &&& !old(self).keys().contains(normalized(rel_path@))
                    &&& exists|j: int, names: Seq<Seq<u8>>|
                        {
                            &&& 0 <= j <= old(self).entries@.len()
                            &&& sorted_strict(names)
                            &&& names.to_set() == all_payload_states(
                                ztxt_payloads(png_bytes@)->Some_0,
                            ).to_set()
                            &&& entry_views(final(self).entries@) == entry_views(
                                old(self).entries@,
                            ).insert(j, (normalized(rel_path@), old(self).assoc, names))
                        }
                },
                Ok(false) => !has_dmi_ext(rel_path@) && *final(self) == *old(self),
                Err(BuildError::Extract { path, source }) => {
                    &&& has_dmi_ext(rel_path@)
                    &&& ztxt_payloads(png_bytes@) is None
                    &&& path@ == rel_path@
                    &&& *final(self) == *old(self)
                },
                Err(BuildError::DuplicatePath { path }) => {
                    &&& has_dmi_ext(rel_path@)
                    &&& ztxt_payloads(png_bytes@) is Some
                    &&& old(self).keys().contains(normalized(rel_path@))
                    &&& path@ == rel_path@
                    &&& *final(self) == *old(self)
                },
            },
    {
        if !has_dmi_extension(&rel_path) {
            return Ok(false);
        }
        let states = match extract(png_bytes) {
            Ok(states) => states,
            Err(source) => {
                return Err(BuildError::Extract { path: rel_path, source });
            },
        };
        let key = normalize_separators(&rel_path);
        proof {
            lemma_normalized_key(rel_path@);
        }
        let entry_states = IconStates::new(states, self.assoc);
        let ghost ks = self.keys();
        let ghost kv = key@;
        let mut i: usize = 0;
        while i < self.entries.len() && lex_less(&self.entries[i].path, &key)
            invariant
                i <= self.entries@.len(),
                *self == *old(self),
                kv == key@,
                forall|j: int| 0 <= j < i ==> lex_lt(#[trigger] old(self).keys()[j], kv),
            decreases self.entries@.len() - i,
        {
            i += 1;
        }
        if i < self.entries.len() && bytes_eq(&self.entries[i].path, &key) {
            proof {
                assert(ks[i as int] == kv);
                assert(ks.contains(kv));
            }
            return Err(BuildError::DuplicatePath { path: rel_path });
        }
        proof {
            if i < self.entries@.len() {
                lemma_lex_total(kv, ks[i as int]);
                assert(lex_lt(kv, ks[i as int]));
            }
            assert forall|j: int| 0 <= j < ks.len() implies ks[j] != kv by {
                if j < i {
                    lemma_lex_irrefl(kv);
                } else if j == i {
                } else {
                    lemma_lex_trans(kv, ks[i as int], ks[j]);
                    lemma_lex_irrefl(kv);
                }
            }
            if ks.contains(kv) {
                let j = choose|j: int| 0 <= j < ks.len() && ks[j] == kv;
                assert(false);
            }
        }
        let ghost evs = entry_views(self.entries@);
        let ghost names = entry_states.names();
        let ghost ownassoc = self.assoc;
        self.entries.insert(i, IndexEntry { path: key, states: entry_states });
        proof {
            let s2 = entry_views(self.entries@);
            let k2 = self.keys();
            assert(s2 =~= evs.insert(i as int, (kv, ownassoc, names)));
            assert(k2 =~= ks.insert(i as int, kv));
            evs.insert_ensures(i as int, (kv, ownassoc, names));
            ks.insert_ensures(i as int, kv);
            assert forall|p: int, q: int| 0 <= p < q < k2.len() implies lex_lt(k2[p], k2[q]) by {
                if q < i {
                    assert(k2[p] == ks[p] && k2[q] == ks[q]);
                } else if p < i && q == i {
                    assert(k2[p] == ks[p] && k2[q] == kv);
                } else if p < i && q > i {
                    assert(k2[p] == ks[p] && k2[q] == ks[q - 1]);
                    if i as int == q - 1 {
                        lemma_lex_trans(ks[p], kv, ks[i as int]);
                    } else {
                        assert(lex_lt(ks[p], ks[q - 1]));
                    }
                } else if p == i {
                    assert(k2[p] == kv && k2[q] == ks[q - 1]);
                    if q - 1 == i {
                        assert(lex_lt(kv, ks[i as int]));
                    } else {
                        lemma_lex_trans(kv, ks[i as int], ks[q - 1]);
                    }
                } else {
                    assert(k2[p] == ks[p - 1] && k2[q] == ks[q - 1]);
                }
            }
            assert forall|t: int| 0 <= t < self.entries@.len() implies {
                let e = #[trigger] self.entries@[t];
                &&& e.states.wf()
                &&& e.states.is_assoc() == self.assoc
                &&& no_backslash(e.path@)
                &&& ends_with_dmi(e.path@)
            } by {
                if t < i {
                    assert(self.entries@[t] == old(self).entries@[t]);
                } else if t > i {
                    assert(self.entries@[t] == old(self).entries@[t - 1]);
                }
            }
        }
        Ok(true)
    }

    /// The total number of unique state names across all entries, as the run
    /// reports it; `None` when the total does not fit a `usize`.
    pub fn state_total(&self) -> (r: Option<usize>)
        ensures
            match r {
                Some(n) => n == total_names(self.entries@),
                None => total_names(self.entries@) > usize::MAX,
            },
    {
        let ghost s = self.entries@;
        let mut sum: usize = 0;
        let mut i: usize = 0;
        proof {
            assert(s.skip(0) =~= s);
            lemma_total_names_nonneg(s);
        }
        while i < self.entries.len()
            invariant
                i <= self.entries@.len(),
                s == self.entries@,
                total_names(s) == sum + total_names(s.skip(i as int)),
            decreases self.entries@.len() - i,
        {
            let n = self.entries[i].states.len();
            proof {
                assert(s.skip(i as int)[0] == s[i as int]);
                assert(total_names(s.skip(i as int)) == s[i as int].states.names().len()
                    + total_names(s.skip(i as int).skip(1)));
                assert(s.skip(i as int).skip(1) =~= s.skip(i as int + 1));
                lemma_total_names_nonneg(s.skip(i as int + 1));
            }
            sum = match sum.checked_add(n) {
                Some(sum2) => sum2,
                None => {
                    return None;
                },
            };
            i += 1;
        }
        proof {
            assert(s.skip(i as int) =~= Seq::<IndexEntry>::empty());
        }
        Some(sum)
    }
}

/// The sum of the entry sizes: the run's reported state count.
pub open spec fn total_names(s: Seq<IndexEntry>) -> int
    decreases s.len(),
{
    if s.len() == 0 {
        0
    } else {
        s[0].states.names().len() + total_names(s.skip(1))
    }
}

pub proof fn lemma_total_names_nonneg(s: Seq<IndexEntry>)
    ensures
        total_names(s) >= 0,
    decreases s.len(),
{
    if s.len() > 0 {
        lemma_total_names_nonneg(s.skip(1));
    }
}

/// The finished document: the index plus the optional VCS revision.
pub struct Document {
    pub revision: Option<Vec<u8>>,
    pub icons: IconIndex,
}

impl Document {
    pub open spec fn wf(&self) -> bool {
        self.icons.wf()
    }

    pub fn new(icons: IconIndex, revision: Option<Vec<u8>>) -> (r: Document)
        ensures
            r.icons == icons,
            r.revision == revision,
    {
        Document { revision, icons }
    }
}

} // verus!
