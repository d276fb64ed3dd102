//! Configuration: the mapping from language tags to formatter commands and
//! comment tokens, plus an alias table from alternate tags to canonical tags.
//!
//! Both tables are association lists keyed by the tag bytes; a lookup takes
//! the first entry whose key matches.

use vstd::prelude::*;

use crate::bytes::bytes_eq;
use crate::bytes::copy_bytes;

verus! {

/// Formatter command (executable plus arguments) and comment token for one
/// language.
pub struct LanguageConfig {
    pub formatter: Vec<Vec<u8>>,
    pub comment_token: Vec<u8>,
}

/// Mathematical value of a `LanguageConfig`.
pub struct LanguageConfigView {
    pub formatter: Seq<Seq<u8>>,
    pub comment_token: Seq<u8>,
}

impl View for LanguageConfig {
    type V = LanguageConfigView;

    open spec fn view(&self) -> LanguageConfigView {
        LanguageConfigView {
            formatter: self.formatter@.map_values(|a: Vec<u8>| a@),
            comment_token: self.comment_token@,
        }
    }
}

impl LanguageConfig {
    /// A copy whose mathematical value equals this one's.
    pub fn duplicate(&self) -> (r: LanguageConfig)
        ensures
            r@ == self@,
    {
        let mut formatter: Vec<Vec<u8>> = Vec::new();
        let mut i: usize = 0;
        while i < self.formatter.len()
            invariant
                i <= self.formatter@.len(),
                formatter@.len() == i,
                forall|j: int| 0 <= j < i ==> formatter@[j]@ == self.formatter@[j]@,
            decreases self.formatter@.len() - i,
        {
            formatter.push(copy_bytes(self.formatter[i].as_slice()));
            i = i + 1;
        }
        let r = LanguageConfig { formatter, comment_token: copy_bytes(self.comment_token.as_slice()) };
        proof {
            assert(r@.formatter =~= self@.formatter);
        }
        r
    }
}

/// Index of the first entry at or after `pos` whose key is `k`.
pub open spec fn first_key_from<T>(entries: Seq<(Vec<u8>, T)>, k: Seq<u8>, pos: int) -> Option<int>
    decreases entries.len() - pos,
{
    if pos < 0 || pos >= entries.len() {
        None
    } else if entries[pos].0@ == k {
        Some(pos)
    } else {
        first_key_from(entries, k, pos + 1)
    }
}

/// Value of the first entry whose key is `k`.
pub open spec fn entry_value<T>(entries: Seq<(Vec<u8>, T)>, k: Seq<u8>) -> Option<T> {
    match first_key_from(entries, k, 0) {
        Some(i) => Some(entries[i].1),
        None => None,
    }
}

/// Value of the last entry whose key is `k`.
pub open spec fn last_value<T>(entries: Seq<(Vec<u8>, T)>, k: Seq<u8>) -> Option<T>
    decreases entries.len(),
{
    if entries.len() == 0 {
        None
    } else if entries.last().0@ == k {
        Some(entries.last().1)
    } else {
        last_value(entries.drop_last(), k)
    }
}

proof fn lemma_first_key_complete<T>(entries: Seq<(Vec<u8>, T)>, k: Seq<u8>, pos: int, i: int)
    requires
        0 <= pos <= i < entries.len(),
        entries[i].0@ == k,
        forall|j: int| pos <= j < i ==> entries[j].0@ != k,
    ensures
        first_key_from(entries, k, pos) == Some(i),
    decreases i - pos,
{
    if pos < i {
        lemma_first_key_complete(entries, k, pos + 1, i);
    }
}

proof fn lemma_first_key_none<T>(entries: Seq<(Vec<u8>, T)>, k: Seq<u8>, pos: int)
    requires
        0 <= pos,
        forall|j: int| pos <= j < entries.len() ==> entries[j].0@ != k,
    ensures
        first_key_from(entries, k, pos) is None,
    decreases entries.len() - pos,
{
    if pos < entries.len() {
        lemma_first_key_none(entries, k, pos + 1);
    }
}

proof fn lemma_first_key_char<T>(entries: Seq<(Vec<u8>, T)>, k: Seq<u8>, pos: int)
    requires
        0 <= pos,
    ensures
        match first_key_from(entries, k, pos) {
            Some(i) => pos <= i < entries.len() && entries[i].0@ == k && (forall|j: int|
                pos <= j < i ==> entries[j].0@ != k),
            None => forall|j: int| pos <= j < entries.len() ==> entries[j].0@ != k,
        },
    decreases entries.len() - pos,
{
    if pos < entries.len() && entries[pos].0@ != k {
        lemma_first_key_char(entries, k, pos + 1);
    }
}

/// Index of the first entry of `entries` whose key is `key`, scanning forward.
fn find_first<T>(entries: &Vec<(Vec<u8>, T)>, key: &[u8]) -> (r: Option<usize>)
    ensures
        match r {
            Some(i) => first_key_from(entries@, key@, 0) == Some(i as int),
            None => first_key_from(entries@, key@, 0) is None,
        },
{
    let mut i: usize = 0;
    while i < entries.len()
        invariant
            i <= entries@.len(),
            forall|j: int| 0 <= j < i ==> entries@[j].0@ != key@,
        decreases entries@.len() - i,
    {
        if bytes_eq(entries[i].0.as_slice(), key) {
            proof {
                lemma_first_key_complete(entries@, key@, 0, i as int);
            }
            return Some(i);
        }
        i = i + 1;
    }
    proof {
        lemma_first_key_none(entries@, key@, 0);
    }
    None
}

/// Inserts `(key, val)`, replacing the first entry with the same key if one
/// exists, so that a first-match lookup afterwards finds `val` under `key`
/// and is unchanged under every other key.
fn upsert<T>(entries: &mut Vec<(Vec<u8>, T)>, key: Vec<u8>, val: T)
    ensures
        forall|k: Seq<u8>|
            entry_value(final(entries)@, k) == (if k == key@ {
                Some(val)
            } else {
                entry_value(old(entries)@, k)
            }),
{
    let ghost before = entries@;
    match find_first(entries, key.as_slice()) {
        Some(i) => {
            proof {
                lemma_first_key_char(before, key@, 0);
            }
            let _ = entries.remove(i);
            entries.insert(i, (key, val));
            proof {
                let after = entries@;
                assert(after =~= before.update(i as int, after[i as int]));
                assert forall|k: Seq<u8>|
                    entry_value(after, k) == (if k == key@ {
                        Some(after[i as int].1)
                    } else {
                        entry_value(before, k)
                    }) by {
                    if k == key@ {
                        lemma_first_key_complete(after, k, 0, i as int);
                    } else {
                        lemma_first_key_char(before, k, 0);
                        match first_key_from(before, k, 0) {
                            Some(m) => {
                                lemma_first_key_complete(after, k, 0, m);
                            },
                            None => {
                                lemma_first_key_none(after, k, 0);
                            },
                        }
                    }
                }
            }
        },
        None => {
            proof {
                lemma_first_key_char(before, key@, 0);
            }
            entries.push((key, val));
            proof {
                let after = entries@;
                assert forall|k: Seq<u8>|
                    entry_value(after, k) == (if k == key@ {
                        Some(after[before.len() as int].1)
                    } else {
                        entry_value(before, k)
                    }) by {
                    if k == key@ {
                        lemma_first_key_complete(after, k, 0, before.len() as int);
                    } else {
                        lemma_first_key_char(before, k, 0);
                        match first_key_from(before, k, 0) {
                            Some(m) => {
                                lemma_first_key_complete(after, k, 0, m);
                            },
                            None => {
                                lemma_first_key_none(after, k, 0);
                            },
                        }
                    }
                }
            }
        },
    }
}

/// Mapping from language tags to per-language configurations, plus an alias
/// table mapping alternate tags to canonical tags.
pub struct Config {
    pub languages: Vec<(Vec<u8>, LanguageConfig)>,
    pub aliases: Vec<(Vec<u8>, Vec<u8>)>,
}

/// The configuration entry a tag resolves to: a direct language entry if
/// present, otherwise the language entry of the tag's alias, if any.
pub open spec fn spec_resolve(c: Config, tag: Seq<u8>) -> Option<LanguageConfig> {
    match entry_value(c.languages@, tag) {
        Some(cfg) => Some(cfg),
        None => match entry_value(c.aliases@, tag) {
            Some(canon) => entry_value(c.languages@, canon@),
            None => None,
        },
    }
}

impl Config {
    /// The configuration for `lang`, resolving aliases; `None` exactly when
    /// the tag is recognized neither directly nor through the alias table.
    pub fn get_lang(&self, lang: &[u8]) -> (r: Option<LanguageConfig>)
        ensures
            match r {
                Some(cfg) => spec_resolve(*self, lang@) matches Some(c) && c@ == cfg@,
                None => spec_resolve(*self, lang@) is None,
            },
    {
        match find_first(&self.languages, lang) {
            Some(i) => {
                proof {
                    lemma_first_key_char(self.languages@, lang@, 0);
                }
                Some(self.languages[i].1.duplicate())
            },
            None => {
                match find_first(&self.aliases, lang) {
                    Some(ai) => {
                        proof {
                            lemma_first_key_char(self.aliases@, lang@, 0);
                        }
                        match find_first(&self.languages, self.aliases[ai].1.as_slice()) {
                            Some(j) => {
                                proof {
                                    lemma_first_key_char(
                                        self.languages@,
                                        self.aliases@[ai as int].1@,
                                        0,
                                    );
                                }
                                Some(self.languages[j].1.duplicate())
                            },
                            None => None,
                        }
                    },
                    None => None,
                }
            },
        }
    }

    /// Merges `other` into `self`: entries of `other` override entries of
    /// `self` with the same key; among several entries of `other` with one
    /// key, the last wins.
    pub fn merge(&mut self, other: Config)
        ensures
            forall|k: Seq<u8>|
                entry_value(final(self).languages@, k) == (match last_value(
                    other.languages@,
                    k,
                ) {
                    Some(v) => Some(v),
                    None => entry_value(old(self).languages@, k),
                }),
            forall|k: Seq<u8>|
                entry_value(final(self).aliases@, k) == (match last_value(other.aliases@, k) {
                    Some(v) => Some(v),
                    None => entry_value(old(self).aliases@, k),
                }),
    {
        let ghost langs0 = self.languages@;
        let ghost aliases0 = self.aliases@;
        let Config { languages: mut lrest, aliases: mut arest } = other;
        let ghost lwhole = lrest@;
        let ghost mut ldone: int = 0;
        while lrest.len() > 0
            invariant
                0 <= ldone <= lwhole.len(),
                lrest@ == lwhole.subrange(ldone, lwhole.len() as int),
                self.aliases@ == aliases0,
                forall|k: Seq<u8>|
                    entry_value(self.languages@, k) == (match last_value(
                        lwhole.subrange(0, ldone),
                        k,
                    ) {
                        Some(v) => Some(v),
                        None => entry_value(langs0, k),
                    }),
            decreases lrest@.len(),
        {
            let e = lrest.remove(0);
            proof {
                assert(e == lwhole[ldone]);
                assert(lwhole.subrange(0, ldone + 1).drop_last() =~= lwhole.subrange(0, ldone));
                assert(lwhole.subrange(0, ldone + 1).last() == lwhole[ldone]);
            }
            upsert(&mut self.languages, e.0, e.1);
            proof {
                ldone = ldone + 1;
                assert(lrest@ =~= lwhole.subrange(ldone, lwhole.len() as int));
            }
        }
        proof {
            assert(lwhole.subrange(0, lwhole.len() as int) =~= lwhole);
        }
        let ghost awhole = arest@;
        let ghost mut adone: int = 0;
        while arest.len() > 0
            invariant
                0 <= adone <= awhole.len(),
                arest@ == awhole.subrange(adone, awhole.len() as int),
                forall|k: Seq<u8>|
                    entry_value(self.languages@, k) == (match last_value(lwhole, k) {
                        Some(v) => Some(v),
                        None => entry_value(langs0, k),
                    }),
                forall|k: Seq<u8>|
                    entry_value(self.aliases@, k) == (match last_value(
                        awhole.subrange(0, adone),
                        k,
                    ) {
                        Some(v) => Some(v),
                        None => entry_value(aliases0, k),
                    }),
            decreases arest@.len(),
        {
            let e = arest.remove(0);
            proof {
                assert(e == awhole[adone]);
                assert(awhole.subrange(0, adone + 1).drop_last() =~= awhole.subrange(0, adone));
                assert(awhole.subrange(0, adone + 1).last() == awhole[adone]);
            }
            upsert(&mut self.aliases, e.0, e.1);
            proof {
                adone = adone + 1;
                assert(arest@ =~= awhole.subrange(adone, awhole.len() as int));
            }
        }
        proof {
            assert(awhole.subrange(0, awhole.len() as int) =~= awhole);
        }
    }
}

} // verus!
