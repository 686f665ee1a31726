//! The frequency tables. A `WordMap` counts occurrences per normalized word;
//! a `LanguageMap` keys a `WordMap` per language tag. Both are association
//! vectors with distinct keys, modelled in specifications as `Map`s from
//! character sequences to counts.

use vstd::map::*;
use vstd::prelude::*;

verus! {

// ---------------------------------------------------------------------------
// Mathematical model
// ---------------------------------------------------------------------------

/// Counts saturate instead of wrapping: a merge can never overflow.
pub open spec fn sat_add(a: u64, b: u64) -> u64 {
    if a + b > u64::MAX {
        u64::MAX
    } else {
        (a + b) as u64
    }
}

/// The count a word map gives a word, zero when the word is absent.
pub open spec fn count_of(m: Map<Seq<char>, u64>, w: Seq<char>) -> u64 {
    if m.contains_key(w) {
        m[w]
    } else {
        0
    }
}

/// The word map a language map gives a language, empty when the tag is absent.
pub open spec fn words_of(
    m: Map<Seq<char>, Map<Seq<char>, u64>>,
    lang: Seq<char>,
) -> Map<Seq<char>, u64> {
    if m.contains_key(lang) {
        m[lang]
    } else {
        Map::empty()
    }
}

/// Merging word maps sums counts pointwise; the domain is the union.
pub open spec fn wm_merge(g: Map<Seq<char>, u64>, l: Map<Seq<char>, u64>) -> Map<Seq<char>, u64> {
    Map::new(
        |w: Seq<char>| g.contains_key(w) || l.contains_key(w),
        |w: Seq<char>| sat_add(count_of(g, w), count_of(l, w)),
    )
}

/// Merging language maps merges the word maps of each language pointwise.
pub open spec fn lm_merge(
    g: Map<Seq<char>, Map<Seq<char>, u64>>,
    l: Map<Seq<char>, Map<Seq<char>, u64>>,
) -> Map<Seq<char>, Map<Seq<char>, u64>> {
    Map::new(
        |lang: Seq<char>| g.contains_key(lang) || l.contains_key(lang),
        |lang: Seq<char>| wm_merge(words_of(g, lang), words_of(l, lang)),
    )
}

/// Pruning keeps exactly the words whose count reaches the threshold.
pub open spec fn wm_prune(m: Map<Seq<char>, u64>, k: u64) -> Map<Seq<char>, u64> {
    Map::new(|w: Seq<char>| m.contains_key(w) && m[w] >= k, |w: Seq<char>| m[w])
}

/// Pruning a language map prunes each language's words; languages survive
/// even when all their words are removed.
pub open spec fn lm_prune(
    m: Map<Seq<char>, Map<Seq<char>, u64>>,
    k: u64,
) -> Map<Seq<char>, Map<Seq<char>, u64>> {
    Map::new(
        |lang: Seq<char>| m.contains_key(lang),
        |lang: Seq<char>| wm_prune(m[lang], k),
    )
}

/// Adding one observation of a word under a language, creating either entry on
/// first sight.
pub open spec fn lm_add(
    m: Map<Seq<char>, Map<Seq<char>, u64>>,
    lang: Seq<char>,
    w: Seq<char>,
    c: u64,
) -> Map<Seq<char>, Map<Seq<char>, u64>> {
    m.insert(lang, words_of(m, lang).insert(w, sat_add(count_of(words_of(m, lang), w), c)))
}

// ---------------------------------------------------------------------------
// Association vectors and their views
// ---------------------------------------------------------------------------

/// The map an association vector of words denotes; later entries win, though
/// well-formed vectors never repeat a key.
pub open spec fn word_map_of(s: Seq<(String, u64)>) -> Map<Seq<char>, u64>
    decreases s.len(),
{
    if s.len() == 0 {
        Map::empty()
    } else {
        word_map_of(s.drop_last()).insert(s.last().0@, s.last().1)
    }
}

pub open spec fn uniq_keys_w(s: Seq<(String, u64)>) -> bool {
    forall|i: int, j: int| 0 <= i < j < s.len() ==> s[i].0@ != s[j].0@
}

/// A per-language table of word counts.
pub struct WordMap {
    pub entries: Vec<(String, u64)>,
}

impl View for WordMap {
    type V = Map<Seq<char>, u64>;

    open spec fn view(&self) -> Map<Seq<char>, u64> {
        word_map_of(self.entries@)
    }
}

impl WordMap {
    pub open spec fn wf(&self) -> bool {
        uniq_keys_w(self.entries@)
    }
}

// ---------------------------------------------------------------------------
// Lemmas about word association vectors
// ---------------------------------------------------------------------------

proof fn lemma_wm_contains(s: Seq<(String, u64)>, k: Seq<char>)
    ensures
        word_map_of(s).contains_key(k) <==> exists|i: int| 0 <= i < s.len() && s[i].0@ == k,
    decreases s.len(),
{
    if s.len() > 0 {
        lemma_wm_contains(s.drop_last(), k);
        if s.last().0@ == k {
            assert(s[s.len() - 1].0@ == k);
        } else {
            if word_map_of(s).contains_key(k) {
                let i = choose|i: int| 0 <= i < s.drop_last().len() && s.drop_last()[i].0@ == k;
                assert(s[i].0@ == k);
            }
            if exists|i: int| 0 <= i < s.len() && s[i].0@ == k {
                let i = choose|i: int| 0 <= i < s.len() && s[i].0@ == k;
                assert(s.drop_last()[i].0@ == k);
            }
        }
    }
}

proof fn lemma_wm_index(s: Seq<(String, u64)>, i: int)
    requires
        uniq_keys_w(s),
        0 <= i < s.len(),
    ensures
        word_map_of(s).contains_key(s[i].0@),
        word_map_of(s)[s[i].0@] == s[i].1,
    decreases s.len(),
{
    if i < s.len() - 1 {
        lemma_wm_index(s.drop_last(), i);
        assert(s.drop_last()[i] == s[i]);
    }
}

proof fn lemma_wm_update(s: Seq<(String, u64)>, i: int, v: u64)
    requires
        uniq_keys_w(s),
        0 <= i < s.len(),
    ensures
        uniq_keys_w(s.update(i, (s[i].0, v))),
        word_map_of(s.update(i, (s[i].0, v))) == word_map_of(s).insert(s[i].0@, v),
    decreases s.len(),
{
    let t = s.update(i, (s[i].0, v));
    assert(forall|j: int| 0 <= j < s.len() ==> t[j].0@ == s[j].0@);
    if i == s.len() - 1 {
        assert(t.drop_last() =~= s.drop_last());
        assert(word_map_of(t) =~= word_map_of(s).insert(s[i].0@, v));
    } else {
        lemma_wm_update(s.drop_last(), i, v);
        assert(t.drop_last() =~= s.drop_last().update(i, (s[i].0, v)));
        assert(s.drop_last()[i] == s[i]);
        // the final key differs from the updated one, so the two inserts commute
        assert(s.last().0@ != s[i].0@);
        assert(word_map_of(t) =~= word_map_of(s).insert(s[i].0@, v));
    }
}

proof fn lemma_wm_push(s: Seq<(String, u64)>, w: String, c: u64)
    ensures
        word_map_of(s.push((w, c))) == word_map_of(s).insert(w@, c),
{
    assert(s.push((w, c)).drop_last() =~= s);
}

proof fn lemma_wm_card(s: Seq<(String, u64)>)
    requires
        uniq_keys_w(s),
    ensures
        word_map_of(s).dom().finite(),
        word_map_of(s).dom().len() == s.len(),
    decreases s.len(),
{
    if s.len() > 0 {
        lemma_wm_card(s.drop_last());
        lemma_wm_contains(s.drop_last(), s.last().0@);
        assert(!word_map_of(s.drop_last()).contains_key(s.last().0@));
        assert(word_map_of(s).dom() =~= word_map_of(s.drop_last()).dom().insert(s.last().0@));
    }
}

// ---------------------------------------------------------------------------
// WordMap operations
// ---------------------------------------------------------------------------

impl WordMap {
    pub fn new() -> (r: WordMap)
        ensures
            r@ == Map::<Seq<char>, u64>::empty(),
            r.wf(),
    {
        WordMap { entries: Vec::new() }
    }

    fn index_of(&self, w: &String) -> (r: Option<usize>)
        ensures
            match r {
                Some(i) => i < self.entries@.len() && self.entries@[i as int].0@ == w@,
                None => forall|i: int| 0 <= i < self.entries@.len() ==> self.entries@[i].0@ != w@,
            },
    {
        let n = self.entries.len();
        let mut i: usize = 0;
        while i < n
            invariant
                i <= n,
                n == self.entries@.len(),
                forall|j: int| 0 <= j < i ==> self.entries@[j].0@ != w@,
            decreases n - i,
        {
            if self.entries[i].0 == *w {
                return Some(i);
            }
            i += 1;
        }
        None
    }

    /// The count recorded for a word, if any.
    pub fn get(&self, w: &String) -> (r: Option<u64>)
        requires
            self.wf(),
        ensures
            match r {
                Some(c) => self@.contains_key(w@) && self@[w@] == c,
                None => !self@.contains_key(w@),
            },
    {
        proof {
            lemma_wm_contains(self.entries@, w@);
        }
        match self.index_of(w) {
            Some(i) => {
                proof {
                    lemma_wm_index(self.entries@, i as int);
                }
                Some(self.entries[i].1)
            },
            None => None,
        }
    }

    /// Adds `c` occurrences of a word, saturating, creating the entry on
    /// first sight.
    pub fn add_count(&mut self, w: &String, c: u64)
        requires
            old(self).wf(),
        ensures
            final(self).wf(),
            final(self)@ == old(self)@.insert(w@, sat_add(count_of(old(self)@, w@), c)),
    {
        proof {
            lemma_wm_contains(self.entries@, w@);
        }
        match self.index_of(w) {
            Some(i) => {
                proof {
                    lemma_wm_index(self.entries@, i as int);
                    lemma_wm_update(self.entries@, i as int, sat_add(self.entries@[i as int].1, c));
                }
                let cur = self.entries[i].1;
                self.entries[i].1 = cur.saturating_add(c);
                assert(self.entries@ =~= old(self).entries@.update(
                    i as int,
                    (old(self).entries@[i as int].0, sat_add(cur, c)),
                ));
            },
            None => {
                proof {
                    lemma_wm_push(self.entries@, *w, c);
                }
                self.entries.push((w.clone(), c));
                assert(sat_add(count_of(old(self)@, w@), c) == c);
            },
        }
    }

    /// How many distinct words the table holds.
    pub fn num_words(&self) -> (r: usize)
        requires
            self.wf(),
        ensures
            r == self@.dom().len(),
    {
        proof {
            lemma_wm_card(self.entries@);
        }
        self.entries.len()
    }

    /// Removes every word whose count is strictly below `k`.
    pub fn prune_below(&mut self, k: u64)
        requires
            old(self).wf(),
        ensures
            final(self).wf(),
            final(self)@ == wm_prune(old(self)@, k),
    {
        let n = self.entries.len();
        let mut out: Vec<(String, u64)> = Vec::new();
        let mut i: usize = 0;
        while i < n
            invariant
                i <= n == self.entries@.len(),
                self == old(self),
                uniq_keys_w(self.entries@),
                uniq_keys_w(out@),
                forall|l: int|
                    0 <= l < out@.len() ==> exists|j: int|
                        0 <= j < i && #[trigger] out@[l].0@ == self.entries@[j].0@,
                word_map_of(out@) == wm_prune(word_map_of(self.entries@.take(i as int)), k),
            decreases n - i,
        {
            let ghost prev = out@;
            let ghost taken = self.entries@.take(i as int);
            proof {
                assert(self.entries@.take(i + 1).drop_last() =~= taken);
                assert(self.entries@.take(i + 1).last() == self.entries@[i as int]);
            }
            let e = &self.entries[i];
            if e.1 >= k {
                out.push((e.0.clone(), e.1));
                proof {
                    lemma_wm_push(prev, self.entries@[i as int].0, self.entries@[i as int].1);
                    assert(out@[out@.len() - 1].0@ == self.entries@[i as int].0@);
                    assert(forall|l: int| 0 <= l < prev.len() ==> #[trigger] out@[l] == prev[l]);
                    assert forall|l: int| 0 <= l < prev.len() implies out@[l].0@
                        != self.entries@[i as int].0@ by {
                        let j = choose|j: int| 0 <= j < i && prev[l].0@ == self.entries@[j].0@;
                    }
                    assert(word_map_of(out@) =~= wm_prune(
                        word_map_of(self.entries@.take(i + 1)),
                        k,
                    ));
                }
            } else {
                proof {
                    lemma_wm_contains(taken, self.entries@[i as int].0@);
                    assert(word_map_of(out@) =~= wm_prune(
                        word_map_of(self.entries@.take(i + 1)),
                        k,
                    ));
                }
            }
            i += 1;
        }
        proof {
            assert(self.entries@.take(n as int) =~= self.entries@);
        }
        self.entries = out;
    }
}

// ---------------------------------------------------------------------------
// Language association vectors
// ---------------------------------------------------------------------------

/// The map a language association vector denotes.
pub open spec fn lang_map_of(s: Seq<(String, WordMap)>) -> Map<Seq<char>, Map<Seq<char>, u64>>
    decreases s.len(),
{
    if s.len() == 0 {
        Map::empty()
    } else {
        lang_map_of(s.drop_last()).insert(s.last().0@, s.last().1@)
    }
}

pub open spec fn uniq_keys_l(s: Seq<(String, WordMap)>) -> bool {
    forall|i: int, j: int| 0 <= i < j < s.len() ==> s[i].0@ != s[j].0@
}

/// The global (or per-file local) table: one `WordMap` per language tag.
pub struct LanguageMap {
    pub entries: Vec<(String, WordMap)>,
}

impl View for LanguageMap {
    type V = Map<Seq<char>, Map<Seq<char>, u64>>;

    open spec fn view(&self) -> Map<Seq<char>, Map<Seq<char>, u64>> {
        lang_map_of(self.entries@)
    }
}

impl LanguageMap {
    pub open spec fn wf(&self) -> bool {
        uniq_keys_l(self.entries@) && (forall|i: int|
            0 <= i < self.entries@.len() ==> (#[trigger] self.entries@[i].1).wf())
    }
}

proof fn lemma_lm_contains(s: Seq<(String, WordMap)>, k: Seq<char>)
    ensures
        lang_map_of(s).contains_key(k) <==> exists|i: int| 0 <= i < s.len() && s[i].0@ == k,
    decreases s.len(),
{
    if s.len() > 0 {
        lemma_lm_contains(s.drop_last(), k);
        if s.last().0@ == k {
            assert(s[s.len() - 1].0@ == k);
        } else {
            if lang_map_of(s).contains_key(k) {
                let i = choose|i: int| 0 <= i < s.drop_last().len() && s.drop_last()[i].0@ == k;
                assert(s[i].0@ == k);
            }
            if exists|i: int| 0 <= i < s.len() && s[i].0@ == k {
                let i = choose|i: int| 0 <= i < s.len() && s[i].0@ == k;
                assert(s.drop_last()[i].0@ == k);
            }
        }
    }
}

proof fn lemma_lm_index(s: Seq<(String, WordMap)>, i: int)
    requires
        uniq_keys_l(s),
        0 <= i < s.len(),
    ensures
        lang_map_of(s).contains_key(s[i].0@),
        lang_map_of(s)[s[i].0@] == s[i].1@,
    decreases s.len(),
{
    if i < s.len() - 1 {
        lemma_lm_index(s.drop_last(), i);
        assert(s.drop_last()[i] == s[i]);
    }
}

proof fn lemma_lm_update(s: Seq<(String, WordMap)>, i: int, v: WordMap)
    requires
        uniq_keys_l(s),
        0 <= i < s.len(),
    ensures
        uniq_keys_l(s.update(i, (s[i].0, v))),
        lang_map_of(s.update(i, (s[i].0, v))) == lang_map_of(s).insert(s[i].0@, v@),
    decreases s.len(),
{
    let t = s.update(i, (s[i].0, v));
    assert(forall|j: int| 0 <= j < s.len() ==> t[j].0@ == s[j].0@);
    if i == s.len() - 1 {
        assert(t.drop_last() =~= s.drop_last());
        assert(lang_map_of(t) =~= lang_map_of(s).insert(s[i].0@, v@));
    } else {
        lemma_lm_update(s.drop_last(), i, v);
        assert(t.drop_last() =~= s.drop_last().update(i, (s[i].0, v)));
        assert(s.drop_last()[i] == s[i]);
        assert(s.last().0@ != s[i].0@);
        assert(lang_map_of(t) =~= lang_map_of(s).insert(s[i].0@, v@));
    }
}

proof fn lemma_lm_push(s: Seq<(String, WordMap)>, lang: String, v: WordMap)
    ensures
        lang_map_of(s.push((lang, v))) == lang_map_of(s).insert(lang@, v@),
{
    assert(s.push((lang, v)).drop_last() =~= s);
}

proof fn lemma_lm_card(s: Seq<(String, WordMap)>)
    requires
        uniq_keys_l(s),
    ensures
        lang_map_of(s).dom().finite(),
        lang_map_of(s).dom().len() == s.len(),
    decreases s.len(),
{
    if s.len() > 0 {
        lemma_lm_card(s.drop_last());
        lemma_lm_contains(s.drop_last(), s.last().0@);
        assert(!lang_map_of(s.drop_last()).contains_key(s.last().0@));
        assert(lang_map_of(s).dom() =~= lang_map_of(s.drop_last()).dom().insert(s.last().0@));
    }
}

impl LanguageMap {
    pub fn new() -> (r: LanguageMap)
        ensures
            r@ == Map::<Seq<char>, Map<Seq<char>, u64>>::empty(),
            r.wf(),
    {
        LanguageMap { entries: Vec::new() }
    }

    fn index_of(&self, lang: &String) -> (r: Option<usize>)
        ensures
            match r {
                Some(i) => i < self.entries@.len() && self.entries@[i as int].0@ == lang@,
                None => forall|i: int|
                    0 <= i < self.entries@.len() ==> self.entries@[i].0@ != lang@,
            },
    {
        let n = self.entries.len();
        let mut i: usize = 0;
        while i < n
            invariant
                i <= n,
                n == self.entries@.len(),
                forall|j: int| 0 <= j < i ==> self.entries@[j].0@ != lang@,
            decreases n - i,
        {
            if self.entries[i].0 == *lang {
                return Some(i);
            }
            i += 1;
        }
        None
    }

    /// The word table recorded for a language, if any.
    pub fn get<'a>(&'a self, lang: &String) -> (r: Option<&'a WordMap>)
        requires
            self.wf(),
        ensures
            match r {
                Some(wm) => self@.contains_key(lang@) && wm@ == self@[lang@] && wm.wf(),
                None => !self@.contains_key(lang@),
            },
    {
        proof {
            lemma_lm_contains(self.entries@, lang@);
        }
        match self.index_of(lang) {
            Some(i) => {
                proof {
                    lemma_lm_index(self.entries@, i as int);
                }
                Some(&self.entries[i].1)
            },
            None => None,
        }
    }

    /// How many languages the table holds.
    pub fn num_languages(&self) -> (r: usize)
        requires
            self.wf(),
        ensures
            r == self@.dom().len(),
    {
        proof {
            lemma_lm_card(self.entries@);
        }
        self.entries.len()
    }

    /// Finds the language's entry, creating an empty one on first sight.
    pub(crate) fn ensure_lang(&mut self, lang: &String) -> (i: usize)
        requires
            old(self).wf(),
        ensures
            final(self).wf(),
            i < final(self).entries@.len(),
            final(self).entries@[i as int].0@ == lang@,
            final(self)@ == old(self)@.insert(lang@, words_of(old(self)@, lang@)),
            final(self).entries@[i as int].1@ == words_of(old(self)@, lang@),
    {
        proof {
            lemma_lm_contains(self.entries@, lang@);
        }
        match self.index_of(lang) {
            Some(i) => {
                proof {
                    lemma_lm_index(self.entries@, i as int);
                    assert(old(self)@.insert(lang@, words_of(old(self)@, lang@)) =~= old(self)@);
                }
                i
            },
            None => {
                let i = self.entries.len();
                self.entries.push((lang.clone(), WordMap { entries: Vec::new() }));
                proof {
                    let prev = old(self).entries@;
                    let e = self.entries@.last();
                    lemma_lm_push(prev, e.0, e.1);
                    assert(self.entries@ =~= prev.push((e.0, e.1)));
                    assert(words_of(old(self)@, lang@) =~= Map::<Seq<char>, u64>::empty());
                    assert(forall|j: int|
                        0 <= j < prev.len() ==> self.entries@[j] == prev[j]);
                }
                i
            },
        }
    }

    /// Removes, independently per language, every word whose global count is
    /// strictly below `k`; languages themselves survive.
    pub fn prune(&mut self, k: u64)
        requires
            old(self).wf(),
        ensures
            final(self).wf(),
            final(self)@ == lm_prune(old(self)@, k),
    {
        let ghost s0 = self.entries@;
        let n = self.entries.len();
        let mut i: usize = 0;
        while i < n
            invariant
                i <= n == self.entries@.len(),
                s0.len() == n,
                uniq_keys_l(s0),
                forall|j: int| 0 <= j < n ==> #[trigger] self.entries@[j].0 == s0[j].0,
                forall|j: int| i <= j < n ==> #[trigger] self.entries@[j] == s0[j],
                forall|j: int| 0 <= j < n ==> (#[trigger] s0[j].1).wf(),
                forall|j: int|
                    0 <= j < i ==> (#[trigger] self.entries@[j].1).wf()
                        && self.entries@[j].1@ == wm_prune(s0[j].1@, k),
            decreases n - i,
        {
            self.entries[i].1.prune_below(k);
            i += 1;
        }
        proof {
            lemma_lm_prune_seq(s0, self.entries@, k);
            assert(uniq_keys_l(self.entries@));
        }
    }

    /// Merges one local table into this one: every (language, word, count)
    /// triple of `other` is added to the matching global count, creating
    /// language and word entries on first sight.
    pub fn merge(&mut self, other: &LanguageMap)
        requires
            old(self).wf(),
            other.wf(),
        ensures
            final(self).wf(),
            final(self)@ == lm_merge(old(self)@, other@),
    {
        let ghost g0 = old(self)@;
        proof {
            assert(other.entries@.take(0) =~= Seq::<(String, WordMap)>::empty());
            lemma_merge_empty(g0);
        }
        let n = other.entries.len();
        let mut li: usize = 0;
        while li < n
            invariant
                li <= n == other.entries@.len(),
                other.wf(),
                self.wf(),
                self@ == lm_merge(g0, lang_map_of(other.entries@.take(li as int))),
            decreases n - li,
        {
            let ghost taken = other.entries@.take(li as int);
            let ghost big_m = lm_merge(g0, lang_map_of(taken));
            let lang = &other.entries[li].0;
            let ghost wv = other.entries@[li as int].1@;
            proof {
                assert(other.entries@.take(li + 1).drop_last() =~= taken);
                assert(other.entries@.take(li + 1).last() == other.entries@[li as int]);
                lemma_lm_contains(taken, lang@);
                assert(forall|j: int| 0 <= j < taken.len() ==> taken[j].0@ == other.entries@[j].0@);
                assert(!lang_map_of(taken).contains_key(lang@));
                lemma_lm_merge_insert(g0, lang_map_of(taken), lang@, wv);
            }
            let ghost curr = words_of(big_m, lang@);
            let i = self.ensure_lang(lang);
            proof {
                assert(wm_merge(curr, Map::<Seq<char>, u64>::empty()) =~= curr);
                assert(self@ == big_m.insert(lang@, curr));
                assert(other.entries@[li as int].1.entries@.take(0) =~= Seq::<(String, u64)>::empty());
            }
            let wn = other.entries[li].1.entries.len();
            let mut wj: usize = 0;
            while wj < wn
                invariant
                    wj <= wn,
                    li < other.entries@.len(),
                    wn == other.entries@[li as int].1.entries@.len(),
                    other.wf(),
                    self.wf(),
                    self@ == big_m.insert(
                        other.entries@[li as int].0@,
                        wm_merge(
                            curr,
                            word_map_of(other.entries@[li as int].1.entries@.take(wj as int)),
                        ),
                    ),
                decreases wn - wj,
            {
                let ghost wtaken = other.entries@[li as int].1.entries@.take(wj as int);
                proof {
                    let wentries = other.entries@[li as int].1.entries@;
                    assert(wentries.take(wj + 1).drop_last() =~= wtaken);
                    assert(wentries.take(wj + 1).last() == wentries[wj as int]);
                    assert((other.entries@[li as int].1).wf());
                    assert(forall|j: int| 0 <= j < wtaken.len() ==> wtaken[j].0@ == wentries[j].0@);
                    lemma_wm_contains(wtaken, wentries[wj as int].0@);
                    assert(!word_map_of(wtaken).contains_key(wentries[wj as int].0@));
                    lemma_wm_merge_insert(
                        curr,
                        word_map_of(wtaken),
                        wentries[wj as int].0@,
                        wentries[wj as int].1,
                    );
                }
                let lang2 = &other.entries[li].0;
                let e = &other.entries[li].1.entries[wj];
                self.add_word(lang2, &e.0, e.1);
                proof {
                    let x = wm_merge(curr, word_map_of(wtaken));
                    assert(words_of(big_m.insert(other.entries@[li as int].0@, x), other.entries@[li as int].0@) == x);
                    assert(self@ =~= big_m.insert(
                        other.entries@[li as int].0@,
                        wm_merge(
                            curr,
                            word_map_of(other.entries@[li as int].1.entries@.take(wj + 1)),
                        ),
                    ));
                }
                wj += 1;
            }
            proof {
                let wentries = other.entries@[li as int].1.entries@;
                assert(wentries.take(wn as int) =~= wentries);
                assert(self@ =~= lm_merge(g0, lang_map_of(other.entries@.take(li + 1))));
            }
            li += 1;
        }
        proof {
            assert(other.entries@.take(n as int) =~= other.entries@);
        }
    }

    /// Adds `c` occurrences of a word under a language, creating the language
    /// and/or word entry on first sight.
    pub fn add_word(&mut self, lang: &String, w: &String, c: u64)
        requires
            old(self).wf(),
        ensures
            final(self).wf(),
            final(self)@ == lm_add(old(self)@, lang@, w@, c),
    {
        let i = self.ensure_lang(lang);
        let ghost mid = *self;
        self.entries[i].1.add_count(w, c);
        proof {
            lemma_lm_update(
                mid.entries@,
                i as int,
                self.entries@[i as int].1,
            );
            assert(self.entries@ =~= mid.entries@.update(i as int, self.entries@[i as int]));
            assert(self.entries@[i as int] == (mid.entries@[i as int].0, self.entries@[i as int].1));
            assert(self@ =~= lm_add(old(self)@, lang@, w@, c));
        }
    }
}

// ---------------------------------------------------------------------------
// Stepping lemmas for merge
// ---------------------------------------------------------------------------

/// Adding one word to the local side of a word-map merge lands as one
/// saturating addition on the merged side.
proof fn lemma_wm_merge_insert(curr: Map<Seq<char>, u64>, wv: Map<Seq<char>, u64>, w: Seq<char>, c: u64)
    requires
        !wv.contains_key(w),
    ensures
        wm_merge(curr, wv.insert(w, c)) == wm_merge(curr, wv).insert(
            w,
            sat_add(count_of(wm_merge(curr, wv), w), c),
        ),
{
    assert(count_of(wv, w) == 0);
    assert(wm_merge(curr, wv.insert(w, c)) =~= wm_merge(curr, wv).insert(
        w,
        sat_add(count_of(wm_merge(curr, wv), w), c),
    ));
}

/// Adding one language to the local side of a language-map merge lands as one
/// word-map merge on the merged side.
proof fn lemma_lm_merge_insert(
    g: Map<Seq<char>, Map<Seq<char>, u64>>,
    b: Map<Seq<char>, Map<Seq<char>, u64>>,
    l: Seq<char>,
    wv: Map<Seq<char>, u64>,
)
    requires
        !b.contains_key(l),
    ensures
        lm_merge(g, b.insert(l, wv)) == lm_merge(g, b).insert(
            l,
            wm_merge(words_of(lm_merge(g, b), l), wv),
        ),
{
    let m = lm_merge(g, b);
    assert(words_of(m, l) =~= words_of(g, l));
    assert(lm_merge(g, b.insert(l, wv)) =~= m.insert(l, wm_merge(words_of(m, l), wv)));
}

/// Pruning every entry of a language vector in place denotes the pruned map.
proof fn lemma_lm_prune_seq(s: Seq<(String, WordMap)>, t: Seq<(String, WordMap)>, k: u64)
    requires
        t.len() == s.len(),
        forall|j: int| 0 <= j < s.len() ==> #[trigger] t[j].0@ == s[j].0@,
        forall|j: int| 0 <= j < s.len() ==> #[trigger] t[j].1@ == wm_prune(s[j].1@, k),
    ensures
        lang_map_of(t) == lm_prune(lang_map_of(s), k),
    decreases s.len(),
{
    if s.len() == 0 {
        assert(lang_map_of(t) =~= lm_prune(lang_map_of(s), k));
    } else {
        assert(forall|j: int|
            0 <= j < s.len() - 1 ==> #[trigger] t.drop_last()[j].0@ == s.drop_last()[j].0@);
        assert(forall|j: int|
            0 <= j < s.len() - 1 ==> #[trigger] t.drop_last()[j].1@ == wm_prune(
                s.drop_last()[j].1@,
                k,
            ));
        lemma_lm_prune_seq(s.drop_last(), t.drop_last(), k);
        assert(t.last().0@ == s.last().0@);
        assert(t.last().1@ == wm_prune(s.last().1@, k));
        assert(lang_map_of(t) =~= lm_prune(lang_map_of(s), k));
    }
}

// ---------------------------------------------------------------------------
// Laws of the aggregation algebra
// ---------------------------------------------------------------------------

/// Merging is commutative: the order two local tables reach the global table
/// in does not matter.
pub proof fn lemma_merge_comm(
    a: Map<Seq<char>, Map<Seq<char>, u64>>,
    b: Map<Seq<char>, Map<Seq<char>, u64>>,
)
    ensures
        lm_merge(a, b) == lm_merge(b, a),
{
    assert forall|lang: Seq<char>| lm_merge(a, b).contains_key(lang) implies #[trigger] lm_merge(
        a,
        b,
    )[lang] == lm_merge(b, a)[lang] by {
        assert(wm_merge(words_of(a, lang), words_of(b, lang)) =~= wm_merge(
            words_of(b, lang),
            words_of(a, lang),
        ));
    }
    assert(lm_merge(a, b) =~= lm_merge(b, a));
}

/// Merging is associative: grouping of merges does not matter, so any
/// permutation of local tables folded into an empty global table yields the
/// same counts.
pub proof fn lemma_merge_assoc(
    a: Map<Seq<char>, Map<Seq<char>, u64>>,
    b: Map<Seq<char>, Map<Seq<char>, u64>>,
    c: Map<Seq<char>, Map<Seq<char>, u64>>,
)
    ensures
        lm_merge(lm_merge(a, b), c) == lm_merge(a, lm_merge(b, c)),
{
    assert forall|lang: Seq<char>| lm_merge(lm_merge(a, b), c).contains_key(lang)
        implies #[trigger] lm_merge(lm_merge(a, b), c)[lang] == lm_merge(a, lm_merge(b, c))[lang] by {
        let wa = words_of(a, lang);
        let wb = words_of(b, lang);
        let wc = words_of(c, lang);
        assert(words_of(lm_merge(a, b), lang) =~= wm_merge(wa, wb));
        assert(words_of(lm_merge(b, c), lang) =~= wm_merge(wb, wc));
        assert(wm_merge(wm_merge(wa, wb), wc) =~= wm_merge(wa, wm_merge(wb, wc)));
    }
    assert(lm_merge(lm_merge(a, b), c) =~= lm_merge(a, lm_merge(b, c)));
}

/// Merging the empty table changes nothing.
pub proof fn lemma_merge_empty(m: Map<Seq<char>, Map<Seq<char>, u64>>)
    ensures
        lm_merge(m, Map::<Seq<char>, Map<Seq<char>, u64>>::empty()) == m,
        lm_merge(Map::<Seq<char>, Map<Seq<char>, u64>>::empty(), m) == m,
{
    assert forall|lang: Seq<char>| m.contains_key(lang) implies #[trigger] wm_merge(
        words_of(m, lang),
        words_of(Map::<Seq<char>, Map<Seq<char>, u64>>::empty(), lang),
    ) == m[lang] && wm_merge(
        words_of(Map::<Seq<char>, Map<Seq<char>, u64>>::empty(), lang),
        words_of(m, lang),
    ) == m[lang] by {
        assert(wm_merge(words_of(m, lang), Map::<Seq<char>, u64>::empty()) =~= m[lang]);
        assert(wm_merge(Map::<Seq<char>, u64>::empty(), words_of(m, lang)) =~= m[lang]);
    }
    assert(lm_merge(m, Map::<Seq<char>, Map<Seq<char>, u64>>::empty()) =~= m);
    assert(lm_merge(Map::<Seq<char>, Map<Seq<char>, u64>>::empty(), m) =~= m);
}

/// Merging the same local table twice into a fresh global table doubles every
/// count it contributed: merge accumulates, it never overwrites.
pub proof fn lemma_merge_additive(l: Map<Seq<char>, Map<Seq<char>, u64>>)
    ensures
        lm_merge(lm_merge(Map::<Seq<char>, Map<Seq<char>, u64>>::empty(), l), l).dom() == l.dom(),
        forall|lang: Seq<char>, w: Seq<char>|
            l.contains_key(lang) && l[lang].contains_key(w) ==> lm_merge(
                lm_merge(Map::<Seq<char>, Map<Seq<char>, u64>>::empty(), l),
                l,
            )[lang][w] == sat_add(#[trigger] l[lang][w], l[lang][w]),
{
    let e = Map::<Seq<char>, Map<Seq<char>, u64>>::empty();
    lemma_merge_empty(l);
    assert forall|lang: Seq<char>, w: Seq<char>|
        l.contains_key(lang) && l[lang].contains_key(w) implies lm_merge(lm_merge(e, l), l)[lang][w]
        == sat_add(#[trigger] l[lang][w], l[lang][w]) by {
        assert(words_of(lm_merge(e, l), lang) == wm_merge(words_of(e, lang), words_of(l, lang)));
        assert(count_of(words_of(lm_merge(e, l), lang), w) == sat_add(0, l[lang][w]));
    }
    assert(lm_merge(lm_merge(e, l), l).dom() =~= l.dom());
}

/// A sequence of local tables folded into `g`, in order.
pub open spec fn lm_merge_all(
    g: Map<Seq<char>, Map<Seq<char>, u64>>,
    ts: Seq<Map<Seq<char>, Map<Seq<char>, u64>>>,
) -> Map<Seq<char>, Map<Seq<char>, u64>>
    decreases ts.len(),
{
    if ts.len() == 0 {
        g
    } else {
        lm_merge(lm_merge_all(g, ts.drop_last()), ts.last())
    }
}

/// The last two merges can be exchanged.
proof fn lemma_merge_exchange(
    g: Map<Seq<char>, Map<Seq<char>, u64>>,
    x: Map<Seq<char>, Map<Seq<char>, u64>>,
    y: Map<Seq<char>, Map<Seq<char>, u64>>,
)
    ensures
        lm_merge(lm_merge(g, x), y) == lm_merge(lm_merge(g, y), x),
{
    lemma_merge_assoc(g, x, y);
    lemma_merge_comm(x, y);
    lemma_merge_assoc(g, y, x);
}

/// Any one table of the fold can be pulled out to the end.
proof fn lemma_merge_all_pull(
    g: Map<Seq<char>, Map<Seq<char>, u64>>,
    ts: Seq<Map<Seq<char>, Map<Seq<char>, u64>>>,
    i: int,
)
    requires
        0 <= i < ts.len(),
    ensures
        lm_merge_all(g, ts) == lm_merge(lm_merge_all(g, ts.remove(i)), ts[i]),
    decreases ts.len(),
{
    if i == ts.len() - 1 {
        assert(ts.remove(i) =~= ts.drop_last());
    } else {
        let dl = ts.drop_last();
        lemma_merge_all_pull(g, dl, i);
        lemma_merge_exchange(lm_merge_all(g, dl.remove(i)), dl[i], ts.last());
        assert(ts.remove(i).drop_last() =~= dl.remove(i));
        assert(ts.remove(i).last() == ts.last());
        assert(ts[i] == dl[i]);
    }
}

/// Merging a set of local tables into a global table in any permutation
/// yields the same final counts: the aggregation algebra is commutative and
/// associative, so the scheduler-dependent merge order cannot change the
/// result.
pub proof fn lemma_merge_any_order(
    g: Map<Seq<char>, Map<Seq<char>, u64>>,
    ts1: Seq<Map<Seq<char>, Map<Seq<char>, u64>>>,
    ts2: Seq<Map<Seq<char>, Map<Seq<char>, u64>>>,
)
    requires
        ts1.to_multiset() == ts2.to_multiset(),
    ensures
        lm_merge_all(g, ts1) == lm_merge_all(g, ts2),
    decreases ts1.len(),
{
    broadcast use vstd::seq_lib::group_to_multiset_ensures;

    assert(ts1.to_multiset().len() == ts1.len());
    assert(ts2.to_multiset().len() == ts2.len());
    if ts1.len() == 0 {
        assert(ts2.len() == 0);
    } else {
        let n1 = ts1.len() - 1;
        let x = ts1[n1];
        assert(ts1.contains(x));
        assert(ts2.to_multiset().count(x) > 0);
        assert(ts2.contains(x));
        let i = choose|i: int| 0 <= i < ts2.len() && ts2[i] == x;
        lemma_merge_all_pull(g, ts2, i);
        assert(ts1.remove(n1) =~= ts1.drop_last());
        assert(ts1.drop_last().to_multiset() =~= ts1.to_multiset().remove(x));
        assert(ts2.remove(i).to_multiset() =~= ts2.to_multiset().remove(x));
        lemma_merge_any_order(g, ts1.drop_last(), ts2.remove(i));
    }
}

/// After `prune(k)`: languages survive unchanged as keys; every surviving
/// word keeps its old count, which is at least `k`; every removed word's old
/// count was strictly below `k`.
pub proof fn lemma_prune_bounds(m: Map<Seq<char>, Map<Seq<char>, u64>>, k: u64)
    ensures
        lm_prune(m, k).dom() == m.dom(),
        forall|lang: Seq<char>, w: Seq<char>|
            m.contains_key(lang) && #[trigger] lm_prune(m, k)[lang].contains_key(w) ==> lm_prune(
                m,
                k,
            )[lang][w] == m[lang][w] && m[lang][w] >= k,
        forall|lang: Seq<char>, w: Seq<char>|
            m.contains_key(lang) && #[trigger] m[lang].contains_key(w) && !(#[trigger] lm_prune(
                m,
                k,
            )[lang]).contains_key(w) ==> m[lang][w] < k,
{
    assert(lm_prune(m, k).dom() =~= m.dom());
}

} // verus!
