use std::borrow::Cow;
use vstd::prelude::*;

use crate::types::{data_models, WordData, WordId};

verus! {

/// Tag id of the empty placeholder tag.
pub const EMPTY_TAG: u16 = 0;

/// Tag id of the tag that marks a word the lexicon does not know.
pub const UNKNOWN_TAG: u16 = 1;

/// Tag id of the tag carried by the synthetic sentence-start token.
pub const SENT_START_TAG: u16 = 2;

/// Tag id of the tag appended to a token that ends a sentence.
pub const SENT_END_TAG: u16 = 3;

/// Largest number of distinct tags: ids are `u16`.
pub const MAX_TAGS: usize = 65536;

/// Largest number of distinct interned words: ids are `u32`.
pub const MAX_WORDS: usize = 4294967295;

/// One lexicon entry: a word form, one of its lemmas and that analysis' tag id.
#[derive(Debug, Clone)]
pub struct LexEntry {
    pub word: String,
    pub lemma: String,
    pub pos_id: u16,
}

/// Interned tag names, interned word forms and the lexicon.
///
/// Tag ids index the tag table; the first four ids are the engine's own
/// tags. Names in each table are distinct.
#[derive(Debug)]
pub struct Tagger {
    tags: Vec<String>,
    words: Vec<String>,
    entries: Vec<LexEntry>,
}

/// The text of each string, in order.
pub open spec fn texts(v: Seq<String>) -> Seq<Seq<char>> {
    v.map_values(|s: String| s@)
}

/// No text occurs twice.
pub open spec fn distinct(s: Seq<Seq<char>>) -> bool {
    forall|i: int, j: int| 0 <= i < s.len() && 0 <= j < s.len() && s[i] == s[j] ==> i == j
}

/// Position of `x` in a table of distinct texts, if present.
pub open spec fn index_of(s: Seq<Seq<char>>, x: Seq<char>) -> Option<int> {
    if exists|i: int| 0 <= i < s.len() && s[i] == x {
        Some(choose|i: int| 0 <= i < s.len() && s[i] == x)
    } else {
        None
    }
}

/// The interned id of `x` in a table of words.
pub open spec fn word_id_of(s: Seq<Seq<char>>, x: Seq<char>) -> Option<u32> {
    match index_of(s, x) {
        Some(i) => Some(i as u32),
        None => None,
    }
}

/// Model of a lexicon entry: (word, lemma, tag id).
pub type EntryModel = (Seq<char>, Seq<char>, u16);

/// Model of one analysis: ((lemma text, lemma id), tag id).
pub type WordDataModel = ((Seq<char>, Option<u32>), u16);

proof fn lemma_index_of_found(s: Seq<Seq<char>>, x: Seq<char>)
    ensures
        index_of(s, x) matches Some(i) ==> 0 <= i < s.len() && s[i] == x,
        index_of(s, x) is None ==> forall|k: int| 0 <= k < s.len() ==> s[k] != x,
{
}

proof fn lemma_push_distinct(s: Seq<Seq<char>>, x: Seq<char>)
    requires
        distinct(s),
        index_of(s, x) is None,
    ensures
        distinct(s.push(x)),
{
    lemma_index_of_found(s, x);
}

proof fn lemma_index_of(s: Seq<Seq<char>>, x: Seq<char>, i: int)
    requires
        distinct(s),
        0 <= i < s.len(),
        s[i] == x,
    ensures
        index_of(s, x) == Some(i),
{
}

impl Tagger {
    /// The tag names, indexed by tag id.
    pub closed spec fn tag_names(&self) -> Seq<Seq<char>> {
        texts(self.tags@)
    }

    /// The interned word forms, indexed by word id.
    pub closed spec fn word_names(&self) -> Seq<Seq<char>> {
        texts(self.words@)
    }

    /// The lexicon entries in insertion order.
    pub closed spec fn entries(&self) -> Seq<EntryModel> {
        self.entries@.map_values(|e: LexEntry| (e.word@, e.lemma@, e.pos_id))
    }

    /// The engine's own tags stand at their ids, names are distinct, ids fit
    /// their integer types and every entry's tag exists.
    pub open spec fn wf(&self) -> bool {
        let t = self.tag_names();
        &&& 4 <= t.len() <= MAX_TAGS
        &&& t[EMPTY_TAG as int] == Seq::<char>::empty()
        &&& t[UNKNOWN_TAG as int] == "UNKNOWN"@
        &&& t[SENT_START_TAG as int] == "SENT_START"@
        &&& t[SENT_END_TAG as int] == "SENT_END"@
        &&& distinct(t)
        &&& distinct(self.word_names())
        &&& self.word_names().len() <= MAX_WORDS
        &&& forall|k: int| 0 <= k < self.entries().len() ==> (#[trigger] self.entries()[k]).2 < t.len()
    }

    /// The name of a tag id; empty for an id outside the table.
    pub open spec fn tag_name(&self, id: u16) -> Seq<char> {
        if (id as int) < self.tag_names().len() {
            self.tag_names()[id as int]
        } else {
            Seq::empty()
        }
    }

    /// Analyses that the lexicon lists for `word` among its first `n` entries.
    pub open spec fn lookup_upto(&self, word: Seq<char>, n: int) -> Seq<WordDataModel>
        decreases n,
    {
        if n <= 0 {
            Seq::empty()
        } else {
            let prev = self.lookup_upto(word, n - 1);
            let e = self.entries()[n - 1];
            if e.0 == word {
                prev.push(((e.1, word_id_of(self.word_names(), e.1)), e.2))
            } else {
                prev
            }
        }
    }

    /// Analyses that the lexicon lists for `word`, in entry order.
    pub open spec fn lookup(&self, word: Seq<char>) -> Seq<WordDataModel> {
        self.lookup_upto(word, self.entries().len() as int)
    }

    fn position_in(table: &Vec<String>, x: &str) -> (r: Option<usize>)
        requires
            distinct(texts(table@)),
        ensures
            r == (match index_of(texts(table@), x@) {
                Some(i) => Some(i as usize),
                None => None::<usize>,
            }),
            r.is_some() ==> r.unwrap() < table@.len(),
    {
        let key = x.to_owned();
        let mut i: usize = 0;
        while i < table.len()
            invariant
                i <= table@.len(),
                key@ == x@,
                distinct(texts(table@)),
                forall|k: int| 0 <= k < i ==> table@[k]@ != x@,
            decreases table@.len() - i,
        {
            if table[i] == key {
                proof {
                    lemma_index_of(texts(table@), x@, i as int);
                }
                return Some(i);
            }
            i = i + 1;
        }
        assert(!exists|k: int| 0 <= k < texts(table@).len() && texts(table@)[k] == x@);
        None
    }

    /// A tagger holding only the engine's own tags and `extra_tags`, with an
    /// empty lexicon. Extra tags already present are not added twice.
    pub fn new(extra_tags: &Vec<String>) -> (r: Option<Tagger>)
        ensures
            r.is_some() ==> {
                let t = r.unwrap();
                &&& t.wf()
                &&& t.entries().len() == 0
                &&& t.word_names().len() == 0
                &&& forall|k: int| 0 <= k < extra_tags@.len() ==> t.tag_names().contains(
                    #[trigger] extra_tags@[k]@,
                )
                &&& forall|k: int|
                    4 <= k < t.tag_names().len() ==> texts(extra_tags@).contains(
                        #[trigger] t.tag_names()[k],
                    )
            },
            r matches Some(t) ==> t.tag_names().len() <= extra_tags@.len() + 4,
            r.is_none() ==> extra_tags@.len() + 4 > MAX_TAGS,
    {
        let mut tags: Vec<String> = Vec::new();
        tags.push("".to_owned());
        tags.push("UNKNOWN".to_owned());
        tags.push("SENT_START".to_owned());
        tags.push("SENT_END".to_owned());
        proof {
            reveal_strlit("");
            reveal_strlit("UNKNOWN");
            reveal_strlit("SENT_START");
            reveal_strlit("SENT_END");
        }
        let mut tagger = Tagger { tags, words: Vec::new(), entries: Vec::new() };
        assert(tagger.tag_names().len() == 4);
        assert(tagger.tag_names()[0] == Seq::<char>::empty());
        assert(tagger.tag_names()[1] == "UNKNOWN"@);
        assert forall|i: int, j: int|
            0 <= i < 4 && 0 <= j < 4 && tagger.tag_names()[i] == tagger.tag_names()[j] implies i
            == j by {
            let t = tagger.tag_names();
            assert(t[0].len() == 0 && t[1].len() == 7 && t[2].len() == 10 && t[3].len() == 8);
            assert(t[2][5] == 'S' && t[3][5] == 'E');
            if i == 0 {
            } else if i == 1 {
            } else if i == 2 {
                assert(t[2][5] != t[3][5]);
            } else {
                assert(t[2][5] != t[3][5]);
            }
        }
        assert(distinct(tagger.tag_names()));
        assert(tagger.word_names().len() == 0);
        assert(distinct(tagger.word_names()));
        assert(tagger.entries().len() == 0);
        assert(tagger.wf());
        let mut i: usize = 0;
        while i < extra_tags.len()
            invariant
                i <= extra_tags@.len(),
                tagger.wf(),
                tagger.entries().len() == 0,
                tagger.word_names().len() == 0,
                tagger.tag_names().len() <= 4 + i,
                i + 4 <= MAX_TAGS ==> tagger.tag_names().len() <= MAX_TAGS,
                forall|k: int|
                    4 <= k < tagger.tag_names().len() ==> texts(extra_tags@).contains(
                        #[trigger] tagger.tag_names()[k],
                    ),
                forall|k: int| 0 <= k < i ==> tagger.tag_names().contains(#[trigger] extra_tags@[k]@),
            decreases extra_tags@.len() - i,
        {
            let ghost before = tagger.tag_names();
            match tagger.intern_tag(extra_tags[i].as_str()) {
                Some(_) => {},
                None => {
                    assert(extra_tags@.len() + 4 > MAX_TAGS);
                    return None;
                },
            }
            proof {
                let after = tagger.tag_names();
                assert forall|k: int|
                    4 <= k < after.len() implies texts(extra_tags@).contains(#[trigger] after[k]) by {
                    if k < before.len() {
                        assert(after[k] == after.subrange(0, before.len() as int)[k]);
                        assert(texts(extra_tags@).contains(before[k]));
                    } else {
                        assert(after[k] == extra_tags@[i as int]@);
                        assert(texts(extra_tags@)[i as int] == extra_tags@[i as int]@);
                    }
                }
                assert forall|k: int| 0 <= k <= i implies after.contains(#[trigger] extra_tags@[k]@) by {
                    if k < i {
                        let w = choose|w: int| 0 <= w < before.len() && before[w] == extra_tags@[k]@;
                        assert(after[w] == after.subrange(0, before.len() as int)[w]);
                    }
                }
            }
            i = i + 1;
        }
        Some(tagger)
    }

    /// The id of tag `name`, adding it to the table when absent. `None` when
    /// it is absent and the table is full.
    pub fn intern_tag(&mut self, name: &str) -> (r: Option<u16>)
        requires
            old(self).wf(),
        ensures
            final(self).wf(),
            final(self).entries() == old(self).entries(),
            final(self).word_names() == old(self).word_names(),
            r matches Some(id) ==> (id as int) < final(self).tag_names().len()
                && final(self).tag_names()[id as int] == name@,
            final(self).tag_names().subrange(0, old(self).tag_names().len() as int)
                == old(self).tag_names(),
            match index_of(old(self).tag_names(), name@) {
                Some(i) => r == Some(i as u16) && final(self).tag_names() == old(self).tag_names(),
                None => if old(self).tag_names().len() < MAX_TAGS {
                    r == Some(old(self).tag_names().len() as u16) && final(self).tag_names()
                        == old(self).tag_names().push(name@)
                } else {
                    r.is_none() && final(self).tag_names() == old(self).tag_names()
                },
            },
    {
        proof {
            lemma_index_of_found(self.tag_names(), name@);
            assert(self.tag_names().subrange(0, self.tag_names().len() as int) =~= self.tag_names());
        }
        let r = match Self::position_in(&self.tags, name) {
            Some(i) => Some(i as u16),
            None => {
                if self.tags.len() < MAX_TAGS {
                    let id = self.tags.len() as u16;
                    self.tags.push(name.to_owned());
                    proof {
                        assert(texts(self.tags@) =~= texts(old(self).tags@).push(name@));
                        lemma_push_distinct(texts(old(self).tags@), name@);
                        assert(texts(self.tags@).subrange(0, old(self).tags@.len() as int) =~= texts(old(self).tags@));
                    }
                    Some(id)
                } else {
                    None
                }
            },
        };
        proof {
            assert(self.entries() =~= old(self).entries());
        }
        r
    }

    /// The id of word form `text`, adding it to the word table when absent.
    /// `None` when it is absent and the table is full.
    pub fn intern_word(&mut self, text: &str) -> (r: Option<u32>)
        requires
            old(self).wf(),
        ensures
            final(self).wf(),
            final(self).entries() == old(self).entries(),
            final(self).tag_names() == old(self).tag_names(),
            r matches Some(id) ==> (id as int) < final(self).word_names().len()
                && final(self).word_names()[id as int] == text@,
            final(self).word_names().subrange(0, old(self).word_names().len() as int)
                == old(self).word_names(),
            match index_of(old(self).word_names(), text@) {
                Some(i) => r == Some(i as u32) && final(self).word_names() == old(self).word_names(),
                None => if old(self).word_names().len() < MAX_WORDS {
                    r == Some(old(self).word_names().len() as u32) && final(self).word_names()
                        == old(self).word_names().push(text@)
                } else {
                    r.is_none() && final(self).word_names() == old(self).word_names()
                },
            },
    {
        proof {
            lemma_index_of_found(self.word_names(), text@);
            assert(self.word_names().subrange(0, self.word_names().len() as int) =~= self.word_names());
        }
        let r = match Self::position_in(&self.words, text) {
            Some(i) => Some(i as u32),
            None => {
                if self.words.len() < MAX_WORDS {
                    let id = self.words.len() as u32;
                    self.words.push(text.to_owned());
                    proof {
                        assert(texts(self.words@) =~= texts(old(self).words@).push(text@));
                        lemma_push_distinct(texts(old(self).words@), text@);
                        assert(texts(self.words@).subrange(0, old(self).words@.len() as int) =~= texts(old(self).words@));
                    }
                    Some(id)
                } else {
                    None
                }
            },
        };
        proof {
            assert(self.entries() =~= old(self).entries());
        }
        r
    }

    /// The id of tag `tag`, if the table holds it.
    pub fn tag_to_id(&self, tag: &str) -> (r: Option<u16>)
        requires
            self.wf(),
        ensures
            r == (match index_of(self.tag_names(), tag@) {
                Some(i) => Some(i as u16),
                None => None::<u16>,
            }),
    {
        match Self::position_in(&self.tags, tag) {
            Some(i) => Some(i as u16),
            None => None,
        }
    }

    /// The name of tag `id`.
    pub fn id_to_tag(&self, id: u16) -> (r: &str)
        requires
            self.wf(),
            (id as int) < self.tag_names().len(),
        ensures
            r@ == self.tag_name(id),
    {
        self.tags[id as usize].as_str()
    }

    /// Number of tags in the table.
    pub fn tag_count(&self) -> (r: usize)
        ensures
            r == self.tag_names().len(),
    {
        self.tags.len()
    }

    /// The identity of `text`: its id is its place in the word table, if any.
    pub fn id_word<'t>(&self, text: Cow<'t, str>) -> (r: WordId<'t>)
        requires
            self.wf(),
        ensures
            r@ == (text@, word_id_of(self.word_names(), text@)),
    {
        let id = match &text {
            Cow::Borrowed(s) => Self::position_in(&self.words, *s),
            Cow::Owned(o) => Self::position_in(&self.words, o.as_str()),
        };
        let id: Option<u32> = match id {
            Some(i) => Some(i as u32),
            None => None,
        };
        WordId::new(text, id)
    }

    /// Adds the analysis (`lemma`, `tag`) of word form `word` to the lexicon,
    /// interning the tag and both texts. `false` when a table is full; the
    /// lexicon is then unchanged.
    pub fn add_entry(&mut self, word: &str, lemma: &str, tag: &str) -> (r: bool)
        requires
            old(self).wf(),
        ensures
            final(self).wf(),
            r ==> final(self).entries() == old(self).entries().push(
                (word@, lemma@, index_of(final(self).tag_names(), tag@).unwrap() as u16),
            ),
            r ==> index_of(final(self).tag_names(), tag@) is Some,
            !r ==> final(self).entries() == old(self).entries(),
            final(self).tag_names().subrange(0, old(self).tag_names().len() as int)
                == old(self).tag_names(),
            old(self).tag_names().len() < MAX_TAGS && old(self).word_names().len() + 2
                <= MAX_WORDS ==> r,
            r ==> final(self).tag_name(final(self).entries().last().2) == tag@,
            old(self).tag_names().len() <= final(self).tag_names().len() <= old(self).tag_names().len() + 1,
            final(self).word_names().len() <= old(self).word_names().len() + 2,
    {
        let pos_id = match self.intern_tag(tag) {
            Some(id) => id,
            None => {
                return false;
            },
        };
        let ghost names = self.tag_names();
        if self.intern_word(word).is_none() {
            return false;
        }
        if self.intern_word(lemma).is_none() {
            return false;
        }
        self.entries.push(LexEntry { word: word.to_owned(), lemma: lemma.to_owned(), pos_id });
        proof {
            lemma_index_of_found(self.tag_names(), tag@);
            lemma_index_of(self.tag_names(), tag@, pos_id as int);
            assert(self.entries() =~= old(self).entries().push((word@, lemma@, pos_id)));
            assert(self.entries()[self.entries().len() - 1].2 < self.tag_names().len());
        }
        true
    }

    /// The lexicon as dictionary lines (word form, lemma, tag name), in order.
    pub fn lines(&self) -> (r: Vec<(String, String, String)>)
        requires
            self.wf(),
        ensures
            r@.len() == self.entries().len(),
            forall|k: int|
                0 <= k < r@.len() ==> {
                    let e = #[trigger] self.entries()[k];
                    &&& r@[k].0@ == e.0
                    &&& r@[k].1@ == e.1
                    &&& r@[k].2@ == self.tag_name(e.2)
                },
    {
        let mut r: Vec<(String, String, String)> = Vec::new();
        let mut i: usize = 0;
        while i < self.entries.len()
            invariant
                self.wf(),
                i <= self.entries@.len(),
                r@.len() == i,
                forall|k: int|
                    0 <= k < i ==> {
                        let e = #[trigger] self.entries()[k];
                        &&& r@[k].0@ == e.0
                        &&& r@[k].1@ == e.1
                        &&& r@[k].2@ == self.tag_name(e.2)
                    },
            decreases self.entries@.len() - i,
        {
            let e = &self.entries[i];
            assert(self.entries()[i as int].2 == e.pos_id);
            let tag = self.id_to_tag(e.pos_id).to_owned();
            r.push((e.word.clone(), e.lemma.clone(), tag));
            i = i + 1;
        }
        r
    }

    /// The lexicon's analyses of `word`, in entry order, with lemmas borrowed
    /// from the lexicon.
    pub fn get_tags<'t>(&'t self, word: &str) -> (r: Vec<WordData<'t>>)
        requires
            self.wf(),
        ensures
            data_models(r@) == self.lookup(word@),
    {
        let key = word.to_owned();
        let mut r: Vec<WordData<'t>> = Vec::new();
        let mut i: usize = 0;
        while i < self.entries.len()
            invariant
                self.wf(),
                i <= self.entries@.len(),
                key@ == word@,
                data_models(r@) == self.lookup_upto(word@, i as int),
            decreases self.entries@.len() - i,
        {
            let e = &self.entries[i];
            if e.word == key {
                let lemma = self.id_word(Cow::Borrowed(e.lemma.as_str()));
                r.push(WordData::new(lemma, e.pos_id));
                assert(data_models(r@) =~= self.lookup_upto(word@, i + 1));
            }
            i = i + 1;
        }
        r
    }
}

/// Whether (`word`, `lemma`, `tag`) is one of the `removed` dictionary lines.
/// Whether the dictionary line (`word`, `lemma`, `tag`) is one of `removed`.
pub open spec fn listed(
    removed: Seq<(String, String, String)>,
    word: Seq<char>,
    lemma: Seq<char>,
    tag: Seq<char>,
) -> bool {
    exists|k: int|
        0 <= k < removed.len() && (#[trigger] removed[k]).0@ == word && removed[k].1@ == lemma
            && removed[k].2@ == tag
}

/// The dictionary lines of `entries` that `removed` does not list, in order.
pub open spec fn kept_lines(
    entries: Seq<(String, String, String)>,
    removed: Seq<(String, String, String)>,
) -> Seq<(String, String, String)> {
    entries.filter(|e: (String, String, String)| !listed(removed, e.0@, e.1@, e.2@))
}

pub fn is_removed(removed: &Vec<(String, String, String)>, word: &str, lemma: &str, tag: &str) -> (r:
    bool)
    ensures
        r == listed(removed@, word@, lemma@, tag@),
{
    let w = word.to_owned();
    let l = lemma.to_owned();
    let t = tag.to_owned();
    let mut i: usize = 0;
    while i < removed.len()
        invariant
            i <= removed@.len(),
            w@ == word@,
            l@ == lemma@,
            t@ == tag@,
            forall|k: int|
                0 <= k < i ==> !((#[trigger] removed@[k]).0@ == word@ && removed@[k].1@ == lemma@
                    && removed@[k].2@ == tag@),
        decreases removed@.len() - i,
    {
        let e = &removed[i];
        if e.0 == w && e.1 == l && e.2 == t {
            return true;
        }
        i = i + 1;
    }
    false
}

/// Builds a tagger from `extra_tags` and the dictionary lines (word form,
/// lemma, tag name) of `entries` that `removed` does not list. The lexicon
/// holds those lines in order. `None` when a tag or word table overflows.
pub fn from_entries(
    extra_tags: &Vec<String>,
    entries: &Vec<(String, String, String)>,
    removed: &Vec<(String, String, String)>,
) -> (r: Option<Tagger>)
    ensures
        r matches Some(t) ==> {
            let kept = kept_lines(entries@, removed@);
            &&& t.wf()
            &&& forall|k: int| 0 <= k < extra_tags@.len() ==> t.tag_names().contains(
                #[trigger] extra_tags@[k]@,
            )
            &&& t.entries().len() == kept.len()
            &&& forall|k: int|
                0 <= k < kept.len() ==> {
                    let e = #[trigger] t.entries()[k];
                    &&& e.0 == kept[k].0@
                    &&& e.1 == kept[k].1@
                    &&& t.tag_name(e.2) == kept[k].2@
                }
        },
        extra_tags@.len() + entries@.len() + 4 <= MAX_TAGS && 2 * entries@.len() <= MAX_WORDS
            ==> r is Some,
{
    let mut tagger = match Tagger::new(extra_tags) {
        Some(t) => t,
        None => {
            return None;
        },
    };
    let ghost pred = |e: (String, String, String)| !listed(removed@, e.0@, e.1@, e.2@);
    let mut i: usize = 0;
    while i < entries.len()
        invariant
            i <= entries@.len(),
            tagger.wf(),
            pred == (|e: (String, String, String)| !listed(removed@, e.0@, e.1@, e.2@)),
            forall|k: int| 0 <= k < extra_tags@.len() ==> tagger.tag_names().contains(
                #[trigger] extra_tags@[k]@,
            ),
            tagger.tag_names().len() <= extra_tags@.len() + 4 + i,
            tagger.word_names().len() <= 2 * i,
            ({
                let kept = entries@.subrange(0, i as int).filter(pred);
                &&& tagger.entries().len() == kept.len()
                &&& forall|k: int|
                    0 <= k < kept.len() ==> {
                        let e = #[trigger] tagger.entries()[k];
                        &&& e.0 == kept[k].0@
                        &&& e.1 == kept[k].1@
                        &&& tagger.tag_name(e.2) == kept[k].2@
                    }
            }),
        decreases entries@.len() - i,
    {
        let line = &entries[i];
        let ghost before = tagger.tag_names();
        let ghost old_entries = tagger.entries();
        let ghost kept0 = entries@.subrange(0, i as int).filter(pred);
        let ghost kept1 = entries@.subrange(0, i + 1).filter(pred);
        proof {
            reveal(Seq::filter);
            assert(entries@.subrange(0, i + 1).drop_last() =~= entries@.subrange(0, i as int));
            assert(entries@.subrange(0, i + 1).last() == entries@[i as int]);
        }
        if !is_removed(removed, line.0.as_str(), line.1.as_str(), line.2.as_str()) {
            if !tagger.add_entry(line.0.as_str(), line.1.as_str(), line.2.as_str()) {
                return None;
            }
            proof {
                assert(kept1 == kept0.push(entries@[i as int]));
                assert forall|k: int|
                    0 <= k < kept1.len() implies {
                        let e = #[trigger] tagger.entries()[k];
                        &&& e.0 == kept1[k].0@
                        &&& e.1 == kept1[k].1@
                        &&& tagger.tag_name(e.2) == kept1[k].2@
                    } by {
                    if k < kept0.len() {
                        assert(tagger.entries()[k] == old_entries[k]);
                        assert((old_entries[k].2 as int) < before.len());
                        assert(tagger.tag_names()[old_entries[k].2 as int]
                            == tagger.tag_names().subrange(0, before.len() as int)[old_entries[k].2 as int]);
                    } else {
                        assert(tagger.entries()[k] == tagger.entries().last());
                    }
                }
                assert forall|k: int| 0 <= k < extra_tags@.len() implies tagger.tag_names().contains(
                    #[trigger] extra_tags@[k]@,
                ) by {
                    let w = choose|w: int| 0 <= w < before.len() && before[w] == extra_tags@[k]@;
                    assert(tagger.tag_names()[w] == tagger.tag_names().subrange(0, before.len() as int)[w]);
                }
            }
        } else {
            assert(kept1 == kept0);
        }
        i = i + 1;
    }
    assert(entries@.subrange(0, i as int) =~= entries@);
    Some(tagger)
}

} // verus!
