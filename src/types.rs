//! Word and token model: borrowed forms, their owned mirrors, and the
//! finalization that turns an [`IncompleteToken`] into a [`Token`].
use std::borrow::Cow;
use vstd::prelude::*;

use crate::tagger::{
    texts, word_id_of, Tagger, WordDataModel, EMPTY_TAG, SENT_END_TAG, SENT_START_TAG, UNKNOWN_TAG,
};

verus! {

/// Model of a word identity: (text, numeric disambiguator).
pub type WordIdModel = (Seq<char>, Option<u32>);

/// Model of a word: (text identity, candidate analyses in order).
pub type WordModel = (WordIdModel, Seq<WordDataModel>);

/// An interned word identity in borrowed form: text plus an optional numeric id.
#[derive(Debug)]
pub struct WordId<'t>(pub Cow<'t, str>, pub Option<u32>);

/// A word identity holding its own copy of the text.
#[derive(Debug, PartialEq, Eq, Hash)]
pub struct OwnedWordId(pub String, pub Option<u32>);

impl<'t> View for WordId<'t> {
    type V = WordIdModel;

    open spec fn view(&self) -> WordIdModel {
        (self.0@, self.1)
    }
}

impl View for OwnedWordId {
    type V = WordIdModel;

    open spec fn view(&self) -> WordIdModel {
        (self.0@, self.1)
    }
}

fn cow_text<'a>(c: &'a Cow<'a, str>) -> (r: String)
    ensures
        r@ == c@,
{
    match c {
        Cow::Borrowed(s) => (*s).to_owned(),
        Cow::Owned(o) => o.clone(),
    }
}

/// A copy of each string.
pub fn clone_strings(v: &Vec<String>) -> (r: Vec<String>)
    ensures
        r@ == v@,
{
    let mut r: Vec<String> = Vec::new();
    let mut i: usize = 0;
    while i < v.len()
        invariant
            i <= v@.len(),
            r@ == v@.subrange(0, i as int),
        decreases v@.len() - i,
    {
        r.push(v[i].clone());
        i = i + 1;
        assert(r@ =~= v@.subrange(0, i as int));
    }
    assert(r@ =~= v@);
    r
}

impl<'t> WordId<'t> {
    pub fn new(text: Cow<'t, str>, id: Option<u32>) -> (r: Self)
        ensures
            r@ == (text@, id),
            r.0 == text,
            r.1 == id,
    {
        WordId(text, id)
    }

    /// A second handle on the same text: borrowed text stays borrowed.
    pub fn duplicate(&self) -> (r: WordId<'t>)
        ensures
            r@ == self@,
    {
        match &self.0 {
            Cow::Borrowed(s) => WordId(Cow::Borrowed(*s), self.1),
            Cow::Owned(o) => WordId(Cow::Owned(o.clone()), self.1),
        }
    }

    pub fn to_owned_id(&self) -> (r: OwnedWordId)
        ensures
            r@ == self@,
    {
        OwnedWordId(cow_text(&self.0), self.1)
    }

    pub fn id(&self) -> (r: &Option<u32>)
        ensures
            *r == self.1,
    {
        &self.1
    }

    /// The text of this identity.
    pub fn as_str(&self) -> (r: &str)
        ensures
            r@ == self.0@,
    {
        match &self.0 {
            Cow::Borrowed(s) => *s,
            Cow::Owned(o) => o.as_str(),
        }
    }
}

impl<'t> Clone for WordId<'t> {
    fn clone(&self) -> Self {
        self.duplicate()
    }
}

impl<'t> PartialEq for WordId<'t> {
    fn eq(&self, other: &WordId<'t>) -> (r: bool) {
        let a = self.as_str().to_owned();
        let b = other.as_str().to_owned();
        a == b && self.1 == other.1
    }
}

impl<'t> vstd::std_specs::cmp::PartialEqSpecImpl for WordId<'t> {
    open spec fn obeys_eq_spec() -> bool {
        true
    }

    open spec fn eq_spec(&self, other: &WordId<'t>) -> bool {
        self@ == other@
    }
}

impl<'t> AsRef<str> for WordId<'t> {
    fn as_ref(&self) -> (r: &str)
        ensures
            r@ == self.0@,
    {
        self.as_str()
    }
}

impl OwnedWordId {
    /// A borrowed view of this identity: the text is borrowed, not copied.
    pub fn as_ref_id(&self) -> (r: WordId<'_>)
        ensures
            r@ == self@,
            r.0 matches Cow::Borrowed(_),
    {
        WordId::new(Cow::Borrowed(self.0.as_str()), self.1)
    }
}

impl AsRef<str> for OwnedWordId {
    fn as_ref(&self) -> (r: &str)
        ensures
            r@ == self.0@,
    {
        self.0.as_str()
    }
}

/// Lemma and part-of-speech tag associated with a word.
#[derive(Debug, Clone, PartialEq)]
pub struct WordData<'t> {
    pub lemma: WordId<'t>,
    pub pos_id: u16,
}

/// An owned version of [`WordData`].
#[derive(Debug, PartialEq, Eq, Hash)]
pub struct OwnedWordData {
    pub lemma: OwnedWordId,
    pub pos_id: u16,
}

impl<'t> View for WordData<'t> {
    type V = WordDataModel;

    open spec fn view(&self) -> WordDataModel {
        (self.lemma@, self.pos_id)
    }
}

impl View for OwnedWordData {
    type V = WordDataModel;

    open spec fn view(&self) -> WordDataModel {
        (self.lemma@, self.pos_id)
    }
}

impl<'t> WordData<'t> {
    pub fn new(lemma: WordId<'t>, pos_id: u16) -> (r: Self)
        ensures
            r@ == (lemma@, pos_id),
    {
        WordData { lemma, pos_id }
    }

    pub fn to_owned_word_data(&self) -> (r: OwnedWordData)
        ensures
            r@ == self@,
    {
        OwnedWordData { lemma: self.lemma.to_owned_id(), pos_id: self.pos_id }
    }
}

impl OwnedWordData {
    pub fn new(lemma: OwnedWordId, pos_id: u16) -> (r: Self)
        ensures
            r@ == (lemma@, pos_id),
    {
        OwnedWordData { lemma, pos_id }
    }
}

/// The models of a sequence of analyses.
pub open spec fn data_models<'t>(v: Seq<WordData<'t>>) -> Seq<WordDataModel> {
    v.map_values(|d: WordData<'t>| d@)
}

/// The models of a sequence of owned analyses.
pub open spec fn owned_data_models(v: Seq<OwnedWordData>) -> Seq<WordDataModel> {
    v.map_values(|d: OwnedWordData| d@)
}

/// The text of a word together with its candidate analyses, preferred first.
#[derive(Debug, Clone, PartialEq)]
pub struct Word<'t> {
    pub text: WordId<'t>,
    pub tags: Vec<WordData<'t>>,
}

/// An owned version of [`Word`].
#[derive(Debug)]
pub struct OwnedWord {
    pub text: OwnedWordId,
    pub tags: Vec<OwnedWordData>,
}

impl<'t> View for Word<'t> {
    type V = WordModel;

    open spec fn view(&self) -> WordModel {
        (self.text@, data_models(self.tags@))
    }
}

impl View for OwnedWord {
    type V = WordModel;

    open spec fn view(&self) -> WordModel {
        (self.text@, owned_data_models(self.tags@))
    }
}

impl<'t> Word<'t> {
    pub fn new_with_tags(text: WordId<'t>, tags: Vec<WordData<'t>>) -> (r: Self)
        ensures
            r@ == (text@, data_models(tags@)),
    {
        Word { text, tags }
    }

    pub fn to_owned_word(&self) -> (r: OwnedWord)
        ensures
            r@ == self@,
    {
        let mut tags: Vec<OwnedWordData> = Vec::new();
        let mut i: usize = 0;
        while i < self.tags.len()
            invariant
                i <= self.tags@.len(),
                tags@.len() == i,
                owned_data_models(tags@) =~= data_models(self.tags@).subrange(0, i as int),
            decreases self.tags@.len() - i,
        {
            let d = self.tags[i].to_owned_word_data();
            assert(d@ == self.tags@[i as int]@);
            tags.push(d);
            assert(owned_data_models(tags@) =~= data_models(self.tags@).subrange(0, i + 1));
            i = i + 1;
        }
        assert(data_models(self.tags@).subrange(0, i as int) =~= data_models(self.tags@));
        OwnedWord { text: self.text.to_owned_id(), tags }
    }
}

/// A token while the analysis pass fills it in.
#[derive(Debug)]
pub struct IncompleteToken<'t> {
    pub word: Word<'t>,
    pub byte_span: (usize, usize),
    pub char_span: (usize, usize),
    pub is_sentence_end: bool,
    pub has_space_before: bool,
    pub chunks: Vec<String>,
    pub text: &'t str,
    pub tagger: &'t Tagger,
}

fn same_strings(a: &Vec<String>, b: &Vec<String>) -> (r: bool)
    ensures
        r == (texts(a@) == texts(b@)),
{
    if a.len() != b.len() {
        assert(texts(a@).len() != texts(b@).len());
        return false;
    }
    let mut i: usize = 0;
    while i < a.len()
        invariant
            i <= a@.len(),
            a@.len() == b@.len(),
            forall|k: int| 0 <= k < i ==> a@[k]@ == b@[k]@,
        decreases a@.len() - i,
    {
        if a[i] != b[i] {
            assert(texts(a@)[i as int] != texts(b@)[i as int]);
            return false;
        }
        i = i + 1;
    }
    assert(texts(a@) =~= texts(b@));
    true
}

fn same_analyses(a: &Vec<WordData>, b: &Vec<WordData>) -> (r: bool)
    ensures
        r == (data_models(a@) == data_models(b@)),
{
    if a.len() != b.len() {
        assert(data_models(a@).len() != data_models(b@).len());
        return false;
    }
    let mut i: usize = 0;
    while i < a.len()
        invariant
            i <= a@.len(),
            a@.len() == b@.len(),
            forall|k: int| 0 <= k < i ==> a@[k]@ == b@[k]@,
        decreases a@.len() - i,
    {
        if a[i].pos_id != b[i].pos_id || a[i].lemma != b[i].lemma {
            assert(data_models(a@)[i as int] != data_models(b@)[i as int]);
            return false;
        }
        i = i + 1;
    }
    assert(data_models(a@) =~= data_models(b@));
    true
}

/// Equality of everything but the tagger reference.
impl<'t> PartialEq for IncompleteToken<'t> {
    fn eq(&self, other: &IncompleteToken<'t>) -> (r: bool) {
        self.word.text == other.word.text && same_analyses(&self.word.tags, &other.word.tags)
            && self.byte_span.0 == other.byte_span.0 && self.byte_span.1 == other.byte_span.1
            && self.char_span.0 == other.char_span.0 && self.char_span.1 == other.char_span.1
            && self.is_sentence_end == other.is_sentence_end && self.has_space_before
            == other.has_space_before && same_strings(&self.chunks, &other.chunks)
            && self.text.to_owned() == other.text.to_owned()
    }
}

impl<'t> vstd::std_specs::cmp::PartialEqSpecImpl for IncompleteToken<'t> {
    open spec fn obeys_eq_spec() -> bool {
        true
    }

    open spec fn eq_spec(&self, other: &IncompleteToken<'t>) -> bool {
        &&& self.word@ == other.word@
        &&& self.byte_span == other.byte_span
        &&& self.char_span == other.char_span
        &&& self.is_sentence_end == other.is_sentence_end
        &&& self.has_space_before == other.has_space_before
        &&& texts(self.chunks@) == texts(other.chunks@)
        &&& self.text@ == other.text@
    }
}

/// A finished token with all information set.
#[derive(Debug)]
pub struct Token<'t> {
    pub word: Word<'t>,
    pub char_span: (usize, usize),
    pub byte_span: (usize, usize),
    pub has_space_before: bool,
    pub chunks: Vec<String>,
    pub text: &'t str,
    pub tagger: &'t Tagger,
}

/// An owned version of [`Token`], without the tagger reference.
#[derive(Debug)]
pub struct OwnedToken {
    pub word: OwnedWord,
    pub char_span: (usize, usize),
    pub byte_span: (usize, usize),
    pub has_space_before: bool,
    pub chunks: Vec<String>,
}

/// Model of a token: everything but the document and tagger references.
pub struct TokenView {
    pub word: WordModel,
    pub char_span: (usize, usize),
    pub byte_span: (usize, usize),
    pub has_space_before: bool,
    pub chunks: Seq<Seq<char>>,
}

impl<'t> View for Token<'t> {
    type V = TokenView;

    open spec fn view(&self) -> TokenView {
        TokenView {
            word: self.word@,
            char_span: self.char_span,
            byte_span: self.byte_span,
            has_space_before: self.has_space_before,
            chunks: texts(self.chunks@),
        }
    }
}

impl View for OwnedToken {
    type V = TokenView;

    open spec fn view(&self) -> TokenView {
        TokenView {
            word: self.word@,
            char_span: self.char_span,
            byte_span: self.byte_span,
            has_space_before: self.has_space_before,
            chunks: texts(self.chunks@),
        }
    }
}

/// Suggestion for a change in a text.
#[derive(Debug)]
pub struct Suggestion {
    /// The id of the rule this suggestion is from.
    pub source: String,
    /// A human-readable message.
    pub message: String,
    /// The start character index (inclusive).
    pub start: usize,
    /// The end character index (exclusive).
    pub end: usize,
    /// The suggested replacement options for the text.
    pub text: Vec<String>,
}

/// Model of a suggestion.
pub struct SuggestionView {
    pub source: Seq<char>,
    pub message: Seq<char>,
    pub start: usize,
    pub end: usize,
    pub text: Seq<Seq<char>>,
}

impl View for Suggestion {
    type V = SuggestionView;

    open spec fn view(&self) -> SuggestionView {
        SuggestionView {
            source: self.source@,
            message: self.message@,
            start: self.start,
            end: self.end,
            text: texts(self.text@),
        }
    }
}

/// Every name of the tags in `tags` is empty.
pub open spec fn all_empty(tagger: Tagger, tags: Seq<WordDataModel>) -> bool {
    forall|k: int| 0 <= k < tags.len() ==> tagger.tag_name(#[trigger] tags[k].1) == Seq::<char>::empty()
}

/// Every tag id in `tags` names a tag of `tagger`.
pub open spec fn tags_known(tagger: Tagger, tags: Seq<WordDataModel>) -> bool {
    forall|k: int| 0 <= k < tags.len() ==> (#[trigger] tags[k].1 as int) < tagger.tag_names().len()
}

/// The analyses after finalization: the null analysis, then `UNKNOWN` when
/// every tag name so far is empty, then `SENT_END` for a sentence end.
pub open spec fn finalized_tags(
    tagger: Tagger,
    text: WordIdModel,
    tags: Seq<WordDataModel>,
    sentence_end: bool,
) -> Seq<WordDataModel> {
    let with_null = tags.push((text, EMPTY_TAG));
    let with_unknown = if all_empty(tagger, with_null) {
        with_null.push((text, UNKNOWN_TAG))
    } else {
        with_null
    };
    if sentence_end {
        with_unknown.push((text, SENT_END_TAG))
    } else {
        with_unknown
    }
}

impl<'t> Token<'t> {
    /// The synthetic token that starts every analysed sequence.
    pub fn sent_start(text: &'t str, tagger: &'t Tagger) -> (r: Self)
        requires
            tagger.wf(),
        ensures
            r.word.text@ == (Seq::<char>::empty(), word_id_of(tagger.word_names(), Seq::empty())),
            data_models(r.word.tags@) == seq![(r.word.text@, SENT_START_TAG)],
            r.char_span == (0usize, 0usize),
            r.byte_span == (0usize, 0usize),
            !r.has_space_before,
            r.chunks@.len() == 0,
            r.text == text,
            r.tagger == tagger,
    {
        proof {
            reveal_strlit("");
        }
        let mut tags: Vec<WordData<'t>> = Vec::new();
        tags.push(WordData::new(tagger.id_word(Cow::Borrowed("")), SENT_START_TAG));
        let word = Word::new_with_tags(tagger.id_word(Cow::Borrowed("")), tags);
        assert(data_models(word.tags@) =~= seq![(word.text@, SENT_START_TAG)]);
        assert(word.text@.0 =~= Seq::<char>::empty());
        Token {
            word,
            char_span: (0, 0),
            byte_span: (0, 0),
            has_space_before: false,
            chunks: Vec::new(),
            text,
            tagger,
        }
    }

    /// Finalizes `data`: appends the null analysis, then `UNKNOWN` when all
    /// tag names are empty, then `SENT_END` when the token ends a sentence.
    pub fn from_incomplete(data: IncompleteToken<'t>) -> (r: Self)
        requires
            data.tagger.wf(),
            tags_known(*data.tagger, data_models(data.word.tags@)),
        ensures
            r.word.text@ == data.word.text@,
            data_models(r.word.tags@) == finalized_tags(
                *data.tagger,
                data.word.text@,
                data_models(data.word.tags@),
                data.is_sentence_end,
            ),
            r.char_span == data.char_span,
            r.byte_span == data.byte_span,
            r.has_space_before == data.has_space_before,
            r.chunks@ == data.chunks@,
            r@.chunks == texts(data.chunks@),
            r.text == data.text,
            r.tagger == data.tagger,
    {
        let tagger = data.tagger;
        let ghost pre = data_models(data.word.tags@);
        let ghost text = data.word.text@;
        let mut word = data.word;
        word.tags.push(WordData::new(word.text.duplicate(), EMPTY_TAG));
        assert(data_models(word.tags@) =~= pre.push((text, EMPTY_TAG)));
        assert(word.tags@.len() == pre.len() + 1);
        let mut empty = true;
        let mut i: usize = 0;
        while i < word.tags.len()
            invariant
                tagger.wf(),
                i <= word.tags@.len(),
                word.tags@.len() == pre.len() + 1,
                data_models(word.tags@) == pre.push((text, EMPTY_TAG)),
                tags_known(*tagger, pre),
                word.text@ == text,
                empty == all_empty(*tagger, data_models(word.tags@).subrange(0, i as int)),
            decreases word.tags@.len() - i,
        {
            let id = word.tags[i].pos_id;
            proof {
                let s = data_models(word.tags@);
                assert(s[i as int].1 == id);
                if i < pre.len() {
                    assert(s[i as int] == pre[i as int]);
                    assert((pre[i as int].1 as int) < tagger.tag_names().len());
                } else {
                    assert(s[i as int] == (text, EMPTY_TAG));
                }
                assert((id as int) < tagger.tag_names().len());
            }
            let name = tagger.id_to_tag(id);
            let name_empty = name.is_empty();
            proof {
                let s = data_models(word.tags@);
                let a = s.subrange(0, i as int);
                let b = s.subrange(0, i + 1);
                assert(name_empty == (tagger.tag_name(id) == Seq::<char>::empty())) by {
                    if name_empty {
                        assert(name@ =~= Seq::<char>::empty());
                    }
                }
                if all_empty(*tagger, b) {
                    assert forall|k: int| 0 <= k < a.len() implies tagger.tag_name(
                        #[trigger] a[k].1,
                    ) == Seq::<char>::empty() by {
                        assert(a[k] == b[k]);
                    }
                    assert(b[i as int] == s[i as int]);
                } else if all_empty(*tagger, a) && name_empty {
                    assert forall|k: int| 0 <= k < b.len() implies tagger.tag_name(
                        #[trigger] b[k].1,
                    ) == Seq::<char>::empty() by {
                        if k < i {
                            assert(a[k] == b[k]);
                        }
                    }
                }
            }
            empty = empty && name_empty;
            i = i + 1;
        }
        assert(data_models(word.tags@).subrange(0, i as int) =~= data_models(word.tags@));
        if empty {
            word.tags.push(WordData::new(word.text.duplicate(), UNKNOWN_TAG));
        }
        if data.is_sentence_end {
            word.tags.push(WordData::new(word.text.duplicate(), SENT_END_TAG));
        }
        assert(data_models(word.tags@) =~= finalized_tags(*tagger, text, pre, data.is_sentence_end));
        Token {
            word,
            byte_span: data.byte_span,
            char_span: data.char_span,
            has_space_before: data.has_space_before,
            chunks: data.chunks,
            text: data.text,
            tagger,
        }
    }

    pub fn to_owned_token(&self) -> (r: OwnedToken)
        ensures
            r@ == self@,
            r.chunks@ == self.chunks@,
    {
        OwnedToken {
            word: self.word.to_owned_word(),
            char_span: self.char_span,
            byte_span: self.byte_span,
            has_space_before: self.has_space_before,
            chunks: clone_strings(&self.chunks),
        }
    }
}

/// Round trip: a borrowed identity made from an owned one, and the owned
/// copy made from that, keep the text and the numeric id; copying again
/// changes nothing.
pub proof fn lemma_word_id_round_trip(
    x: WordId,
    owned: OwnedWordId,
    back: WordId,
    again: OwnedWordId,
)
    requires
        owned@ == x@,
        back@ == owned@,
        again@ == back@,
    ensures
        owned.0@ == x.0@ && owned.1 == x.1,
        again@ == owned@,
{
}

/// Round trip of a word: the owned copy has the borrowed word's text and
/// every analysis in order, and copying the copy again changes nothing.
pub proof fn lemma_word_round_trip(x: Word, owned: OwnedWord, again: OwnedWord)
    requires
        owned@ == x@,
        again@ == owned@,
    ensures
        owned.text@ == x.text@,
        owned.tags@.len() == x.tags@.len(),
        forall|k: int| 0 <= k < x.tags@.len() ==> (#[trigger] owned.tags@[k])@ == x.tags@[k]@,
        again@ == x@,
{
    assert(owned_data_models(owned.tags@).len() == owned.tags@.len());
    assert(data_models(x.tags@).len() == x.tags@.len());
    assert forall|k: int| 0 <= k < x.tags@.len() implies (#[trigger] owned.tags@[k])@ == x.tags@[k]@ by {
        assert(owned_data_models(owned.tags@)[k] == data_models(x.tags@)[k]);
    }
}

/// Finalization never leaves a token without analyses, and the null
/// analysis (the word's own text with the empty tag) is always among them.
pub proof fn lemma_finalized_nonempty(
    tagger: Tagger,
    text: WordIdModel,
    tags: Seq<WordDataModel>,
    sentence_end: bool,
)
    ensures
        finalized_tags(tagger, text, tags, sentence_end).len() > 0,
        finalized_tags(tagger, text, tags, sentence_end)[tags.len() as int] == (text, EMPTY_TAG),
        finalized_tags(tagger, text, tags, sentence_end).contains((text, EMPTY_TAG)),
        finalized_tags(tagger, text, tags, sentence_end).subrange(0, tags.len() as int) == tags,
{
    let f = finalized_tags(tagger, text, tags, sentence_end);
    assert(f[tags.len() as int] == (text, EMPTY_TAG));
    assert(f.subrange(0, tags.len() as int) =~= tags);
}

/// A word whose analyses all carry empty tag names gains an `UNKNOWN`
/// analysis; a word with a non-empty tag name gains none.
pub proof fn lemma_unknown_marking(
    tagger: Tagger,
    text: WordIdModel,
    tags: Seq<WordDataModel>,
    sentence_end: bool,
)
    requires
        tagger.wf(),
    ensures
        all_empty(tagger, tags) ==> finalized_tags(tagger, text, tags, sentence_end).contains(
            (text, UNKNOWN_TAG),
        ),
        !all_empty(tagger, tags) ==> forall|k: int|
            tags.len() <= k < finalized_tags(tagger, text, tags, sentence_end).len() ==> (
            #[trigger] finalized_tags(tagger, text, tags, sentence_end)[k]).1 != UNKNOWN_TAG,
{
    let with_null = tags.push((text, EMPTY_TAG));
    let f = finalized_tags(tagger, text, tags, sentence_end);
    assert(tagger.tag_name(EMPTY_TAG) == Seq::<char>::empty());
    if all_empty(tagger, tags) {
        assert forall|k: int| 0 <= k < with_null.len() implies tagger.tag_name(
            #[trigger] with_null[k].1,
        ) == Seq::<char>::empty() by {
            if k < tags.len() {
                assert(with_null[k] == tags[k]);
            }
        }
        assert(f[tags.len() as int + 1] == (text, UNKNOWN_TAG));
    } else {
        let w = choose|w: int| 0 <= w < tags.len() && tagger.tag_name(tags[w].1) != Seq::<char>::empty();
        assert(with_null[w] == tags[w]);
        assert(!all_empty(tagger, with_null));
    }
}

/// A sentence-ending word gains exactly one `SENT_END` analysis, as its
/// last; any other word gains none.
pub proof fn lemma_sentence_end_marking(
    tagger: Tagger,
    text: WordIdModel,
    tags: Seq<WordDataModel>,
    sentence_end: bool,
)
    ensures
        ({
            let f = finalized_tags(tagger, text, tags, sentence_end);
            &&& sentence_end ==> f.last() == (text, SENT_END_TAG)
            &&& sentence_end ==> forall|k: int|
                tags.len() <= k < f.len() - 1 ==> (#[trigger] f[k]).1 != SENT_END_TAG
            &&& !sentence_end ==> forall|k: int|
                tags.len() <= k < f.len() ==> (#[trigger] f[k]).1 != SENT_END_TAG
        }),
{
}

proof fn lemma_all_empty_with_null(tagger: Tagger, text: WordIdModel, tags: Seq<WordDataModel>)
    requires
        tagger.wf(),
    ensures
        all_empty(tagger, tags.push((text, EMPTY_TAG))) == all_empty(tagger, tags),
{
    let with_null = tags.push((text, EMPTY_TAG));
    assert(tagger.tag_name(EMPTY_TAG) == Seq::<char>::empty());
    if all_empty(tagger, tags) {
        assert forall|k: int| 0 <= k < with_null.len() implies tagger.tag_name(
            #[trigger] with_null[k].1,
        ) == Seq::<char>::empty() by {
            if k < tags.len() {
                assert(with_null[k] == tags[k]);
            }
        }
    }
    if all_empty(tagger, with_null) {
        assert forall|k: int| 0 <= k < tags.len() implies tagger.tag_name(#[trigger] tags[k].1)
            == Seq::<char>::empty() by {
            assert(with_null[k] == tags[k]);
        }
    }
}

/// Finalization keeps narrowing: when the analyses of `narrow` are among
/// those of `wide` and both agree on whether every tag name is empty, the
/// finalized analyses of `narrow` are among those of `wide`.
pub proof fn lemma_finalization_monotone(
    tagger: Tagger,
    text: WordIdModel,
    narrow: Seq<WordDataModel>,
    wide: Seq<WordDataModel>,
    sentence_end: bool,
)
    requires
        tagger.wf(),
        forall|x: WordDataModel| #[trigger] narrow.contains(x) ==> wide.contains(x),
        all_empty(tagger, narrow) == all_empty(tagger, wide),
    ensures
        forall|x: WordDataModel|
            #[trigger] finalized_tags(tagger, text, narrow, sentence_end).contains(x)
                ==> finalized_tags(tagger, text, wide, sentence_end).contains(x),
{
    lemma_all_empty_with_null(tagger, text, narrow);
    lemma_all_empty_with_null(tagger, text, wide);
    let fnar = finalized_tags(tagger, text, narrow, sentence_end);
    let fwid = finalized_tags(tagger, text, wide, sentence_end);
    assert forall|x: WordDataModel| #[trigger] fnar.contains(x) implies fwid.contains(x) by {
        let k = choose|k: int| 0 <= k < fnar.len() && fnar[k] == x;
        if k < narrow.len() {
            assert(fnar[k] == narrow[k]);
            assert(narrow.contains(x));
            let w = choose|w: int| 0 <= w < wide.len() && wide[w] == x;
            assert(fwid[w] == wide[w]);
        } else {
            let off = k - narrow.len();
            assert(fwid[wide.len() + off] == fnar[k]);
        }
    }
}

} // verus!
