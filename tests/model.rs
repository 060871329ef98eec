use std::borrow::Cow;

use nlprule::error::Error;
use nlprule::rule::{check, match_end_at, Atom, Constraint, Disambiguation, Rule};
use nlprule::tagger::{from_entries, is_removed, Tagger, EMPTY_TAG, SENT_END_TAG, SENT_START_TAG, UNKNOWN_TAG};
use nlprule::types::{IncompleteToken, OwnedWordData, OwnedWordId, Token, Word, WordData, WordId};

fn tagger_with(entries: &[(&str, &str, &str)]) -> Tagger {
    let mut tagger = Tagger::new(&vec!["DT".to_string(), "NOUN".to_string()]).unwrap();
    for (word, lemma, tag) in entries {
        assert!(tagger.add_entry(word, lemma, tag));
    }
    tagger
}

fn incomplete<'t>(
    text: &'t str,
    tagger: &'t Tagger,
    word: &'t str,
    start: usize,
    sentence_end: bool,
) -> IncompleteToken<'t> {
    let end = start + word.chars().count();
    IncompleteToken {
        word: Word::new_with_tags(tagger.id_word(Cow::Borrowed(word)), tagger.get_tags(word)),
        byte_span: (start, end),
        char_span: (start, end),
        is_sentence_end: sentence_end,
        has_space_before: start > 0,
        chunks: Vec::new(),
        text,
        tagger,
    }
}

fn tag_ids(token: &Token) -> Vec<u16> {
    token.word.tags.iter().map(|d| d.pos_id).collect()
}

#[test]
fn word_id_round_trip() {
    let id = WordId::new(Cow::Borrowed("cat"), Some(7));
    let owned = id.to_owned_id();
    assert_eq!(owned, OwnedWordId("cat".to_string(), Some(7)));
    let back = owned.as_ref_id();
    assert_eq!(back.as_str(), "cat");
    assert_eq!(*back.id(), Some(7));
    assert_eq!(back.to_owned_id(), owned);
    let owned_text = WordId::new(Cow::Owned("dog".to_string()), None);
    assert_eq!(owned_text.duplicate().to_owned_id(), OwnedWordId("dog".to_string(), None));
    assert_eq!(AsRef::<str>::as_ref(&owned), "cat");
    assert!(back == WordId::new(Cow::Owned("cat".to_string()), Some(7)));
    assert!(back != WordId::new(Cow::Borrowed("cat"), None));
    assert!(back != WordId::new(Cow::Borrowed("cap"), Some(7)));
}

#[test]
fn word_round_trip_keeps_analyses_in_order() {
    let word = Word::new_with_tags(
        WordId::new(Cow::Borrowed("runs"), None),
        vec![
            WordData::new(WordId::new(Cow::Borrowed("run"), Some(1)), 5),
            WordData::new(WordId::new(Cow::Borrowed("run"), Some(1)), 6),
        ],
    );
    let owned = word.to_owned_word();
    assert_eq!(owned.text, OwnedWordId("runs".to_string(), None));
    assert_eq!(
        owned.tags,
        vec![
            OwnedWordData::new(OwnedWordId("run".to_string(), Some(1)), 5),
            OwnedWordData::new(OwnedWordId("run".to_string(), Some(1)), 6),
        ]
    );
    assert_eq!(word.tags[1].to_owned_word_data(), owned.tags[1]);
}

#[test]
fn tagger_tables() {
    let tagger = tagger_with(&[("cat", "cat", "NOUN"), ("the", "the", "DT")]);
    assert_eq!(tagger.tag_to_id(""), Some(EMPTY_TAG));
    assert_eq!(tagger.tag_to_id("UNKNOWN"), Some(UNKNOWN_TAG));
    assert_eq!(tagger.tag_to_id("SENT_START"), Some(SENT_START_TAG));
    assert_eq!(tagger.tag_to_id("SENT_END"), Some(SENT_END_TAG));
    assert_eq!(tagger.tag_to_id("DT"), Some(4));
    assert_eq!(tagger.tag_to_id("NOUN"), Some(5));
    assert_eq!(tagger.tag_to_id("VERB"), None);
    assert_eq!(tagger.id_to_tag(5), "NOUN");
    assert_eq!(tagger.tag_count(), 6);
    assert_eq!(*tagger.id_word(Cow::Borrowed("cat")).id(), Some(0));
    assert_eq!(*tagger.id_word(Cow::Borrowed("the")).id(), Some(1));
    assert_eq!(*tagger.id_word(Cow::Borrowed("sat")).id(), None);
}

#[test]
fn interning_twice_gives_one_id() {
    let mut tagger = Tagger::new(&vec!["NOUN".to_string(), "NOUN".to_string()]).unwrap();
    assert_eq!(tagger.tag_count(), 5);
    assert_eq!(tagger.intern_tag("NOUN"), Some(4));
    assert_eq!(tagger.intern_tag("VERB"), Some(5));
    assert_eq!(tagger.intern_tag("VERB"), Some(5));
    assert_eq!(tagger.intern_word("a"), Some(0));
    assert_eq!(tagger.intern_word("b"), Some(1));
    assert_eq!(tagger.intern_word("a"), Some(0));
}

#[test]
fn lookup_keeps_entry_order() {
    let tagger = tagger_with(&[("saw", "see", "VERB"), ("cat", "cat", "NOUN"), ("saw", "saw", "NOUN")]);
    let tags = tagger.get_tags("saw");
    assert_eq!(tags.len(), 2);
    assert_eq!(tags[0].lemma.as_str(), "see");
    assert_eq!(tags[0].pos_id, tagger.tag_to_id("VERB").unwrap());
    assert_eq!(tags[1].lemma.as_str(), "saw");
    assert_eq!(tags[1].pos_id, tagger.tag_to_id("NOUN").unwrap());
    assert!(tagger.get_tags("dog").is_empty());
}

#[test]
fn known_word_gets_null_analysis_only() {
    let tagger = tagger_with(&[("cat", "cat", "NOUN")]);
    let token = Token::from_incomplete(incomplete("cat", &tagger, "cat", 0, false));
    assert_eq!(tag_ids(&token), vec![5, EMPTY_TAG]);
    assert_eq!(token.word.tags[1].lemma.as_str(), "cat");
    assert_eq!(token.word.text.as_str(), "cat");
}

#[test]
fn unknown_word_is_marked() {
    let tagger = tagger_with(&[]);
    let token = Token::from_incomplete(incomplete("sat", &tagger, "sat", 0, false));
    assert_eq!(tag_ids(&token), vec![EMPTY_TAG, UNKNOWN_TAG]);
}

#[test]
fn empty_named_analyses_count_as_unknown() {
    let tagger = tagger_with(&[("um", "um", "")]);
    let token = Token::from_incomplete(incomplete("um", &tagger, "um", 0, false));
    assert_eq!(tag_ids(&token), vec![EMPTY_TAG, EMPTY_TAG, UNKNOWN_TAG]);
}

#[test]
fn sentence_end_is_marked_once() {
    let tagger = tagger_with(&[("cat", "cat", "NOUN")]);
    let token = Token::from_incomplete(incomplete("cat", &tagger, "cat", 0, true));
    assert_eq!(tag_ids(&token), vec![5, EMPTY_TAG, SENT_END_TAG]);
    let unknown = Token::from_incomplete(incomplete("sat", &tagger, "sat", 0, true));
    assert_eq!(tag_ids(&unknown), vec![EMPTY_TAG, UNKNOWN_TAG, SENT_END_TAG]);
}

#[test]
fn finalization_keeps_other_fields() {
    let tagger = tagger_with(&[]);
    let text = "a dog";
    let mut data = incomplete(text, &tagger, "dog", 2, false);
    data.chunks = vec!["B-NP".to_string()];
    let token = Token::from_incomplete(data);
    assert_eq!(token.char_span, (2, 5));
    assert_eq!(token.byte_span, (2, 5));
    assert!(token.has_space_before);
    assert_eq!(token.chunks, vec!["B-NP".to_string()]);
    assert_eq!(token.text, text);
    let owned = token.to_owned_token();
    assert_eq!(owned.char_span, (2, 5));
    assert_eq!(owned.chunks, vec!["B-NP".to_string()]);
    assert_eq!(owned.word.tags.len(), 2);
    assert_eq!(owned.word.text, OwnedWordId("dog".to_string(), None));
}

#[test]
fn sentence_start_token() {
    let tagger = tagger_with(&[]);
    let token = Token::sent_start("Hi.", &tagger);
    assert_eq!(token.char_span, (0, 0));
    assert_eq!(token.byte_span, (0, 0));
    assert!(!token.has_space_before);
    assert!(token.chunks.is_empty());
    assert_eq!(tag_ids(&token), vec![SENT_START_TAG]);
    assert_eq!(token.word.text.as_str(), "");
}

fn analyse<'t>(text: &'t str, tagger: &'t Tagger, words: &[(&'t str, usize)]) -> Vec<Token<'t>> {
    let mut tokens = vec![Token::sent_start(text, tagger)];
    for (k, (word, start)) in words.iter().enumerate() {
        let last = k + 1 == words.len();
        tokens.push(Token::from_incomplete(incomplete(text, tagger, word, *start, last)));
    }
    tokens
}

#[test]
fn the_cat_sat() {
    let tagger = tagger_with(&[("cat", "cat", "NOUN")]);
    let text = "The cat sat.";
    let tokens = analyse(text, &tagger, &[("The", 0), ("cat", 4), ("sat", 8), (".", 11)]);
    assert_eq!(tokens.len(), 5);
    let noun = tagger.tag_to_id("NOUN").unwrap();
    let cat = &tokens[2];
    assert_eq!(tag_ids(cat), vec![noun, EMPTY_TAG]);
    assert_eq!(cat.word.tags[0].lemma.as_str(), "cat");
    let sat = &tokens[3];
    assert!(tag_ids(sat).contains(&UNKNOWN_TAG));
    assert_eq!(tag_ids(&tokens[4]), vec![EMPTY_TAG, UNKNOWN_TAG, SENT_END_TAG]);
}

fn det_noun_rule(tagger: &Tagger) -> Rule {
    Rule {
        id: "DET_NOUN".to_string(),
        message: "Check this phrase.".to_string(),
        pattern: vec![
            Constraint { any_of: vec![Atom::Tag(tagger.tag_to_id("DT").unwrap())], none_of: vec![], min: 1, max: 1 },
            Constraint {
                any_of: vec![Atom::Tag(tagger.tag_to_id("NOUN").unwrap())],
                none_of: vec![Atom::Text("cat".to_string())],
                min: 1,
                max: 1,
            },
        ],
        replacements: vec!["a dog".to_string()],
    }
}

#[test]
fn excluded_text_gives_no_suggestion() {
    let tagger = tagger_with(&[("the", "the", "DT"), ("cat", "cat", "NOUN")]);
    let tokens = analyse("the cat", &tagger, &[("the", 0), ("cat", 4)]);
    assert!(det_noun_rule(&tagger).apply(&tokens).is_empty());
}

#[test]
fn matching_window_gives_one_suggestion() {
    let tagger = tagger_with(&[("the", "the", "DT"), ("dog", "dog", "NOUN")]);
    let tokens = analyse("the dog", &tagger, &[("the", 0), ("dog", 4)]);
    let found = det_noun_rule(&tagger).apply(&tokens);
    assert_eq!(found.len(), 1);
    assert_eq!(found[0].source, "DET_NOUN");
    assert_eq!(found[0].message, "Check this phrase.");
    assert_eq!((found[0].start, found[0].end), (0, 7));
    assert_eq!(found[0].text, vec!["a dog".to_string()]);
}

#[test]
fn overlapping_matches_are_all_kept() {
    let tagger = tagger_with(&[("dog", "dog", "NOUN")]);
    let tokens = analyse("dog dog dog", &tagger, &[("dog", 0), ("dog", 4), ("dog", 8)]);
    let noun = tagger.tag_to_id("NOUN").unwrap();
    let rule = Rule {
        id: "REPEAT".to_string(),
        message: "Repeated noun.".to_string(),
        pattern: vec![
            Constraint { any_of: vec![Atom::Tag(noun)], none_of: vec![], min: 1, max: 1 },
            Constraint { any_of: vec![Atom::Tag(noun)], none_of: vec![], min: 1, max: 1 },
        ],
        replacements: vec![],
    };
    let found = rule.apply(&tokens);
    let spans: Vec<(usize, usize)> = found.iter().map(|s| (s.start, s.end)).collect();
    assert_eq!(spans, vec![(0, 7), (4, 11)]);
    assert!(found.iter().all(|s| s.start <= s.end && s.end <= 11));
    let both = check(&vec![rule, det_noun_rule(&tagger)], &tokens).unwrap();
    assert_eq!(both.len(), 2);
    assert_eq!(both[0].source, "REPEAT");
    assert!(matches!(check(&vec![], &Vec::new()), Err(Error::Unexpected(_))));
}

#[test]
fn text_and_chunk_atoms() {
    let tagger = tagger_with(&[]);
    let mut tokens = analyse("big dog", &tagger, &[("big", 0), ("dog", 4)]);
    tokens[2].chunks = vec!["E-NP".to_string()];
    let rule = Rule {
        id: "CHUNK".to_string(),
        message: "m".to_string(),
        pattern: vec![
            Constraint { any_of: vec![Atom::Text("big".to_string())], none_of: vec![], min: 1, max: 1 },
            Constraint { any_of: vec![Atom::Chunk("E-NP".to_string())], none_of: vec![], min: 1, max: 1 },
        ],
        replacements: vec![],
    };
    let found = rule.apply(&tokens);
    assert_eq!(found.len(), 1);
    assert_eq!((found[0].start, found[0].end), (0, 7));
    let empty = Rule { id: "E".to_string(), message: "m".to_string(), pattern: vec![], replacements: vec![] };
    assert!(empty.apply(&tokens).is_empty());
}

#[test]
fn disambiguation_only_removes_analyses() {
    let tagger = tagger_with(&[("the", "the", "DT"), ("saw", "see", "VERB"), ("saw", "saw", "NOUN")]);
    let mut tokens = analyse("the saw", &tagger, &[("the", 0), ("saw", 4)]);
    let noun = tagger.tag_to_id("NOUN").unwrap();
    let verb = tagger.tag_to_id("VERB").unwrap();
    let before = tag_ids(&tokens[2]);
    assert_eq!(before, vec![verb, noun, EMPTY_TAG, SENT_END_TAG]);
    let rule = Disambiguation {
        pattern: vec![
            Constraint { any_of: vec![Atom::Tag(tagger.tag_to_id("DT").unwrap())], none_of: vec![], min: 1, max: 1 },
            Constraint { any_of: vec![Atom::Tag(verb)], none_of: vec![], min: 1, max: 1 },
        ],
        target: 1,
        keep: vec![noun, SENT_END_TAG],
    };
    rule.apply(&mut tokens);
    let after = tag_ids(&tokens[2]);
    assert_eq!(after, vec![noun, SENT_END_TAG]);
    assert!(after.iter().all(|t| before.contains(t)));
    assert_eq!(tokens[2].word.tags[0].lemma.as_str(), "saw");
    assert_eq!(tag_ids(&tokens[1]).len(), 2);
}

#[test]
fn retain_with_unknown_tag_empties() {
    let tagger = tagger_with(&[]);
    let mut token = Token::from_incomplete(incomplete("x", &tagger, "x", 0, false));
    token.retain_tags(&vec![UNKNOWN_TAG]);
    assert_eq!(tag_ids(&token), vec![UNKNOWN_TAG]);
    token.retain_tags(&vec![]);
    assert!(token.word.tags.is_empty());
}

#[test]
fn removal_list_matches_whole_lines() {
    let removed = vec![("saw".to_string(), "see".to_string(), "VERB".to_string())];
    assert!(is_removed(&removed, "saw", "see", "VERB"));
    assert!(!is_removed(&removed, "saw", "saw", "VERB"));
    assert!(!is_removed(&removed, "saw", "see", "NOUN"));
    assert!(!is_removed(&vec![], "saw", "see", "VERB"));
}

#[test]
fn incomplete_tokens_compare_without_tagger() {
    let first = tagger_with(&[("cat", "cat", "NOUN")]);
    let second = tagger_with(&[("cat", "cat", "NOUN")]);
    let a = incomplete("cat", &first, "cat", 0, false);
    let b = incomplete("cat", &second, "cat", 0, false);
    assert!(a == b);
    let c = incomplete("cat", &first, "cat", 0, true);
    assert!(a != c);
    let mut d = incomplete("cat", &first, "cat", 0, false);
    d.chunks.push("B-NP".to_string());
    assert!(a != d);
}

fn noun_tagger() -> Tagger {
    tagger_with(&[("the", "the", "DT"), ("dog", "dog", "NOUN"), ("big", "big", "ADJ"), ("old", "old", "ADJ")])
}

fn tag_constraint(tagger: &Tagger, tag: &str, min: usize, max: usize) -> Constraint {
    Constraint { any_of: vec![Atom::Tag(tagger.tag_to_id(tag).unwrap())], none_of: vec![], min, max }
}

#[test]
fn optional_position_may_be_skipped() {
    let tagger = noun_tagger();
    let rule = Rule {
        id: "NP".to_string(),
        message: "m".to_string(),
        pattern: vec![
            tag_constraint(&tagger, "DT", 1, 1),
            tag_constraint(&tagger, "ADJ", 0, 1),
            tag_constraint(&tagger, "NOUN", 1, 1),
        ],
        replacements: vec![],
    };
    let plain = analyse("the dog", &tagger, &[("the", 0), ("dog", 4)]);
    let found = rule.apply(&plain);
    assert_eq!(found.len(), 1);
    assert_eq!((found[0].start, found[0].end), (0, 7));
    let with_adj = analyse("the big dog", &tagger, &[("the", 0), ("big", 4), ("dog", 8)]);
    let found = rule.apply(&with_adj);
    assert_eq!(found.len(), 1);
    assert_eq!((found[0].start, found[0].end), (0, 11));
    let two_adj = analyse("the big old dog", &tagger, &[("the", 0), ("big", 4), ("old", 8), ("dog", 12)]);
    assert!(rule.apply(&two_adj).is_empty());
}

#[test]
fn repeat_is_greedy_and_respects_min() {
    let tagger = noun_tagger();
    let tokens = analyse("dog dog dog", &tagger, &[("dog", 0), ("dog", 4), ("dog", 8)]);
    let run = Rule {
        id: "RUN".to_string(),
        message: "m".to_string(),
        pattern: vec![tag_constraint(&tagger, "NOUN", 1, usize::MAX)],
        replacements: vec![],
    };
    let spans: Vec<(usize, usize)> = run.apply(&tokens).iter().map(|s| (s.start, s.end)).collect();
    assert_eq!(spans, vec![(0, 11), (4, 11), (8, 11)]);
    assert_eq!(match_end_at(&run.pattern, &tokens, 1), Some(4));
    assert_eq!(match_end_at(&run.pattern, &tokens, 0), None);
    let pair = vec![tag_constraint(&tagger, "NOUN", 2, 2)];
    assert_eq!(match_end_at(&pair, &tokens, 1), Some(3));
    assert_eq!(match_end_at(&pair, &tokens, 3), None);
    assert_eq!(match_end_at(&pair, &tokens, 4), None);
    let nothing = vec![tag_constraint(&tagger, "ADJ", 0, 1)];
    assert_eq!(match_end_at(&nothing, &tokens, 1), Some(1));
}

fn line(w: &str, l: &str, t: &str) -> (String, String, String) {
    (w.to_string(), l.to_string(), t.to_string())
}

#[test]
fn tagger_from_entries_skips_removed_lines() {
    let entries = vec![line("saw", "see", "VERB"), line("saw", "saw", "NOUN"), line("cat", "cat", "NOUN")];
    let removed = vec![line("saw", "see", "VERB")];
    let tagger = from_entries(&vec!["DT".to_string()], &entries, &removed).unwrap();
    assert_eq!(tagger.lines(), vec![line("saw", "saw", "NOUN"), line("cat", "cat", "NOUN")]);
    assert_eq!(tagger.tag_to_id("DT"), Some(4));
    assert_eq!(tagger.tag_to_id("NOUN"), Some(5));
    assert_eq!(tagger.tag_to_id("VERB"), None);
    let tags = tagger.get_tags("saw");
    assert_eq!(tags.len(), 1);
    assert_eq!(tags[0].lemma.as_str(), "saw");
    let all = from_entries(&vec![], &entries, &vec![]).unwrap();
    assert_eq!(all.lines(), entries);
}

#[test]
fn as_ref_gives_the_text() {
    let cat = WordId::new(Cow::Borrowed("cat"), None);
    let cat2 = WordId::new(Cow::Owned("cat".to_string()), Some(7));
    let dog = WordId::new(Cow::Borrowed("dog"), None);
    assert_eq!(AsRef::<str>::as_ref(&cat), "cat");
    assert_eq!(AsRef::<str>::as_ref(&cat2), "cat");
    assert_eq!(AsRef::<str>::as_ref(&dog), "dog");
    let owned = cat2.to_owned_id();
    assert_eq!(AsRef::<str>::as_ref(&owned), "cat");
    let view = owned.as_ref_id();
    assert!(matches!(view.0, Cow::Borrowed(_)));
    assert_eq!(AsRef::<str>::as_ref(&view), AsRef::<str>::as_ref(&owned));
}

#[test]
fn check_succeeds_on_sentence_start_alone() {
    let tagger = tagger_with(&[]);
    let tokens = vec![Token::sent_start("", &tagger)];
    let found = check(&vec![det_noun_rule(&tagger)], &tokens).unwrap();
    assert!(found.is_empty());
}
