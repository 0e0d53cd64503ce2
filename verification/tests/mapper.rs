use tryout::error::Error;
use tryout::tryout::{Choice, Question, QuestionKind, Tryout};

fn tlv(tag: u32, payload: &[u8]) -> Vec<u8> {
    let mut out = Vec::new();
    out.extend_from_slice(&(payload.len() as u32).to_be_bytes());
    out.extend_from_slice(&tag.to_be_bytes());
    out.extend_from_slice(payload);
    out
}

fn choice(name: &str, correct: bool) -> Choice {
    Choice { name: name.to_string(), correct }
}

fn tf_question(prompt: &str, a: Choice, b: Choice) -> Question {
    Question { kind: QuestionKind::TrueOrFalse(a, b), prompt: prompt.to_string() }
}

fn essay_question(prompt: &str) -> Question {
    Question { kind: QuestionKind::Essay, prompt: prompt.to_string() }
}

/// The payload of a question chunk: a prompt chunk, then for true-or-false a
/// wrapper of choice chunks.
fn question_payload(prompt: &str, choices: Option<&[(u32, &str)]>) -> Vec<u8> {
    let mut payload = tlv(0, prompt.as_bytes());
    if let Some(cs) = choices {
        let mut inner = Vec::new();
        for (tag, name) in cs {
            inner.extend_from_slice(&tlv(*tag, name.as_bytes()));
        }
        payload.extend_from_slice(&tlv(1, &inner));
    }
    payload
}

#[test]
fn round_trip_true_or_false_and_essay() {
    let t = Tryout::new(
        None,
        "My quiz".to_string(),
        "About things".to_string(),
        vec![
            tf_question("Is it true", choice("Yes", false), choice("No", true)),
            essay_question("Write an essay"),
        ],
    );
    let bytes = t.to_bytes().unwrap();
    let back = Tryout::from_bytes(&bytes).unwrap();
    assert_eq!(back.get_id(), None);
    assert_eq!(back.title(), "My quiz");
    assert_eq!(back.description(), "About things");
    let qs = back.questions();
    assert_eq!(qs.len(), 2);
    assert_eq!(qs[0].prompt, "Is it true");
    match &qs[0].kind {
        QuestionKind::TrueOrFalse(a, b) => {
            assert_eq!(a.name, "Yes");
            assert!(!a.correct);
            assert_eq!(b.name, "No");
            assert!(b.correct);
        },
        _ => panic!("wrong kind"),
    }
    assert_eq!(qs[1].prompt, "Write an essay");
    assert!(matches!(qs[1].kind, QuestionKind::Essay));
}

#[test]
fn round_trip_empty_record() {
    let t = Tryout::new(None, String::new(), String::new(), Vec::new());
    let bytes = t.to_bytes().unwrap();
    let back = Tryout::from_bytes(&bytes).unwrap();
    assert_eq!(back.get_id(), None);
    assert_eq!(back.title(), "");
    assert_eq!(back.description(), "");
    assert_eq!(back.questions().len(), 0);
}

#[test]
fn multiple_choice_encode_fails() {
    let t = Tryout::new(
        None,
        String::new(),
        String::new(),
        vec![Question {
            kind: QuestionKind::MultipleChoice(vec![choice("A", true)]),
            prompt: "Pick".to_string(),
        }],
    );
    assert!(matches!(t.to_chunks(), Err(Error::Other)));
    assert!(matches!(t.to_bytes(), Err(Error::Other)));
}

#[test]
fn present_id_does_not_round_trip() {
    // The identifier is written as sixteen raw bytes but read back as
    // base-62 text, so a present identifier fails to decode.
    let t = Tryout::new(Some(5), String::new(), String::new(), Vec::new());
    let bytes = t.to_bytes().unwrap();
    assert!(matches!(Tryout::from_bytes(&bytes), Err(Error::InvalidIdFormat)));
}

#[test]
fn multiple_choice_decodes() {
    let payload = question_payload("Pick one", Some(&[(0, "A"), (1, "B"), (0, "C")]));
    let bytes = tlv(2, &payload);
    let back = Tryout::from_bytes(&bytes).unwrap();
    let qs = back.questions();
    assert_eq!(qs.len(), 1);
    match &qs[0].kind {
        QuestionKind::MultipleChoice(cs) => {
            assert_eq!(cs.len(), 3);
            assert_eq!(cs[0].name, "A");
            assert!(!cs[0].correct);
            assert_eq!(cs[1].name, "B");
            assert!(cs[1].correct);
            assert_eq!(cs[2].name, "C");
            assert!(!cs[2].correct);
        },
        _ => panic!("wrong kind"),
    }
}

#[test]
fn duplicate_id_chunk_fails() {
    let mut bytes = tlv(16, b"");
    bytes.extend_from_slice(&tlv(16, b""));
    assert!(matches!(Tryout::from_bytes(&bytes), Err(Error::DuplicateField)));
}

#[test]
fn duplicate_title_chunk_fails() {
    let mut bytes = tlv(17, b"one");
    bytes.extend_from_slice(&tlv(17, b"two"));
    assert!(matches!(Tryout::from_bytes(&bytes), Err(Error::DuplicateField)));
}

#[test]
fn duplicate_description_chunk_fails() {
    let mut bytes = tlv(18, b"one");
    bytes.extend_from_slice(&tlv(18, b"two"));
    assert!(matches!(Tryout::from_bytes(&bytes), Err(Error::DuplicateField)));
}

#[test]
fn duplicate_prompt_chunk_fails() {
    let mut payload = tlv(0, b"first");
    payload.extend_from_slice(&tlv(0, b"second"));
    let bytes = tlv(3, &payload);
    assert!(matches!(Tryout::from_bytes(&bytes), Err(Error::DuplicateField)));
}

#[test]
fn true_or_false_one_choice_fails() {
    let payload = question_payload("q", Some(&[(1, "only")]));
    let bytes = tlv(1, &payload);
    assert!(matches!(Tryout::from_bytes(&bytes), Err(Error::NotEnoughChoices)));
}

#[test]
fn true_or_false_three_choices_fails() {
    // Exactly two choices are required on the chunk-decode path as well.
    let payload = question_payload("q", Some(&[(0, "A"), (1, "B"), (0, "C")]));
    let bytes = tlv(1, &payload);
    assert!(matches!(Tryout::from_bytes(&bytes), Err(Error::TooManyChoices)));
}

#[test]
fn true_or_false_two_choices_decode() {
    let payload = question_payload("q", Some(&[(0, "A"), (1, "B")]));
    let bytes = tlv(1, &payload);
    let back = Tryout::from_bytes(&bytes).unwrap();
    match &back.questions()[0].kind {
        QuestionKind::TrueOrFalse(a, b) => {
            assert_eq!(a.name, "A");
            assert!(!a.correct);
            assert_eq!(b.name, "B");
            assert!(b.correct);
        },
        _ => panic!("wrong kind"),
    }
}

#[test]
fn multiple_choice_zero_choices_fails() {
    let payload = question_payload("q", Some(&[]));
    let bytes = tlv(2, &payload);
    assert!(matches!(Tryout::from_bytes(&bytes), Err(Error::NotEnoughChoices)));
}

#[test]
fn essay_with_choices_wrapper_fails() {
    let payload = question_payload("q", Some(&[(0, "A"), (1, "B")]));
    let bytes = tlv(3, &payload);
    assert!(matches!(Tryout::from_bytes(&bytes), Err(Error::TooManyChoices)));
}

#[test]
fn unknown_inner_tag_fails() {
    let mut payload = tlv(0, b"q");
    payload.extend_from_slice(&tlv(2, b"what"));
    let bytes = tlv(3, &payload);
    assert!(matches!(Tryout::from_bytes(&bytes), Err(Error::UnknownTypeIndex)));
}

#[test]
fn unknown_choice_tag_fails() {
    let payload = question_payload("q", Some(&[(0, "A"), (2, "B")]));
    let bytes = tlv(1, &payload);
    assert!(matches!(Tryout::from_bytes(&bytes), Err(Error::UnknownTypeIndex)));
}

#[test]
fn question_tag_above_three_fails() {
    let payload = question_payload("q", None);
    let bytes = tlv(7, &payload);
    assert!(matches!(Tryout::from_bytes(&bytes), Err(Error::UnknownTypeIndex)));
}

#[test]
fn unknown_top_level_tag_is_ignored() {
    let mut bytes = tlv(99, b"whatever");
    bytes.extend_from_slice(&tlv(17, b"kept"));
    let back = Tryout::from_bytes(&bytes).unwrap();
    assert_eq!(back.title(), "kept");
    assert_eq!(back.questions().len(), 0);
}

#[test]
fn missing_fields_default_to_empty() {
    let back = Tryout::from_bytes(&[]).unwrap();
    assert_eq!(back.get_id(), None);
    assert_eq!(back.title(), "");
    assert_eq!(back.description(), "");
    assert_eq!(back.questions().len(), 0);
}

#[test]
fn question_without_prompt_defaults_to_empty() {
    let bytes = tlv(3, b"");
    let back = Tryout::from_bytes(&bytes).unwrap();
    assert_eq!(back.questions()[0].prompt, "");
    assert!(matches!(back.questions()[0].kind, QuestionKind::Essay));
}

#[test]
fn empty_id_payload_is_none() {
    let bytes = tlv(16, b"");
    let back = Tryout::from_bytes(&bytes).unwrap();
    assert_eq!(back.get_id(), None);
}

#[test]
fn id_payload_base62_decodes() {
    let back = Tryout::from_bytes(&tlv(16, b"1")).unwrap();
    assert_eq!(back.get_id(), Some(1));
    let back = Tryout::from_bytes(&tlv(16, b"10")).unwrap();
    assert_eq!(back.get_id(), Some(62));
    let back = Tryout::from_bytes(&tlv(16, b"ZZ")).unwrap();
    assert_eq!(back.get_id(), Some(35 * 62 + 35));
    // The largest 128-bit value in base-62.
    let back = Tryout::from_bytes(&tlv(16, b"7n42DGM5Tflk9n8mt7Fhc7")).unwrap();
    assert_eq!(back.get_id(), Some(u128::MAX));
}

#[test]
fn id_payload_zero_decodes() {
    let back = Tryout::from_bytes(&tlv(16, b"0")).unwrap();
    assert_eq!(back.get_id(), Some(0));
    // Leading zeroes are insignificant.
    let back = Tryout::from_bytes(&tlv(16, b"007")).unwrap();
    assert_eq!(back.get_id(), Some(7));
}

#[test]
fn id_payload_malformed_fails() {
    assert!(matches!(Tryout::from_bytes(&tlv(16, b"!!")), Err(Error::InvalidIdFormat)));
    // One above the largest encodable value overflows.
    assert!(matches!(Tryout::from_bytes(&tlv(16, b"7n42DGM5Tflk9n8mt7Fhc8")), Err(
        Error::InvalidIdFormat
    )));
}

#[test]
fn invalid_utf8_title_is_replaced() {
    // Payload text is read lossily: invalid UTF-8 becomes the replacement
    // character instead of failing.
    let back = Tryout::from_bytes(&tlv(17, &[0xff])).unwrap();
    assert_eq!(back.title(), "\u{fffd}");
}

#[test]
fn truncated_inner_sequence_fails() {
    // The question payload itself ends inside a chunk header.
    let bytes = tlv(3, &[0, 0, 0]);
    assert!(matches!(Tryout::from_bytes(&bytes), Err(Error::UnexpectedEOF)));
}

#[test]
fn chunk_order_of_questions_is_kept() {
    let mut bytes = tlv(3, &question_payload("first", None));
    bytes.extend_from_slice(&tlv(3, &question_payload("second", None)));
    bytes.extend_from_slice(&tlv(3, &question_payload("third", None)));
    let back = Tryout::from_bytes(&bytes).unwrap();
    let prompts: Vec<&str> = back.questions().iter().map(|q| q.prompt.as_str()).collect();
    assert_eq!(prompts, vec!["first", "second", "third"]);
}
