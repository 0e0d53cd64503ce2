use tryout::error::Error;
use tryout::form::{lololol, HtmlFormData, HtmlFormField};
use tryout::tryout::{QuestionKind, Tryout};

fn reconstruct(body: &str) -> Result<Tryout, Error> {
    Tryout::from_form_data(HtmlFormData::from_url_encoded_post_body(body)?)
}

#[test]
fn form_grouping_two_questions() {
    let t = reconstruct("0_q=Is+it+true&0_t=1&0_o0=Yes&0_c1=No&1_q=Essay+Q&1_t=3").unwrap();
    let qs = t.questions();
    assert_eq!(qs.len(), 2);
    assert_eq!(qs[0].prompt, "Is+it+true");
    match &qs[0].kind {
        QuestionKind::TrueOrFalse(a, b) => {
            assert_eq!(a.name, "Yes");
            assert!(!a.correct);
            assert_eq!(b.name, "No");
            assert!(b.correct);
        },
        _ => panic!("wrong kind"),
    }
    assert_eq!(qs[1].prompt, "Essay+Q");
    assert!(matches!(qs[1].kind, QuestionKind::Essay));
}

#[test]
fn non_contiguous_groups_finalize_separately() {
    // Group 0 is interrupted by group 1 and then resumed: the resumed run is
    // a fresh group, so group 0 finalizes twice.  Grouping is by adjacency,
    // never by sorting.
    let t = reconstruct("0_q=A&0_t=3&1_q=B&1_t=3&0_q=C&0_t=3").unwrap();
    let prompts: Vec<&str> = t.questions().iter().map(|q| q.prompt.as_str()).collect();
    assert_eq!(prompts, vec!["A", "B", "C"]);
}

#[test]
fn non_contiguous_group_missing_prompt_fails() {
    // The resumed run of group 0 has no prompt of its own, so its premature
    // finalization leaves the final flush without one.
    assert!(matches!(reconstruct("0_q=A&0_t=3&1_q=B&1_t=3&0_t=3"), Err(
        Error::MissingQuestionPrompt
    )));
}

#[test]
fn title_and_description_fields() {
    let t = reconstruct("t=My+quiz&d=About&0_q=x&0_t=3").unwrap();
    assert_eq!(t.title(), "My+quiz");
    assert_eq!(t.description(), "About");
}

#[test]
fn duplicate_title_field_fails() {
    assert!(matches!(reconstruct("t=A&t=B&0_q=x&0_t=3"), Err(Error::Other)));
}

#[test]
fn duplicate_description_field_fails() {
    assert!(matches!(reconstruct("d=A&0_q=x&0_t=3&d=B"), Err(Error::Other)));
}

#[test]
fn duplicate_id_field_fails() {
    assert!(matches!(reconstruct("a=1&a=2&0_q=x&0_t=3"), Err(Error::DuplicateField)));
}

#[test]
fn empty_id_value_means_no_id() {
    let t = reconstruct("a=&0_q=x&0_t=3").unwrap();
    assert_eq!(t.get_id(), None);
}

#[test]
fn empty_id_value_does_not_arm_duplicate_check() {
    // An empty identifier value leaves the state unset, so a later
    // identifier field is taken rather than rejected.
    let t = reconstruct("a=&a=1&0_q=x&0_t=3").unwrap();
    assert_eq!(t.get_id(), Some(1));
}

#[test]
fn id_field_base62_decodes() {
    let t = reconstruct("a=ZZ&0_q=x&0_t=3").unwrap();
    assert_eq!(t.get_id(), Some(35 * 62 + 35));
}

#[test]
fn id_field_malformed_fails() {
    assert!(matches!(reconstruct("a=%21&0_q=x&0_t=3"), Err(Error::InvalidIdFormat)));
}

#[test]
fn true_or_false_needs_two_choices() {
    assert!(matches!(reconstruct("0_q=x&0_t=1&0_c0=only"), Err(Error::NotEnoughChoices)));
    assert!(matches!(reconstruct("0_q=x&0_t=1"), Err(Error::NotEnoughChoices)));
}

#[test]
fn true_or_false_third_choice_fails_on_arrival() {
    assert!(matches!(reconstruct("0_q=x&0_t=1&0_o0=A&0_o1=B&0_o2=C"), Err(
        Error::TooManyChoices
    )));
}

#[test]
fn multiple_choice_bounds() {
    // Ten choices are accepted.
    let mut body = String::from("0_q=x&0_t=2");
    for i in 0..10 {
        body.push_str(&format!("&0_o{}=c{}", i, i));
    }
    let t = reconstruct(&body).unwrap();
    match &t.questions()[0].kind {
        QuestionKind::MultipleChoice(cs) => assert_eq!(cs.len(), 10),
        _ => panic!("wrong kind"),
    }
    // The eleventh fails as it arrives.
    body.push_str("&0_o10=c10");
    assert!(matches!(reconstruct(&body), Err(Error::TooManyChoices)));
    // None at all is too few.
    assert!(matches!(reconstruct("0_q=x&0_t=2"), Err(Error::NotEnoughChoices)));
}

#[test]
fn essay_choice_field_fails() {
    assert!(matches!(reconstruct("0_q=x&0_t=3&0_o0=y"), Err(Error::Other)));
}

#[test]
fn choice_before_type_fails() {
    assert!(matches!(reconstruct("0_q=x&0_o0=y&0_t=1"), Err(Error::MissingQuestionType)));
}

#[test]
fn missing_prompt_fails() {
    assert!(matches!(reconstruct("0_t=3"), Err(Error::MissingQuestionPrompt)));
}

#[test]
fn missing_type_fails() {
    assert!(matches!(reconstruct("0_q=x"), Err(Error::MissingQuestionType)));
}

#[test]
fn fields_only_singletons_still_flush_a_group() {
    // The last in-progress group is finalized unconditionally, even when no
    // question field ever arrived.
    assert!(matches!(reconstruct("t=A&d=B"), Err(Error::MissingQuestionPrompt)));
}

#[test]
fn unknown_type_selector_fails() {
    assert!(matches!(reconstruct("0_q=x&0_t=7"), Err(Error::UnknownQuestionType)));
    assert!(matches!(reconstruct("0_q=x&0_t=7&0_o0=y"), Err(Error::UnknownQuestionType)));
}

#[test]
fn type_selector_not_a_number_fails() {
    assert!(matches!(reconstruct("0_q=x&0_t=abc"), Err(Error::Other)));
}

#[test]
fn type_selector_with_plus_sign_parses() {
    let t = reconstruct("0_q=x&0_t=%2B3").unwrap();
    assert!(matches!(t.questions()[0].kind, QuestionKind::Essay));
}

#[test]
fn duplicate_prompt_field_fails() {
    assert!(matches!(reconstruct("0_q=x&0_q=y&0_t=3"), Err(Error::Other)));
}

#[test]
fn duplicate_type_field_fails() {
    assert!(matches!(reconstruct("0_q=x&0_t=3&0_t=3"), Err(Error::Other)));
}

#[test]
fn bad_group_id_fails() {
    assert!(matches!(reconstruct("x_q=hi"), Err(Error::InvalidQuestionId)));
    assert!(matches!(reconstruct("_q=hi"), Err(Error::InvalidQuestionId)));
    // Too large for 32 bits.
    assert!(matches!(reconstruct("4294967296_q=hi"), Err(Error::InvalidQuestionId)));
}

#[test]
fn group_id_at_limit_parses() {
    assert!(matches!(reconstruct("4294967295_q=hi&4294967295_t=3"), Ok(_)));
}

#[test]
fn field_without_underscore_fails() {
    assert!(matches!(reconstruct("zz=1"), Err(Error::Other)));
}

#[test]
fn field_with_empty_kind_fails() {
    assert!(matches!(reconstruct("0_=x"), Err(Error::Other)));
}

#[test]
fn unknown_field_kind_fails() {
    assert!(matches!(reconstruct("0_z=x"), Err(Error::Other)));
}

#[test]
fn item_without_equals_fails() {
    assert!(matches!(HtmlFormData::from_url_encoded_post_body("abc"), Err(Error::Other)));
}

#[test]
fn empty_body_fails() {
    assert!(matches!(HtmlFormData::from_url_encoded_post_body(""), Err(Error::Other)));
}

#[test]
fn percent_decoding_applies() {
    let t = reconstruct("t=A%20B&0_q=x%3Dy&0_t=3").unwrap();
    assert_eq!(t.title(), "A B");
    assert_eq!(t.questions()[0].prompt, "x=y");
}

#[test]
fn lowercase_hex_escape_decodes() {
    let t = reconstruct("t=x%3dy&0_q=x&0_t=3").unwrap();
    assert_eq!(t.title(), "x=y");
}

#[test]
fn lone_percent_is_kept() {
    let t = reconstruct("t=100%&0_q=x&0_t=3").unwrap();
    assert_eq!(t.title(), "100%");
}

#[test]
fn invalid_utf8_escape_fails() {
    assert!(matches!(reconstruct("t=%FF&0_q=x&0_t=3"), Err(Error::Other)));
}

#[test]
fn fields_can_be_given_directly() {
    let fields = vec![
        HtmlFormField::new("0_q".to_string(), "prompt".to_string()),
        HtmlFormField::new("0_t".to_string(), "3".to_string()),
    ];
    let t = Tryout::from_form_data(HtmlFormData::from_fields(fields)).unwrap();
    assert_eq!(t.questions()[0].prompt, "prompt");
}

#[test]
fn form_field_pair_round_trip() {
    let f = HtmlFormField::new("name".to_string(), "value".to_string());
    let (n, v) = f.into_pair();
    assert_eq!(n, "name");
    assert_eq!(v, "value");
}

#[test]
fn parsed_fields_survive_into_fields() {
    let d = HtmlFormData::from_url_encoded_post_body("a=1&b=2").unwrap();
    let fields = d.into_fields();
    assert_eq!(fields.len(), 2);
}

#[test]
fn lololol_returns_four() {
    assert_eq!(lololol(), 4);
}
