use vstd::prelude::*;
use vstd::string::StrSliceExecFns;
use vstd::utf8::{decode_utf8, encode_utf8, valid_utf8};

use crate::error::Error;
use crate::ident::{form_id_from_value, spec_form_id_value};
use crate::text::{find_char, find_char_in, parse_u32, spec_parse_u32};
use crate::tryout::{
    opt_string_view, Choice, ChoiceModel, Question, QuestionKind, QuestionKindModel, QuestionModel,
    Tryout, TryoutModel, MAX_MULTIPLE_CHOICE_AMOUNT,
};

verus! {

/// One submitted form field, already percent-decoded: its name and value.
#[derive(Debug)]
pub struct HtmlFormField {
    name: String,
    value: String,
}

#[verifier::ext_equal]
pub ghost struct FieldModel {
    pub name: Seq<char>,
    pub value: Seq<char>,
}

impl View for HtmlFormField {
    type V = FieldModel;

    closed spec fn view(&self) -> FieldModel {
        FieldModel { name: self.name@, value: self.value@ }
    }
}

impl DeepView for HtmlFormField {
    type V = FieldModel;

    open spec fn deep_view(&self) -> FieldModel {
        self.view()
    }
}

impl HtmlFormField {
    pub fn new(name: String, value: String) -> (r: Self)
        ensures
            r@ == (FieldModel { name: name@, value: value@ }),
    {
        Self { name, value }
    }

    pub fn into_pair(self) -> (r: (String, String))
        ensures
            r.0@ == self@.name,
            r.1@ == self@.value,
    {
        (self.name, self.value)
    }
}

/// The flat, ordered field sequence of one form submission.
pub struct HtmlFormData(Vec<HtmlFormField>);

impl View for HtmlFormData {
    type V = Seq<FieldModel>;

    closed spec fn view(&self) -> Seq<FieldModel> {
        self.0.deep_view()
    }
}

// ---------------------------------------------------------------------------
// Percent-decoding and body splitting
// ---------------------------------------------------------------------------
pub open spec fn is_hex_digit(b: u8) -> bool {
    (48 <= b <= 57) || (65 <= b <= 70) || (97 <= b <= 102)
}

pub open spec fn hex_digit_val(b: u8) -> int {
    if 48 <= b <= 57 {
        b - 48
    } else if 65 <= b <= 70 {
        b - 65 + 10
    } else {
        b - 97 + 10
    }
}

/// Percent-decoding over bytes: `%` followed by two hex digits becomes one
/// byte; a `%` whose second digit is bad keeps the percent and first byte; a
/// `%` whose first digit is bad keeps only the percent; a `%` within two
/// bytes of the end stops decoding, keeping the tail as it stands.  An
/// unencoded `+` stays a `+`.
pub open spec fn pct_decoded(b: Seq<u8>) -> Seq<u8>
    decreases b.len(),
{
    if b.len() == 0 {
        Seq::empty()
    } else if b[0] != 37 {
        seq![b[0]] + pct_decoded(b.drop_first())
    } else if b.len() < 3 {
        b
    } else if is_hex_digit(b[1]) && is_hex_digit(b[2]) {
        seq![(hex_digit_val(b[1]) * 16 + hex_digit_val(b[2])) as u8] + pct_decoded(b.skip(3))
    } else if is_hex_digit(b[1]) {
        seq![b[0], b[1]] + pct_decoded(b.skip(2))
    } else {
        seq![b[0]] + pct_decoded(b.skip(1))
    }
}

/// What percent-decoding a string yields: the decoded bytes read back as
/// UTF-8, or nothing when they are not valid UTF-8.
#[verifier::opaque]
pub open spec fn spec_url_decode(s: Seq<char>) -> Option<Seq<char>> {
    let pd = pct_decoded(encode_utf8(s));
    if valid_utf8(pd) {
        Some(decode_utf8(pd))
    } else {
        None
    }
}

/// Relies on `urlencoding::decode`: percent-decodes the UTF-8 bytes of the
/// input exactly as `pct_decoded` describes, and fails exactly when the
/// decoded bytes are not valid UTF-8.
#[verifier::external_body]
fn url_decode(s: &str) -> (r: Option<String>)
    ensures
        match r {
            Some(t) => spec_url_decode(s@) == Some(t@),
            None => spec_url_decode(s@) is None,
        },
{
    match urlencoding::decode(s) {
        Ok(c) => Some(c.into_owned()),
        Err(_) => None,
    }
}

/// One `name=value` item: split at the first equals sign (no equals sign is
/// malformed), then percent-decode both halves.
pub open spec fn spec_parse_item(item: Seq<char>) -> Result<FieldModel, Error> {
    let k = find_char(item, '=');
    if k == -1 {
        Err(Error::Other)
    } else {
        match spec_url_decode(item.take(k)) {
            None => Err(Error::Other),
            Some(n) => match spec_url_decode(item.skip(k + 1)) {
                None => Err(Error::Other),
                Some(v) => Ok(FieldModel { name: n, value: v }),
            },
        }
    }
}

/// A post body: items separated by ampersands, each parsed in order.  An
/// empty body is one empty item, which is malformed.
pub open spec fn spec_parse_body(s: Seq<char>) -> Result<Seq<FieldModel>, Error>
    decreases s.len(),
{
    let k = find_char(s, '&');
    if k < 0 || k >= s.len() {
        match spec_parse_item(s) {
            Err(e) => Err(e),
            Ok(f) => Ok(seq![f]),
        }
    } else {
        match spec_parse_item(s.take(k)) {
            Err(e) => Err(e),
            Ok(f) => match spec_parse_body(s.skip(k + 1)) {
                Err(e) => Err(e),
                Ok(fs) => Ok(seq![f] + fs),
            },
        }
    }
}

fn parse_item(item: &str) -> (r: Result<HtmlFormField, Error>)
    ensures
        match r {
            Ok(f) => spec_parse_item(item@) == Ok::<FieldModel, Error>(f@),
            Err(e) => spec_parse_item(item@) == Err::<FieldModel, Error>(e),
        },
{
    let ilen = item.unicode_len();
    let k = match find_char_in(item, '=') {
        Some(k) => k,
        None => {
            return Err(Error::Other);
        },
    };
    proof {
        crate::text::lemma_find_char(item@, '=');
    }
    let name_raw = item.substring_char(0, k);
    let value_raw = item.substring_char(k + 1, ilen);
    proof {
        assert(name_raw@ =~= item@.take(k as int));
        assert(value_raw@ =~= item@.skip(k + 1));
    }
    let name = match url_decode(name_raw) {
        Some(s) => s,
        None => {
            return Err(Error::Other);
        },
    };
    let value = match url_decode(value_raw) {
        Some(s) => s,
        None => {
            return Err(Error::Other);
        },
    };
    Ok(HtmlFormField { name, value })
}

/// Used by `from_url_encoded_post_body`: taking one parsed field commutes
/// with collecting the fields already parsed.
proof fn lemma_compose_fields(prev: Seq<FieldModel>, f: FieldModel, s: Seq<char>)
    ensures
        (match spec_parse_body(s) {
            Ok(fs) => Ok::<Seq<FieldModel>, Error>(prev.push(f) + fs),
            Err(e) => Err::<Seq<FieldModel>, Error>(e),
        }) == (match (match spec_parse_body(s) {
            Ok(fs) => Ok::<Seq<FieldModel>, Error>(seq![f] + fs),
            Err(e) => Err::<Seq<FieldModel>, Error>(e),
        }) {
            Ok(fs) => Ok::<Seq<FieldModel>, Error>(prev + fs),
            Err(e) => Err::<Seq<FieldModel>, Error>(e),
        }),
{
    match spec_parse_body(s) {
        Ok(fs) => {
            assert(prev.push(f) + fs =~= prev + (seq![f] + fs));
        },
        Err(_) => {},
    }
}

impl HtmlFormData {
    /// Builds form data directly from a field list.
    pub fn from_fields(fields: Vec<HtmlFormField>) -> (r: Self)
        ensures
            r@ == fields.deep_view(),
    {
        Self(fields)
    }

    pub fn into_fields(self) -> (r: Vec<HtmlFormField>)
        ensures
            r.deep_view() == self@,
    {
        self.0
    }

    /// Splits a URL-encoded post body into fields, as `spec_parse_body`
    /// describes.
    pub fn from_url_encoded_post_body(body: &str) -> (r: Result<Self, Error>)
        ensures
            match r {
                Ok(d) => spec_parse_body(body@) == Ok::<Seq<FieldModel>, Error>(d@),
                Err(e) => spec_parse_body(body@) == Err::<Seq<FieldModel>, Error>(e),
            },
    {
        let mut fields: Vec<HtmlFormField> = Vec::new();
        let mut rest: &str = body;
        proof {
            assert(fields.deep_view() =~= Seq::<FieldModel>::empty());
            if let Ok(fs) = spec_parse_body(body@) {
                assert(fields.deep_view() + fs =~= fs);
            }
        }
        loop
            invariant
                spec_parse_body(body@) == (match spec_parse_body(rest@) {
                    Ok(fs) => Ok::<Seq<FieldModel>, Error>(fields.deep_view() + fs),
                    Err(e) => Err::<Seq<FieldModel>, Error>(e),
                }),
            decreases rest@.len(),
        {
            let rlen = rest.unicode_len();
            match find_char_in(rest, '&') {
                Some(k) => {
                    proof {
                        crate::text::lemma_find_char(rest@, '&');
                    }
                    let item = rest.substring_char(0, k);
                    proof {
                        assert(item@ =~= rest@.take(k as int));
                    }
                    let f = match parse_item(item) {
                        Ok(f) => f,
                        Err(e) => {
                            return Err(e);
                        },
                    };
                    let ghost prev = fields.deep_view();
                    let ghost old_rest = rest@;
                    fields.push(f);
                    rest = rest.substring_char(k + 1, rlen);
                    proof {
                        assert(fields.deep_view() =~= prev.push(f@));
                        assert(rest@ =~= old_rest.skip(k + 1));
                        lemma_compose_fields(prev, f@, old_rest.skip(k + 1));
                    }
                },
                None => {
                    let f = match parse_item(rest) {
                        Ok(f) => f,
                        Err(e) => {
                            return Err(e);
                        },
                    };
                    let ghost prev = fields.deep_view();
                    fields.push(f);
                    proof {
                        assert(spec_parse_body(rest@) == Ok::<Seq<FieldModel>, Error>(seq![f@]));
                        assert(fields.deep_view() =~= prev.push(f@));
                        assert(prev.push(f@) =~= prev + seq![f@]);
                    }
                    return Ok(Self(fields));
                },
            }
        }
    }
}

// ---------------------------------------------------------------------------
// Reconstructing a record from fields
// ---------------------------------------------------------------------------
/// The grouping state: the singletons seen so far, the current group's
/// number and in-progress question, and the questions already finalized.
#[verifier::ext_equal]
pub ghost struct FormAcc {
    pub title: Option<Seq<char>>,
    pub description: Option<Seq<char>>,
    pub id: Option<u128>,
    pub qid: Option<u32>,
    pub prompt: Option<Seq<char>>,
    pub qtype: Option<u32>,
    pub choices: Seq<ChoiceModel>,
    pub questions: Seq<QuestionModel>,
}

pub open spec fn init_form_acc() -> FormAcc {
    FormAcc {
        title: None,
        description: None,
        id: None,
        qid: None,
        prompt: None,
        qtype: None,
        choices: Seq::empty(),
        questions: Seq::empty(),
    }
}

/// Closing one question group: a prompt and a type are required; then
/// true-or-false takes exactly two choices, multiple-choice one to ten, an
/// essay none (its choice fields were already rejected on arrival).
pub open spec fn spec_build_question(
    prompt: Option<Seq<char>>,
    qtype: Option<u32>,
    choices: Seq<ChoiceModel>,
) -> Result<QuestionModel, Error> {
    match prompt {
        None => Err(Error::MissingQuestionPrompt),
        Some(p) => match qtype {
            None => Err(Error::MissingQuestionType),
            Some(t) => if t == 1 {
                if choices.len() > 2 {
                    Err(Error::TooManyChoices)
                } else if choices.len() < 2 {
                    Err(Error::NotEnoughChoices)
                } else {
                    Ok(
                        QuestionModel {
                            kind: QuestionKindModel::TrueOrFalse(choices[0], choices[1]),
                            prompt: p,
                        },
                    )
                }
            } else if t == 2 {
                if choices.len() > MAX_MULTIPLE_CHOICE_AMOUNT as int {
                    Err(Error::TooManyChoices)
                } else if choices.len() < 1 {
                    Err(Error::NotEnoughChoices)
                } else {
                    Ok(QuestionModel { kind: QuestionKindModel::MultipleChoice(choices), prompt: p })
                }
            } else if t == 3 {
                Ok(QuestionModel { kind: QuestionKindModel::Essay, prompt: p })
            } else {
                Err(Error::UnknownQuestionType)
            },
        },
    }
}

/// One form field.  The reserved names `t`, `d` and `a` are singletons for
/// title, description and identifier.  Every other name is
/// `<group>_<kind><rest>`: a group number, then a prompt (`q`), type
/// selector (`t`), or choice (`o` incorrect, `c` correct).  The instant a
/// field's group number differs from the current one, the in-progress
/// question is finalized before the new group starts: grouping is by
/// adjacency alone.
pub open spec fn spec_form_step(f: FieldModel, acc: FormAcc) -> Result<FormAcc, Error> {
    if f.name == seq!['t'] {
        if acc.title is Some {
            Err(Error::Other)
        } else {
            Ok(FormAcc { title: Some(f.value), ..acc })
        }
    } else if f.name == seq!['d'] {
        if acc.description is Some {
            Err(Error::Other)
        } else {
            Ok(FormAcc { description: Some(f.value), ..acc })
        }
    } else if f.name == seq!['a'] {
        if acc.id is Some {
            Err(Error::DuplicateField)
        } else if f.value.len() == 0 {
            Ok(acc)
        } else {
            match spec_form_id_value(f.value) {
                Err(e) => Err(e),
                Ok(v) => Ok(FormAcc { id: Some(v), ..acc }),
            }
        }
    } else {
        let k = find_char(f.name, '_');
        if k < 0 || k >= f.name.len() {
            Err(Error::Other)
        } else {
            match spec_parse_u32(f.name.take(k)) {
                None => Err(Error::InvalidQuestionId),
                Some(gid) => {
                    let stepped = if acc.qid is Some && acc.qid != Some(gid) {
                        match spec_build_question(acc.prompt, acc.qtype, acc.choices) {
                            Err(e) => Err(e),
                            Ok(q) => Ok(
                                FormAcc {
                                    questions: acc.questions.push(q),
                                    prompt: None,
                                    qtype: None,
                                    choices: Seq::empty(),
                                    qid: Some(gid),
                                    ..acc
                                },
                            ),
                        }
                    } else {
                        Ok(FormAcc { qid: Some(gid), ..acc })
                    };
                    match stepped {
                        Err(e) => Err(e),
                        Ok(a) => spec_form_dispatch(f, a, f.name.skip(k + 1)),
                    }
                },
            }
        }
    }
}

/// The part of a field after its group number: prompt, type selector or
/// choice, each with its own duplicate and bound checks.
pub open spec fn spec_form_dispatch(f: FieldModel, acc: FormAcc, rest: Seq<char>) -> Result<
    FormAcc,
    Error,
> {
    if rest.len() == 0 {
        Err(Error::Other)
    } else {
        let p = rest[0];
        if p == 'q' {
            if acc.prompt is Some {
                Err(Error::Other)
            } else {
                Ok(FormAcc { prompt: Some(f.value), ..acc })
            }
        } else if p == 't' {
            if acc.qtype is Some {
                Err(Error::Other)
            } else {
                match spec_parse_u32(f.value) {
                    None => Err(Error::Other),
                    Some(v) => Ok(FormAcc { qtype: Some(v), ..acc }),
                }
            }
        } else if p == 'o' || p == 'c' {
            match acc.qtype {
                None => Err(Error::MissingQuestionType),
                Some(ty) => if ty == 1 {
                    if acc.choices.len() >= 2 {
                        Err(Error::TooManyChoices)
                    } else {
                        Ok(
                            FormAcc {
                                choices: acc.choices.push(
                                    ChoiceModel { name: f.value, correct: p == 'c' },
                                ),
                                ..acc
                            },
                        )
                    }
                } else if ty == 2 {
                    if acc.choices.len() >= MAX_MULTIPLE_CHOICE_AMOUNT as int {
                        Err(Error::TooManyChoices)
                    } else {
                        Ok(
                            FormAcc {
                                choices: acc.choices.push(
                                    ChoiceModel { name: f.value, correct: p == 'c' },
                                ),
                                ..acc
                            },
                        )
                    }
                } else if ty == 3 {
                    Err(Error::Other)
                } else {
                    Err(Error::UnknownQuestionType)
                },
            }
        } else {
            Err(Error::Other)
        }
    }
}

pub open spec fn spec_form_fold(fs: Seq<FieldModel>, acc: FormAcc) -> Result<FormAcc, Error>
    decreases fs.len(),
{
    if fs.len() == 0 {
        Ok(acc)
    } else {
        match spec_form_step(fs[0], acc) {
            Err(e) => Err(e),
            Ok(a) => spec_form_fold(fs.drop_first(), a),
        }
    }
}

/// A whole record from a field sequence: fold every field, then finalize the
/// last in-progress group unconditionally.
pub open spec fn spec_from_form_data(fs: Seq<FieldModel>) -> Result<TryoutModel, Error> {
    match spec_form_fold(fs, init_form_acc()) {
        Err(e) => Err(e),
        Ok(acc) => match spec_build_question(acc.prompt, acc.qtype, acc.choices) {
            Err(e) => Err(e),
            Ok(q) => Ok(
                TryoutModel {
                    id: acc.id,
                    title: match acc.title {
                        Some(t) => t,
                        None => Seq::empty(),
                    },
                    description: match acc.description {
                        Some(d) => d,
                        None => Seq::empty(),
                    },
                    questions: acc.questions.push(q),
                },
            ),
        },
    }
}

/// Finalizes one group, as `spec_build_question` describes.
fn build_question(prompt: Option<String>, qtype: Option<u32>, choices: Vec<Choice>) -> (r: Result<
    Question,
    Error,
>)
    ensures
        match r {
            Ok(q) => spec_build_question(opt_string_view(prompt), qtype, choices.deep_view())
                == Ok::<QuestionModel, Error>(q@),
            Err(e) => spec_build_question(opt_string_view(prompt), qtype, choices.deep_view())
                == Err::<QuestionModel, Error>(e),
        },
{
    let p = match prompt {
        Some(p) => p,
        None => {
            return Err(Error::MissingQuestionPrompt);
        },
    };
    let t = match qtype {
        Some(t) => t,
        None => {
            return Err(Error::MissingQuestionType);
        },
    };
    if t == 1 {
        if choices.len() > 2 {
            return Err(Error::TooManyChoices);
        }
        if choices.len() < 2 {
            return Err(Error::NotEnoughChoices);
        }
        let mut cs = choices;
        let c0 = cs.remove(0);
        let c1 = cs.remove(0);
        Ok(Question { kind: QuestionKind::TrueOrFalse(c0, c1), prompt: p })
    } else if t == 2 {
        if choices.len() > MAX_MULTIPLE_CHOICE_AMOUNT {
            return Err(Error::TooManyChoices);
        }
        if choices.len() < 1 {
            return Err(Error::NotEnoughChoices);
        }
        Ok(Question { kind: QuestionKind::MultipleChoice(choices), prompt: p })
    } else if t == 3 {
        Ok(Question { kind: QuestionKind::Essay, prompt: p })
    } else {
        Err(Error::UnknownQuestionType)
    }
}

impl Tryout {
    /// Reconstructs a record from form fields, as `spec_from_form_data`
    /// describes.
    pub fn from_form_data(data: HtmlFormData) -> (r: Result<Self, Error>)
        ensures
            match r {
                Ok(t) => spec_from_form_data(data@) == Ok::<TryoutModel, Error>(t@),
                Err(e) => spec_from_form_data(data@) == Err::<TryoutModel, Error>(e),
            },
    {
        let ghost fs = data@;
        let v: Vec<HtmlFormField> = data.into_fields();
        let mut title: Option<String> = None;
        let mut description: Option<String> = None;
        let mut id: Option<u128> = None;
        let mut qid: Option<u32> = None;
        let mut prompt: Option<String> = None;
        let mut qtype: Option<u32> = None;
        let mut choices: Vec<Choice> = Vec::new();
        let mut questions: Vec<Question> = Vec::new();
        let n = v.len();
        let mut i: usize = 0;
        proof {
            assert(fs.skip(0) =~= fs);
            assert((FormAcc {
                title: opt_string_view(title),
                description: opt_string_view(description),
                id,
                qid,
                prompt: opt_string_view(prompt),
                qtype,
                choices: choices.deep_view(),
                questions: questions.deep_view(),
            }) =~= init_form_acc());
        }
        while i < n
            invariant
                i <= n,
                n == v.len(),
                fs == v.deep_view(),
                spec_form_fold(fs, init_form_acc()) == spec_form_fold(
                    fs.skip(i as int),
                    FormAcc {
                        title: opt_string_view(title),
                        description: opt_string_view(description),
                        id,
                        qid,
                        prompt: opt_string_view(prompt),
                        qtype,
                        choices: choices.deep_view(),
                        questions: questions.deep_view(),
                    },
                ),
            decreases n - i,
        {
            let ghost rem = fs.skip(i as int);
            let ghost cur = FormAcc {
                title: opt_string_view(title),
                description: opt_string_view(description),
                id,
                qid,
                prompt: opt_string_view(prompt),
                qtype,
                choices: choices.deep_view(),
                questions: questions.deep_view(),
            };
            proof {
                assert(rem[0] == fs[i as int]);
                assert(rem.drop_first() =~= fs.skip(i + 1));
            }
            let f: &HtmlFormField = &v[i];
            let nlen = f.name.as_str().unicode_len();
            let first = if nlen > 0 {
                f.name.as_str().get_char(0)
            } else {
                ' '
            };
            if nlen == 1 && first == 't' {
                proof {
                    assert(f.name@ =~= seq!['t']);
                }
                if title.is_some() {
                    return Err(Error::Other);
                }
                title = Some(f.value.clone());
            } else if nlen == 1 && first == 'd' {
                proof {
                    assert(f.name@ =~= seq!['d']);
                }
                if description.is_some() {
                    return Err(Error::Other);
                }
                description = Some(f.value.clone());
            } else if nlen == 1 && first == 'a' {
                proof {
                    assert(f.name@ =~= seq!['a']);
                }
                if id.is_some() {
                    return Err(Error::DuplicateField);
                }
                if f.value.as_str().unicode_len() == 0 {
                    // An empty identifier value means "no identifier".
                } else {
                    match form_id_from_value(f.value.as_str()) {
                        Ok(x) => {
                            id = Some(x);
                        },
                        Err(e) => {
                            return Err(e);
                        },
                    }
                }
            } else {
                proof {
                    if f.name@.len() == 1 {
                        assert(f.name@[0] == first);
                        assert(f.name@ != seq!['t'] && f.name@ != seq!['d'] && f.name@
                            != seq!['a']);
                    } else {
                        assert(f.name@.len() != seq!['t'].len());
                        assert(f.name@ != seq!['t'] && f.name@ != seq!['d'] && f.name@
                            != seq!['a']);
                    }
                }
                let k = match find_char_in(f.name.as_str(), '_') {
                    Some(k) => k,
                    None => {
                        return Err(Error::Other);
                    },
                };
                proof {
                    crate::text::lemma_find_char(f.name@, '_');
                }
                let id_str = f.name.as_str().substring_char(0, k);
                proof {
                    assert(id_str@ =~= f.name@.take(k as int));
                }
                let gid = match parse_u32(id_str) {
                    Some(g) => g,
                    None => {
                        return Err(Error::InvalidQuestionId);
                    },
                };
                let need_build = match qid {
                    Some(x) => x != gid,
                    None => false,
                };
                if need_build {
                    let old_prompt = prompt;
                    let old_qtype = qtype;
                    let old_choices = choices;
                    prompt = None;
                    qtype = None;
                    choices = Vec::new();
                    let q = match build_question(old_prompt, old_qtype, old_choices) {
                        Ok(q) => q,
                        Err(e) => {
                            return Err(e);
                        },
                    };
                    let ghost prevq = questions.deep_view();
                    questions.push(q);
                    proof {
                        assert(questions.deep_view() =~= prevq.push(q@));
                        assert(choices.deep_view() =~= Seq::<ChoiceModel>::empty());
                    }
                }
                qid = Some(gid);
                proof {
                    assert(f.name@.skip(k + 1).len() == nlen - k - 1);
                }
                if k + 1 == nlen {
                    return Err(Error::Other);
                }
                let p = f.name.as_str().get_char(k + 1);
                proof {
                    assert(f.name@.skip(k + 1)[0] == f.name@[k + 1]);
                }
                if p == 'q' {
                    if prompt.is_some() {
                        return Err(Error::Other);
                    }
                    prompt = Some(f.value.clone());
                } else if p == 't' {
                    if qtype.is_some() {
                        return Err(Error::Other);
                    }
                    match parse_u32(f.value.as_str()) {
                        Some(x) => {
                            qtype = Some(x);
                        },
                        None => {
                            return Err(Error::Other);
                        },
                    }
                } else if p == 'o' || p == 'c' {
                    match qtype {
                        None => {
                            return Err(Error::MissingQuestionType);
                        },
                        Some(ty) => {
                            if ty == 1 {
                                if choices.len() >= 2 {
                                    return Err(Error::TooManyChoices);
                                }
                                let ghost prevc = choices.deep_view();
                                choices.push(
                                    Choice { name: f.value.clone(), correct: p == 'c' },
                                );
                                proof {
                                    assert(choices.deep_view() =~= prevc.push(
                                        ChoiceModel { name: f.value@, correct: p == 'c' },
                                    ));
                                }
                            } else if ty == 2 {
                                if choices.len() >= MAX_MULTIPLE_CHOICE_AMOUNT {
                                    return Err(Error::TooManyChoices);
                                }
                                let ghost prevc = choices.deep_view();
                                choices.push(
                                    Choice { name: f.value.clone(), correct: p == 'c' },
                                );
                                proof {
                                    assert(choices.deep_view() =~= prevc.push(
                                        ChoiceModel { name: f.value@, correct: p == 'c' },
                                    ));
                                }
                            } else if ty == 3 {
                                return Err(Error::Other);
                            } else {
                                return Err(Error::UnknownQuestionType);
                            }
                        },
                    }
                } else {
                    return Err(Error::Other);
                }
            }
            i = i + 1;
            proof {
                assert((FormAcc {
                    title: opt_string_view(title),
                    description: opt_string_view(description),
                    id,
                    qid,
                    prompt: opt_string_view(prompt),
                    qtype,
                    choices: choices.deep_view(),
                    questions: questions.deep_view(),
                }) =~= (match spec_form_step(rem[0], cur) {
                    Ok(a) => a,
                    Err(_) => cur,
                }));
            }
        }
        proof {
            assert(fs.skip(n as int) =~= Seq::<FieldModel>::empty());
        }
        let old_prompt = prompt;
        let old_qtype = qtype;
        let old_choices = choices;
        let q = match build_question(old_prompt, old_qtype, old_choices) {
            Ok(q) => q,
            Err(e) => {
                return Err(e);
            },
        };
        let ghost prevq = questions.deep_view();
        questions.push(q);
        proof {
            assert(questions.deep_view() =~= prevq.push(q@));
        }
        let title_str = match title {
            Some(t) => t,
            None => String::new(),
        };
        let description_str = match description {
            Some(d) => d,
            None => String::new(),
        };
        Ok(Tryout::new(id, title_str, description_str, questions))
    }
}

// ---------------------------------------------------------------------------
// Laws
// ---------------------------------------------------------------------------
/// True-or-false cardinality on the form path: a finalized group with the
/// true-or-false type needs exactly two choices.
pub proof fn lemma_form_true_or_false_cardinality(prompt: Seq<char>, choices: Seq<ChoiceModel>)
    ensures
        choices.len() > 2 ==> spec_build_question(Some(prompt), Some(1), choices) == Err::<
            QuestionModel,
            Error,
        >(Error::TooManyChoices),
        choices.len() < 2 ==> spec_build_question(Some(prompt), Some(1), choices) == Err::<
            QuestionModel,
            Error,
        >(Error::NotEnoughChoices),
        choices.len() == 2 ==> spec_build_question(Some(prompt), Some(1), choices) == Ok::<
            QuestionModel,
            Error,
        >(QuestionModel { kind: QuestionKindModel::TrueOrFalse(choices[0], choices[1]), prompt }),
{
}

/// Once a title field has been taken, any further `t` field makes the whole
/// reconstruction fail.
proof fn lemma_form_fold_title_seen_err(fs: Seq<FieldModel>, acc: FormAcc, k: int)
    requires
        acc.title is Some,
        0 <= k < fs.len(),
        fs[k].name == seq!['t'],
    ensures
        spec_form_fold(fs, acc) is Err,
    decreases fs.len(),
{
    match spec_form_step(fs[0], acc) {
        Ok(a2) => {
            assert(a2.title is Some);
            assert(k != 0);
            assert(fs.drop_first()[k - 1] == fs[k]);
            lemma_form_fold_title_seen_err(fs.drop_first(), a2, k - 1);
        },
        Err(_) => {},
    }
}

proof fn lemma_form_fold_two_titles_err(fs: Seq<FieldModel>, acc: FormAcc, i: int, j: int)
    requires
        0 <= i < j < fs.len(),
        fs[i].name == seq!['t'],
        fs[j].name == seq!['t'],
    ensures
        spec_form_fold(fs, acc) is Err,
    decreases fs.len(),
{
    match spec_form_step(fs[0], acc) {
        Ok(a2) => {
            if i == 0 {
                assert(a2.title is Some);
                assert(fs.drop_first()[j - 1] == fs[j]);
                lemma_form_fold_title_seen_err(fs.drop_first(), a2, j - 1);
            } else {
                assert(fs.drop_first()[i - 1] == fs[i]);
                assert(fs.drop_first()[j - 1] == fs[j]);
                lemma_form_fold_two_titles_err(fs.drop_first(), a2, i - 1, j - 1);
            }
        },
        Err(_) => {},
    }
}

/// The choice bound is enforced the instant a choice field arrives: once a
/// true-or-false group holds two choices, a further `o` or `c` field fails
/// at once with `TooManyChoices`, never deferred to finalization.
pub proof fn lemma_form_third_choice_rejected(f: FieldModel, acc: FormAcc, rest: Seq<char>)
    requires
        acc.qtype == Some(1u32),
        acc.choices.len() >= 2,
        rest.len() > 0,
        rest[0] == 'o' || rest[0] == 'c',
    ensures
        spec_form_dispatch(f, acc, rest) == Err::<FormAcc, Error>(Error::TooManyChoices),
{
}

/// Adjacency grouping: the instant a question field's group number differs
/// from the current group's, the in-progress question is finalized and
/// appended — or its failure aborts the call — and only then is the field
/// itself applied, to a fresh group.
pub proof fn lemma_group_change_finalizes(
    fs: Seq<FieldModel>,
    f: FieldModel,
    m: FormAcc,
    k: int,
    gid: u32,
)
    requires
        spec_form_fold(fs, init_form_acc()) == Ok::<FormAcc, Error>(m),
        f.name != seq!['t'],
        f.name != seq!['d'],
        f.name != seq!['a'],
        k == find_char(f.name, '_'),
        0 <= k < f.name.len(),
        spec_parse_u32(f.name.take(k)) == Some(gid),
        m.qid is Some,
        m.qid != Some(gid),
    ensures
        spec_form_fold(fs.push(f), init_form_acc()) == (match spec_build_question(
            m.prompt,
            m.qtype,
            m.choices,
        ) {
            Err(e) => Err::<FormAcc, Error>(e),
            Ok(q) => spec_form_dispatch(
                f,
                FormAcc {
                    questions: m.questions.push(q),
                    prompt: None,
                    qtype: None,
                    choices: Seq::empty(),
                    qid: Some(gid),
                    ..m
                },
                f.name.skip(k + 1),
            ),
        }),
{
    lemma_form_fold_append(fs, seq![f], init_form_acc());
    assert(fs + seq![f] =~= fs.push(f));
    assert(spec_form_fold(fs.push(f), init_form_acc()) == spec_form_fold(seq![f], m));
    assert(seq![f][0] == f);
    assert(seq![f].drop_first() =~= Seq::<FieldModel>::empty());
    match spec_form_step(f, m) {
        Ok(a) => {
            assert(spec_form_fold(Seq::<FieldModel>::empty(), a) == Ok::<FormAcc, Error>(a));
            assert(spec_form_fold(seq![f], m) == Ok::<FormAcc, Error>(a));
        },
        Err(_) => {},
    }
}

/// A question field whose group number matches the current group — or that
/// opens the very first group — finalizes nothing: the in-progress question
/// keeps accumulating.
pub proof fn lemma_same_group_continues(
    fs: Seq<FieldModel>,
    f: FieldModel,
    m: FormAcc,
    k: int,
    gid: u32,
)
    requires
        spec_form_fold(fs, init_form_acc()) == Ok::<FormAcc, Error>(m),
        f.name != seq!['t'],
        f.name != seq!['d'],
        f.name != seq!['a'],
        k == find_char(f.name, '_'),
        0 <= k < f.name.len(),
        spec_parse_u32(f.name.take(k)) == Some(gid),
        m.qid is None || m.qid == Some(gid),
    ensures
        spec_form_fold(fs.push(f), init_form_acc()) == spec_form_dispatch(
            f,
            FormAcc { qid: Some(gid), ..m },
            f.name.skip(k + 1),
        ),
{
    lemma_form_fold_append(fs, seq![f], init_form_acc());
    assert(fs + seq![f] =~= fs.push(f));
    assert(spec_form_fold(fs.push(f), init_form_acc()) == spec_form_fold(seq![f], m));
    assert(seq![f][0] == f);
    assert(seq![f].drop_first() =~= Seq::<FieldModel>::empty());
    match spec_form_step(f, m) {
        Ok(a) => {
            assert(spec_form_fold(Seq::<FieldModel>::empty(), a) == Ok::<FormAcc, Error>(a));
            assert(spec_form_fold(seq![f], m) == Ok::<FormAcc, Error>(a));
        },
        Err(_) => {},
    }
}

/// The last in-progress group is finalized unconditionally once the fields
/// run out, and any finalization failure fails the whole call.
pub proof fn lemma_final_flush(fs: Seq<FieldModel>, m: FormAcc)
    requires
        spec_form_fold(fs, init_form_acc()) == Ok::<FormAcc, Error>(m),
    ensures
        spec_from_form_data(fs) == (match spec_build_question(m.prompt, m.qtype, m.choices) {
            Err(e) => Err::<TryoutModel, Error>(e),
            Ok(q) => Ok(
                TryoutModel {
                    id: m.id,
                    title: match m.title {
                        Some(t) => t,
                        None => Seq::empty(),
                    },
                    description: match m.description {
                        Some(d) => d,
                        None => Seq::empty(),
                    },
                    questions: m.questions.push(q),
                },
            ),
        }),
{
}

/// Folding a concatenation folds the first part, then the second.
proof fn lemma_form_fold_append(a: Seq<FieldModel>, b: Seq<FieldModel>, acc: FormAcc)
    ensures
        spec_form_fold(a + b, acc) == (match spec_form_fold(a, acc) {
            Ok(m) => spec_form_fold(b, m),
            Err(e) => Err::<FormAcc, Error>(e),
        }),
    decreases a.len(),
{
    if a.len() == 0 {
        assert(a + b =~= b);
    } else {
        assert((a + b)[0] == a[0]);
        match spec_form_step(a[0], acc) {
            Ok(m) => {
                assert((a + b).drop_first() =~= a.drop_first() + b);
                lemma_form_fold_append(a.drop_first(), b, m);
            },
            Err(_) => {},
        }
    }
}

/// A fold that went through keeps the title once taken.
proof fn lemma_form_fold_keeps_title(fs: Seq<FieldModel>, acc: FormAcc, m: FormAcc)
    requires
        acc.title is Some,
        spec_form_fold(fs, acc) == Ok::<FormAcc, Error>(m),
    ensures
        m.title is Some,
    decreases fs.len(),
{
    if fs.len() > 0 {
        match spec_form_step(fs[0], acc) {
            Ok(a2) => {
                assert(a2.title is Some);
                lemma_form_fold_keeps_title(fs.drop_first(), a2, m);
            },
            Err(_) => {},
        }
    }
}

/// A fold that went through past a title field has taken it.
proof fn lemma_form_fold_sets_title(fs: Seq<FieldModel>, acc: FormAcc, k: int, m: FormAcc)
    requires
        0 <= k < fs.len(),
        fs[k].name == seq!['t'],
        spec_form_fold(fs, acc) == Ok::<FormAcc, Error>(m),
    ensures
        m.title is Some,
    decreases fs.len(),
{
    match spec_form_step(fs[0], acc) {
        Ok(a2) => {
            if k == 0 {
                assert(a2.title is Some);
                lemma_form_fold_keeps_title(fs.drop_first(), a2, m);
            } else {
                assert(fs.drop_first()[k - 1] == fs[k]);
                lemma_form_fold_sets_title(fs.drop_first(), a2, k - 1, m);
            }
        },
        Err(_) => {},
    }
}

/// Duplicate singleton, exact error: when everything before the second `t`
/// field goes through cleanly, the failure is `Other`.
pub proof fn lemma_duplicate_title_field_error(fs: Seq<FieldModel>, i: int, j: int)
    requires
        0 <= i < j < fs.len(),
        fs[i].name == seq!['t'],
        fs[j].name == seq!['t'],
        spec_form_fold(fs.take(j), init_form_acc()) is Ok,
    ensures
        spec_from_form_data(fs) == Err::<TryoutModel, Error>(Error::Other),
{
    match spec_form_fold(fs.take(j), init_form_acc()) {
        Ok(m) => {
            assert(fs.take(j)[i] == fs[i]);
            lemma_form_fold_sets_title(fs.take(j), init_form_acc(), i, m);
            lemma_form_fold_append(fs.take(j), fs.skip(j), init_form_acc());
            assert(fs.take(j) + fs.skip(j) =~= fs);
            assert(fs.skip(j)[0] == fs[j]);
            assert(spec_form_step(fs[j], m) == Err::<FormAcc, Error>(Error::Other));
        },
        Err(_) => {},
    }
}

/// Duplicate singleton: a field sequence holding two `t` fields never
/// reconstructs a record, whatever surrounds them.
pub proof fn lemma_duplicate_title_fields(fs: Seq<FieldModel>, i: int, j: int)
    requires
        0 <= i < j < fs.len(),
        fs[i].name == seq!['t'],
        fs[j].name == seq!['t'],
    ensures
        spec_from_form_data(fs) is Err,
{
    lemma_form_fold_two_titles_err(fs, init_form_acc(), i, j);
}

/// Always four.
pub fn lololol() -> (r: u32)
    ensures
        r == 4,
{
    4
}

} // verus!
