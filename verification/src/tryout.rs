use vstd::prelude::*;
use vstd::utf8::encode_utf8;

use crate::chunk::{spec_chunk_bytes, spec_decode, spec_encode, Chunk, ChunkModel, Chunks};
use crate::endian::{u128_be_bytes, u128_be_bytes_exec};
use crate::error::Error;
use crate::ident::{base62_all_valid, base62_value, id_from_payload, spec_id_decode};
use crate::text::{chunk_text, utf8_lossy};

verus! {

/// The most choices a multiple-choice question may carry.
pub const MAX_MULTIPLE_CHOICE_AMOUNT: usize = 10;

/// One selectable answer: its text and whether it is the correct one.
#[derive(Debug)]
pub struct Choice {
    pub name: String,
    pub correct: bool,
}

#[verifier::ext_equal]
pub ghost struct ChoiceModel {
    pub name: Seq<char>,
    pub correct: bool,
}

impl View for Choice {
    type V = ChoiceModel;

    open spec fn view(&self) -> ChoiceModel {
        ChoiceModel { name: self.name@, correct: self.correct }
    }
}

impl DeepView for Choice {
    type V = ChoiceModel;

    open spec fn deep_view(&self) -> ChoiceModel {
        self.view()
    }
}

/// What sort of question this is, with its choices where the kind has any.
#[derive(Debug)]
pub enum QuestionKind {
    TrueOrFalse(Choice, Choice),
    MultipleChoice(Vec<Choice>),
    Essay,
}

#[verifier::ext_equal]
pub ghost enum QuestionKindModel {
    TrueOrFalse(ChoiceModel, ChoiceModel),
    MultipleChoice(Seq<ChoiceModel>),
    Essay,
}

impl View for QuestionKind {
    type V = QuestionKindModel;

    open spec fn view(&self) -> QuestionKindModel {
        match self {
            QuestionKind::TrueOrFalse(a, b) => QuestionKindModel::TrueOrFalse(a@, b@),
            QuestionKind::MultipleChoice(cs) => QuestionKindModel::MultipleChoice(cs.deep_view()),
            QuestionKind::Essay => QuestionKindModel::Essay,
        }
    }
}

impl DeepView for QuestionKind {
    type V = QuestionKindModel;

    open spec fn deep_view(&self) -> QuestionKindModel {
        self.view()
    }
}

/// One question: its kind and its prompt text.
#[derive(Debug)]
pub struct Question {
    pub kind: QuestionKind,
    pub prompt: String,
}

#[verifier::ext_equal]
pub ghost struct QuestionModel {
    pub kind: QuestionKindModel,
    pub prompt: Seq<char>,
}

impl View for Question {
    type V = QuestionModel;

    open spec fn view(&self) -> QuestionModel {
        QuestionModel { kind: self.kind@, prompt: self.prompt@ }
    }
}

impl DeepView for Question {
    type V = QuestionModel;

    open spec fn deep_view(&self) -> QuestionModel {
        self.view()
    }
}

/// The domain record: an optional 128-bit identifier, title and description
/// text, and the questions in display order.
#[derive(Debug)]
pub struct Tryout {
    id: Option<u128>,
    title: String,
    description: String,
    questions: Vec<Question>,
}

#[verifier::ext_equal]
pub ghost struct TryoutModel {
    pub id: Option<u128>,
    pub title: Seq<char>,
    pub description: Seq<char>,
    pub questions: Seq<QuestionModel>,
}

impl View for Tryout {
    type V = TryoutModel;

    closed spec fn view(&self) -> TryoutModel {
        TryoutModel {
            id: self.id,
            title: self.title@,
            description: self.description@,
            questions: self.questions.deep_view(),
        }
    }
}

// ---------------------------------------------------------------------------
// Encoding a record into chunks
// ---------------------------------------------------------------------------
/// Chunk construction in the model: succeeds exactly when the payload is
/// under the construction-time size guard.
pub open spec fn spec_new_chunk(tag: u32, payload: Seq<u8>) -> Result<ChunkModel, Error> {
    if payload.len() < u32::MAX - 8 {
        Ok(ChunkModel { tag, payload })
    } else {
        Err(Error::ChunkTooLarge)
    }
}

/// A choice is encoded as a chunk whose tag says whether it is correct.
pub open spec fn choice_tag(correct: bool) -> u32 {
    if correct {
        1
    } else {
        0
    }
}

/// A question becomes one chunk: tag 1 for true-or-false and 3 for essay,
/// payload an inner sequence holding the prompt (inner tag 0) and, for
/// true-or-false, a choices wrapper (inner tag 1) of exactly two choice
/// chunks.  Multiple-choice encoding is unsupported and fails with `Other`.
pub open spec fn spec_question_to_chunk(q: QuestionModel) -> Result<ChunkModel, Error> {
    match spec_new_chunk(0, encode_utf8(q.prompt)) {
        Err(e) => Err(e),
        Ok(pc) => match q.kind {
            QuestionKindModel::TrueOrFalse(a, b) => match spec_new_chunk(
                choice_tag(a.correct),
                encode_utf8(a.name),
            ) {
                Err(e) => Err(e),
                Ok(ca) => match spec_new_chunk(choice_tag(b.correct), encode_utf8(b.name)) {
                    Err(e) => Err(e),
                    Ok(cb) => match spec_new_chunk(
                        1,
                        spec_chunk_bytes(ca) + spec_chunk_bytes(cb),
                    ) {
                        Err(e) => Err(e),
                        Ok(w) => spec_new_chunk(1, spec_chunk_bytes(pc) + spec_chunk_bytes(w)),
                    },
                },
            },
            QuestionKindModel::MultipleChoice(_) => Err(Error::Other),
            QuestionKindModel::Essay => spec_new_chunk(3, spec_chunk_bytes(pc)),
        },
    }
}

pub open spec fn spec_questions_to_chunks(qs: Seq<QuestionModel>) -> Result<Seq<ChunkModel>, Error>
    decreases qs.len(),
{
    if qs.len() == 0 {
        Ok(Seq::empty())
    } else {
        match spec_question_to_chunk(qs[0]) {
            Err(e) => Err(e),
            Ok(c) => match spec_questions_to_chunks(qs.drop_first()) {
                Err(e) => Err(e),
                Ok(rest) => Ok(seq![c] + rest),
            },
        }
    }
}

/// The identifier chunk's payload: empty for "no identifier", else the
/// sixteen big-endian bytes of the 128-bit value.
pub open spec fn spec_id_payload(id: Option<u128>) -> Seq<u8> {
    match id {
        None => Seq::empty(),
        Some(v) => u128_be_bytes(v),
    }
}

/// A record is always encoded in this fixed order: identifier (tag 16),
/// title (17), description (18), then one chunk per question.
pub open spec fn spec_tryout_to_chunks(t: TryoutModel) -> Result<Seq<ChunkModel>, Error> {
    match spec_new_chunk(16, spec_id_payload(t.id)) {
        Err(e) => Err(e),
        Ok(idc) => match spec_new_chunk(17, encode_utf8(t.title)) {
            Err(e) => Err(e),
            Ok(tc) => match spec_new_chunk(18, encode_utf8(t.description)) {
                Err(e) => Err(e),
                Ok(dc) => match spec_questions_to_chunks(t.questions) {
                    Err(e) => Err(e),
                    Ok(qcs) => Ok(seq![idc, tc, dc] + qcs),
                },
            },
        },
    }
}

pub open spec fn spec_tryout_to_bytes(t: TryoutModel) -> Result<Seq<u8>, Error> {
    match spec_tryout_to_chunks(t) {
        Err(e) => Err(e),
        Ok(cs) => Ok(spec_encode(cs)),
    }
}

impl Question {
    /// Encodes this question, as `spec_question_to_chunk` describes.
    pub fn to_chunk(&self) -> (r: Result<Chunk, Error>)
        ensures
            match r {
                Ok(c) => spec_question_to_chunk(self@) == Ok::<ChunkModel, Error>(c@),
                Err(e) => spec_question_to_chunk(self@) == Err::<ChunkModel, Error>(e),
            },
    {
        let mut data: Vec<u8> = Vec::new();
        let pc = match Chunk::new(0, self.prompt.as_str().as_bytes()) {
            Ok(c) => c,
            Err(e) => {
                return Err(e);
            },
        };
        let pcb = pc.to_owned_bytes();
        crate::chunk::append_bytes(&mut data, pcb.as_slice());
        let type_index: u32;
        match &self.kind {
            QuestionKind::TrueOrFalse(a, b) => {
                let ca = match Chunk::new(
                    if a.correct {
                        1
                    } else {
                        0
                    },
                    a.name.as_str().as_bytes(),
                ) {
                    Ok(c) => c,
                    Err(e) => {
                        return Err(e);
                    },
                };
                let cb = match Chunk::new(
                    if b.correct {
                        1
                    } else {
                        0
                    },
                    b.name.as_str().as_bytes(),
                ) {
                    Ok(c) => c,
                    Err(e) => {
                        return Err(e);
                    },
                };
                let mut inner: Vec<u8> = Vec::new();
                let cab = ca.to_owned_bytes();
                crate::chunk::append_bytes(&mut inner, cab.as_slice());
                let cbb = cb.to_owned_bytes();
                crate::chunk::append_bytes(&mut inner, cbb.as_slice());
                let w = match Chunk::new(1, inner.as_slice()) {
                    Ok(c) => c,
                    Err(e) => {
                        return Err(e);
                    },
                };
                let wb = w.to_owned_bytes();
                crate::chunk::append_bytes(&mut data, wb.as_slice());
                type_index = 1;
            },
            QuestionKind::MultipleChoice(_) => {
                return Err(Error::Other);
            },
            QuestionKind::Essay => {
                type_index = 3;
            },
        }
        Chunk::new(type_index, data.as_slice())
    }
}

impl Tryout {
    /// Encodes this record, as `spec_tryout_to_chunks` describes.
    pub fn to_chunks(&self) -> (r: Result<Chunks, Error>)
        ensures
            match r {
                Ok(cs) => spec_tryout_to_chunks(self@) == Ok::<Seq<ChunkModel>, Error>(cs@),
                Err(e) => spec_tryout_to_chunks(self@) == Err::<Seq<ChunkModel>, Error>(e),
            },
    {
        let mut chunks: Vec<Chunk> = Vec::new();
        let id_payload: Vec<u8> = match self.id {
            None => Vec::new(),
            Some(v) => u128_be_bytes_exec(v),
        };
        let idc = match Chunk::new(16, id_payload.as_slice()) {
            Ok(c) => c,
            Err(e) => {
                return Err(e);
            },
        };
        chunks.push(idc);
        let tc = match Chunk::new(17, self.title.as_str().as_bytes()) {
            Ok(c) => c,
            Err(e) => {
                return Err(e);
            },
        };
        chunks.push(tc);
        let dc = match Chunk::new(18, self.description.as_str().as_bytes()) {
            Ok(c) => c,
            Err(e) => {
                return Err(e);
            },
        };
        chunks.push(dc);
        let ghost header = chunks.deep_view();
        let n = self.questions.len();
        let mut i: usize = 0;
        proof {
            assert(self@.questions.skip(0) =~= self@.questions);
            assert(chunks.deep_view().skip(3) =~= Seq::<ChunkModel>::empty());
            if let Ok(rest) = spec_questions_to_chunks(self@.questions) {
                assert(Seq::<ChunkModel>::empty() + rest =~= rest);
            }
        }
        while i < n
            invariant
                i <= n,
                chunks.deep_view().len() >= 3,
                chunks.deep_view().take(3) == header,
                header == seq![idc@, tc@, dc@],
                spec_questions_to_chunks(self@.questions) == (match spec_questions_to_chunks(
                    self@.questions.skip(i as int),
                ) {
                    Ok(rest) => Ok::<Seq<ChunkModel>, Error>(chunks.deep_view().skip(3) + rest),
                    Err(e) => Err::<Seq<ChunkModel>, Error>(e),
                }),
            decreases n - i,
        {
            let ghost qs_rem = self@.questions.skip(i as int);
            let q: &Question = &self.questions[i];
            proof {
                assert(qs_rem[0] == self@.questions[i as int]);
                assert(q@ == self@.questions[i as int]);
            }
            let qc = match q.to_chunk() {
                Ok(c) => c,
                Err(e) => {
                    return Err(e);
                },
            };
            let ghost prev = chunks.deep_view().skip(3);
            chunks.push(qc);
            i = i + 1;
            proof {
                assert(chunks.deep_view().skip(3) =~= prev.push(qc@));
                assert(chunks.deep_view().take(3) =~= header);
                assert(self@.questions.skip(i as int) =~= qs_rem.drop_first());
                lemma_compose_question_chunks(prev, qc@, qs_rem.drop_first());
            }
        }
        proof {
            assert(self@.questions.skip(n as int) =~= Seq::<QuestionModel>::empty());
            match spec_questions_to_chunks(self@.questions) {
                Ok(qcs) => {
                    assert(seq![idc@, tc@, dc@] + qcs =~= chunks.deep_view().take(3)
                        + chunks.deep_view().skip(3));
                    assert(chunks.deep_view().take(3) + chunks.deep_view().skip(3)
                        =~= chunks.deep_view());
                },
                Err(_) => {},
            }
        }
        Ok(Chunks::from_vec(chunks))
    }

    /// Encodes this record to wire bytes, as `spec_tryout_to_bytes` describes.
    pub fn to_bytes(&self) -> (r: Result<Vec<u8>, Error>)
        ensures
            match r {
                Ok(b) => spec_tryout_to_bytes(self@) == Ok::<Seq<u8>, Error>(b@),
                Err(e) => spec_tryout_to_bytes(self@) == Err::<Seq<u8>, Error>(e),
            },
    {
        match self.to_chunks() {
            Ok(cs) => Ok(cs.to_bytes()),
            Err(e) => Err(e),
        }
    }
}

// ---------------------------------------------------------------------------
// Decoding chunks into a record
// ---------------------------------------------------------------------------
/// The in-progress state while reading one question's inner chunks.
#[verifier::ext_equal]
pub ghost struct QAcc {
    pub prompt: Option<Seq<char>>,
    pub choices: Seq<ChoiceModel>,
}

pub open spec fn init_qacc() -> QAcc {
    QAcc { prompt: None, choices: Seq::empty() }
}

pub open spec fn opt_string_view(o: Option<String>) -> Option<Seq<char>> {
    match o {
        None => None,
        Some(s) => Some(s@),
    }
}

/// Reading the chunks inside a choices wrapper: tag 0 is an incorrect choice,
/// tag 1 a correct one, anything else is unknown; the payload is the name.
pub open spec fn spec_choices_fold(cs: Seq<ChunkModel>, acc: Seq<ChoiceModel>) -> Result<
    Seq<ChoiceModel>,
    Error,
>
    decreases cs.len(),
{
    if cs.len() == 0 {
        Ok(acc)
    } else {
        let c = cs[0];
        if c.tag == 0 || c.tag == 1 {
            spec_choices_fold(
                cs.drop_first(),
                acc.push(ChoiceModel { name: chunk_text(c.payload), correct: c.tag == 1 }),
            )
        } else {
            Err(Error::UnknownTypeIndex)
        }
    }
}

/// One inner chunk of a question: tag 0 is the prompt (a singleton), tag 1 a
/// choices wrapper (rejected outright for essays), anything else is unknown.
pub open spec fn spec_question_step(qtag: u32, c: ChunkModel, acc: QAcc) -> Result<QAcc, Error> {
    if c.tag == 0 {
        if acc.prompt is Some {
            Err(Error::DuplicateField)
        } else {
            Ok(QAcc { prompt: Some(chunk_text(c.payload)), ..acc })
        }
    } else if c.tag == 1 {
        if qtag == 3 {
            Err(Error::TooManyChoices)
        } else {
            match spec_decode(c.payload) {
                Err(e) => Err(e),
                Ok(inner) => match spec_choices_fold(inner, acc.choices) {
                    Err(e) => Err(e),
                    Ok(cs) => Ok(QAcc { choices: cs, ..acc }),
                },
            }
        }
    } else {
        Err(Error::UnknownTypeIndex)
    }
}

pub open spec fn spec_question_fold(qtag: u32, cs: Seq<ChunkModel>, acc: QAcc) -> Result<
    QAcc,
    Error,
>
    decreases cs.len(),
{
    if cs.len() == 0 {
        Ok(acc)
    } else {
        match spec_question_step(qtag, cs[0], acc) {
            Err(e) => Err(e),
            Ok(a) => spec_question_fold(qtag, cs.drop_first(), a),
        }
    }
}

/// Closing a question: true-or-false requires exactly two collected choices;
/// multiple-choice needs at least one; an essay takes none.  A missing
/// prompt defaults to empty text.
pub open spec fn spec_question_finalize(qtag: u32, acc: QAcc) -> Result<QuestionModel, Error> {
    let prompt = match acc.prompt {
        Some(p) => p,
        None => Seq::<char>::empty(),
    };
    if qtag == 1 {
        if acc.choices.len() > 2 {
            Err(Error::TooManyChoices)
        } else if acc.choices.len() < 2 {
            Err(Error::NotEnoughChoices)
        } else {
            Ok(
                QuestionModel {
                    kind: QuestionKindModel::TrueOrFalse(acc.choices[0], acc.choices[1]),
                    prompt,
                },
            )
        }
    } else if qtag == 2 {
        if acc.choices.len() < 1 {
            Err(Error::NotEnoughChoices)
        } else {
            Ok(QuestionModel { kind: QuestionKindModel::MultipleChoice(acc.choices), prompt })
        }
    } else {
        Ok(QuestionModel { kind: QuestionKindModel::Essay, prompt })
    }
}

/// A question chunk: its payload is itself a chunk sequence; its tag selects
/// the kind (1 true-or-false, 2 multiple-choice, 3 essay) once decoding of
/// the payload has succeeded.
pub open spec fn spec_question_from_chunk(c: ChunkModel) -> Result<QuestionModel, Error> {
    match spec_decode(c.payload) {
        Err(e) => Err(e),
        Ok(inner) => if c.tag < 1 || c.tag > 3 {
            Err(Error::UnknownTypeIndex)
        } else {
            match spec_question_fold(c.tag, inner, init_qacc()) {
                Err(e) => Err(e),
                Ok(acc) => spec_question_finalize(c.tag, acc),
            }
        },
    }
}

/// The in-progress state while reading a record's chunks.  `id` is doubly
/// optional: the outer layer says whether an identifier chunk was seen, the
/// inner layer whether it held a value.
#[verifier::ext_equal]
pub ghost struct ChunksAcc {
    pub id: Option<Option<u128>>,
    pub title: Option<Seq<char>>,
    pub description: Option<Seq<char>>,
    pub questions: Seq<QuestionModel>,
}

pub open spec fn init_chunks_acc() -> ChunksAcc {
    ChunksAcc { id: None, title: None, description: None, questions: Seq::empty() }
}

/// One top-level chunk: tags 1 to 15 are questions, 16 the identifier, 17
/// the title, 18 the description (each of those a singleton); any other tag
/// is ignored for forward compatibility.
pub open spec fn spec_chunks_step(c: ChunkModel, acc: ChunksAcc) -> Result<ChunksAcc, Error> {
    if 1 <= c.tag && c.tag <= 15 {
        match spec_question_from_chunk(c) {
            Err(e) => Err(e),
            Ok(q) => Ok(ChunksAcc { questions: acc.questions.push(q), ..acc }),
        }
    } else if c.tag == 16 {
        if acc.id is Some {
            Err(Error::DuplicateField)
        } else {
            match spec_id_decode(c.payload) {
                Err(e) => Err(e),
                Ok(i) => Ok(ChunksAcc { id: Some(i), ..acc }),
            }
        }
    } else if c.tag == 17 {
        if acc.title is Some {
            Err(Error::DuplicateField)
        } else {
            Ok(ChunksAcc { title: Some(chunk_text(c.payload)), ..acc })
        }
    } else if c.tag == 18 {
        if acc.description is Some {
            Err(Error::DuplicateField)
        } else {
            Ok(ChunksAcc { description: Some(chunk_text(c.payload)), ..acc })
        }
    } else {
        Ok(acc)
    }
}

pub open spec fn spec_chunks_fold(cs: Seq<ChunkModel>, acc: ChunksAcc) -> Result<ChunksAcc, Error>
    decreases cs.len(),
{
    if cs.len() == 0 {
        Ok(acc)
    } else {
        match spec_chunks_step(cs[0], acc) {
            Err(e) => Err(e),
            Ok(a) => spec_chunks_fold(cs.drop_first(), a),
        }
    }
}

/// A whole record from a chunk sequence.  Missing identifier, title or
/// description default to no identifier and empty text; question order is
/// encounter order.
pub open spec fn spec_tryout_from_chunks(cs: Seq<ChunkModel>) -> Result<TryoutModel, Error> {
    match spec_chunks_fold(cs, init_chunks_acc()) {
        Err(e) => Err(e),
        Ok(a) => Ok(
            TryoutModel {
                id: match a.id {
                    Some(i) => i,
                    None => None,
                },
                title: match a.title {
                    Some(t) => t,
                    None => Seq::<char>::empty(),
                },
                description: match a.description {
                    Some(d) => d,
                    None => Seq::<char>::empty(),
                },
                questions: a.questions,
            },
        ),
    }
}

pub open spec fn spec_tryout_from_bytes(b: Seq<u8>) -> Result<TryoutModel, Error> {
    match spec_decode(b) {
        Err(e) => Err(e),
        Ok(cs) => spec_tryout_from_chunks(cs),
    }
}

impl Question {
    /// Decodes one question chunk, as `spec_question_from_chunk` describes.
    pub fn from_chunk(chunk: &Chunk) -> (r: Result<Self, Error>)
        ensures
            match r {
                Ok(q) => spec_question_from_chunk(chunk@) == Ok::<QuestionModel, Error>(q@),
                Err(e) => spec_question_from_chunk(chunk@) == Err::<QuestionModel, Error>(e),
            },
    {
        let inner: Chunks = match Chunks::from_bytes(chunk.get_data()) {
            Ok(x) => x,
            Err(e) => {
                return Err(e);
            },
        };
        let question_type = chunk.get_type();
        if question_type < 1 || question_type > 3 {
            return Err(Error::UnknownTypeIndex);
        }
        let v: Vec<Chunk> = inner.into_iter();
        let ghost inner_models = v.deep_view();
        let mut prompt: Option<String> = None;
        let mut choices: Vec<Choice> = Vec::new();
        let n = v.len();
        let mut i: usize = 0;
        proof {
            assert(inner_models.skip(0) =~= inner_models);
            assert((QAcc { prompt: opt_string_view(prompt), choices: choices.deep_view() })
                =~= init_qacc());
        }
        while i < n
            invariant
                i <= n,
                n == v.len(),
                1 <= question_type <= 3,
                spec_question_fold(question_type, inner_models, init_qacc())
                    == spec_question_fold(
                    question_type,
                    inner_models.skip(i as int),
                    QAcc { prompt: opt_string_view(prompt), choices: choices.deep_view() },
                ),
            decreases n - i,
        {
            let ghost rem = inner_models.skip(i as int);
            let ghost cur = QAcc {
                prompt: opt_string_view(prompt),
                choices: choices.deep_view(),
            };
            proof {
                assert(rem[0] == inner_models[i as int]);
                assert(rem.drop_first() =~= inner_models.skip(i + 1));
            }
            let c: &Chunk = &v[i];
            let t = c.get_type();
            if t == 0 {
                if prompt.is_some() {
                    return Err(Error::DuplicateField);
                }
                prompt = Some(utf8_lossy(c.get_data()));
            } else if t == 1 {
                if question_type == 3 {
                    return Err(Error::TooManyChoices);
                }
                let cc: Chunks = match Chunks::from_bytes(c.get_data()) {
                    Ok(x) => x,
                    Err(e) => {
                        return Err(e);
                    },
                };
                let cv: Vec<Chunk> = cc.into_iter();
                let ghost cv_models = cv.deep_view();
                let ghost entry_choices = choices.deep_view();
                let m = cv.len();
                let mut j: usize = 0;
                proof {
                    assert(cv_models.skip(0) =~= cv_models);
                }
                while j < m
                    invariant
                        j <= m,
                        m == cv.len(),
                        spec_choices_fold(cv_models, entry_choices) == spec_choices_fold(
                            cv_models.skip(j as int),
                            choices.deep_view(),
                        ),
                    decreases m - j,
                {
                    let ghost crem = cv_models.skip(j as int);
                    proof {
                        assert(crem[0] == cv_models[j as int]);
                        assert(crem.drop_first() =~= cv_models.skip(j + 1));
                    }
                    let ic: &Chunk = &cv[j];
                    let it = ic.get_type();
                    if it == 0 || it == 1 {
                        let ghost prevc = choices.deep_view();
                        choices.push(Choice { name: utf8_lossy(ic.get_data()), correct: it == 1 });
                        proof {
                            assert(choices.deep_view() =~= prevc.push(
                                ChoiceModel {
                                    name: chunk_text(cv_models[j as int].payload),
                                    correct: cv_models[j as int].tag == 1,
                                },
                            ));
                        }
                    } else {
                        return Err(Error::UnknownTypeIndex);
                    }
                    j = j + 1;
                }
                proof {
                    assert(cv_models.skip(m as int) =~= Seq::<ChunkModel>::empty());
                    assert(spec_choices_fold(cv_models, entry_choices) == Ok::<
                        Seq<ChoiceModel>,
                        Error,
                    >(choices.deep_view()));
                    assert(spec_question_step(question_type, rem[0], cur) == Ok::<QAcc, Error>(
                        QAcc { prompt: cur.prompt, choices: choices.deep_view() },
                    ));
                    assert((QAcc { prompt: opt_string_view(prompt), choices: choices.deep_view() })
                        =~= (QAcc { prompt: cur.prompt, choices: choices.deep_view() }));
                }
            } else {
                return Err(Error::UnknownTypeIndex);
            }
            i = i + 1;
        }
        proof {
            assert(inner_models.skip(n as int) =~= Seq::<ChunkModel>::empty());
        }
        let prompt_str = match prompt {
            Some(p) => p,
            None => String::new(),
        };
        if question_type == 1 {
            if choices.len() > 2 {
                return Err(Error::TooManyChoices);
            }
            if choices.len() < 2 {
                return Err(Error::NotEnoughChoices);
            }
            let c0 = choices.remove(0);
            let c1 = choices.remove(0);
            let q = Question { kind: QuestionKind::TrueOrFalse(c0, c1), prompt: prompt_str };
            return Ok(q);
        } else if question_type == 2 {
            if choices.len() < 1 {
                return Err(Error::NotEnoughChoices);
            }
            let q = Question { kind: QuestionKind::MultipleChoice(choices), prompt: prompt_str };
            return Ok(q);
        } else {
            let q = Question { kind: QuestionKind::Essay, prompt: prompt_str };
            return Ok(q);
        }
    }
}

impl Tryout {
    /// Decodes a whole record, as `spec_tryout_from_chunks` describes.
    pub fn from_chunks(chunks: Chunks) -> (r: Result<Self, Error>)
        ensures
            match r {
                Ok(t) => spec_tryout_from_chunks(chunks@) == Ok::<TryoutModel, Error>(t@),
                Err(e) => spec_tryout_from_chunks(chunks@) == Err::<TryoutModel, Error>(e),
            },
    {
        let ghost cs = chunks@;
        let v: Vec<Chunk> = chunks.into_iter();
        let mut id: Option<Option<u128>> = None;
        let mut title: Option<String> = None;
        let mut description: Option<String> = None;
        let mut questions: Vec<Question> = Vec::new();
        let n = v.len();
        let mut i: usize = 0;
        proof {
            assert(cs.skip(0) =~= cs);
            assert((ChunksAcc {
                id,
                title: opt_string_view(title),
                description: opt_string_view(description),
                questions: questions.deep_view(),
            }) =~= init_chunks_acc());
        }
        while i < n
            invariant
                i <= n,
                n == v.len(),
                cs == v.deep_view(),
                spec_chunks_fold(cs, init_chunks_acc()) == spec_chunks_fold(
                    cs.skip(i as int),
                    ChunksAcc {
                        id,
                        title: opt_string_view(title),
                        description: opt_string_view(description),
                        questions: questions.deep_view(),
                    },
                ),
            decreases n - i,
        {
            let ghost rem = cs.skip(i as int);
            let ghost cur = ChunksAcc {
                id,
                title: opt_string_view(title),
                description: opt_string_view(description),
                questions: questions.deep_view(),
            };
            proof {
                assert(rem[0] == cs[i as int]);
                assert(rem.drop_first() =~= cs.skip(i + 1));
            }
            let c: &Chunk = &v[i];
            let t = c.get_type();
            if 1 <= t && t <= 15 {
                let q = match Question::from_chunk(c) {
                    Ok(q) => q,
                    Err(e) => {
                        return Err(e);
                    },
                };
                let ghost prevq = questions.deep_view();
                questions.push(q);
                proof {
                    assert(questions.deep_view() =~= prevq.push(q@));
                }
            } else if t == 16 {
                if id.is_some() {
                    return Err(Error::DuplicateField);
                }
                match id_from_payload(c.get_data()) {
                    Ok(x) => {
                        id = Some(x);
                    },
                    Err(e) => {
                        return Err(e);
                    },
                }
            } else if t == 17 {
                if title.is_some() {
                    return Err(Error::DuplicateField);
                }
                title = Some(utf8_lossy(c.get_data()));
            } else if t == 18 {
                if description.is_some() {
                    return Err(Error::DuplicateField);
                }
                description = Some(utf8_lossy(c.get_data()));
            }
            i = i + 1;
            proof {
                assert((ChunksAcc {
                    id,
                    title: opt_string_view(title),
                    description: opt_string_view(description),
                    questions: questions.deep_view(),
                }) =~= (match spec_chunks_step(rem[0], cur) {
                    Ok(a) => a,
                    Err(_) => cur,
                }));
            }
        }
        proof {
            assert(cs.skip(n as int) =~= Seq::<ChunkModel>::empty());
        }
        let id_flat: Option<u128> = match id {
            Some(x) => x,
            None => None,
        };
        let title_str = match title {
            Some(s) => s,
            None => String::new(),
        };
        let description_str = match description {
            Some(s) => s,
            None => String::new(),
        };
        Ok(
            Tryout {
                id: id_flat,
                title: title_str,
                description: description_str,
                questions,
            },
        )
    }

    /// Decodes a whole record from wire bytes, as `spec_tryout_from_bytes`
    /// describes.
    pub fn from_bytes(data: &[u8]) -> (r: Result<Self, Error>)
        ensures
            match r {
                Ok(t) => spec_tryout_from_bytes(data@) == Ok::<TryoutModel, Error>(t@),
                Err(e) => spec_tryout_from_bytes(data@) == Err::<TryoutModel, Error>(e),
            },
    {
        match Chunks::from_bytes(data) {
            Ok(cs) => Self::from_chunks(cs),
            Err(e) => Err(e),
        }
    }

    /// Builds a record directly from its parts.
    pub fn new(id: Option<u128>, title: String, description: String, questions: Vec<Question>) -> (r:
        Self)
        ensures
            r@ == (TryoutModel {
                id,
                title: title@,
                description: description@,
                questions: questions.deep_view(),
            }),
    {
        Self { id, title, description, questions }
    }

    /// Does nothing: identifiers are assigned by the storage layer when a
    /// record is first written, never through the record itself.
    pub fn set_id() {
    }

    pub fn get_id(&self) -> (r: Option<u128>)
        ensures
            r == self@.id,
    {
        self.id
    }

    pub fn title(&self) -> (r: &String)
        ensures
            r@ == self@.title,
    {
        &self.title
    }

    pub fn description(&self) -> (r: &String)
        ensures
            r@ == self@.description,
    {
        &self.description
    }

    pub fn questions(&self) -> (r: &Vec<Question>)
        ensures
            r.deep_view() == self@.questions,
    {
        &self.questions
    }
}

// ---------------------------------------------------------------------------
// Laws
// ---------------------------------------------------------------------------
/// A buffer holding exactly one encoded chunk decodes to that chunk.
proof fn lemma_one_chunk_decode(x: ChunkModel)
    requires
        crate::chunk::chunk_model_wf(x),
    ensures
        spec_decode(spec_chunk_bytes(x)) == Ok::<Seq<ChunkModel>, Error>(seq![x]),
{
    assert(spec_decode(Seq::<u8>::empty()) == Ok::<Seq<ChunkModel>, Error>(Seq::empty()));
    assert(spec_chunk_bytes(x) + Seq::<u8>::empty() =~= spec_chunk_bytes(x));
    crate::chunk::lemma_decode_chunk_prefix(x, Seq::<u8>::empty());
    assert(seq![x] + Seq::<ChunkModel>::empty() =~= seq![x]);
}

/// A buffer holding exactly two encoded chunks decodes to those two chunks.
proof fn lemma_two_chunks_decode(x: ChunkModel, y: ChunkModel)
    requires
        crate::chunk::chunk_model_wf(x),
        crate::chunk::chunk_model_wf(y),
    ensures
        spec_decode(spec_chunk_bytes(x) + spec_chunk_bytes(y)) == Ok::<Seq<ChunkModel>, Error>(
            seq![x, y],
        ),
{
    lemma_one_chunk_decode(y);
    crate::chunk::lemma_decode_chunk_prefix(x, spec_chunk_bytes(y));
    assert(seq![x] + seq![y] =~= seq![x, y]);
}

/// The true-or-false case of the question round trip.
#[verifier::rlimit(100)]
proof fn lemma_question_round_trip_tf(
    q: QuestionModel,
    a: ChoiceModel,
    b: ChoiceModel,
    c: ChunkModel,
)
    requires
        q.kind == QuestionKindModel::TrueOrFalse(a, b),
        spec_question_to_chunk(q) == Ok::<ChunkModel, Error>(c),
    ensures
        spec_question_from_chunk(c) == Ok::<QuestionModel, Error>(q),
{
    let pc = ChunkModel { tag: 0, payload: encode_utf8(q.prompt) };
    crate::text::lemma_chunk_text_round_trip(q.prompt);
    let ca = ChunkModel { tag: choice_tag(a.correct), payload: encode_utf8(a.name) };
    let cb = ChunkModel { tag: choice_tag(b.correct), payload: encode_utf8(b.name) };
    let w = ChunkModel { tag: 1, payload: spec_chunk_bytes(ca) + spec_chunk_bytes(cb) };
    assert(c == ChunkModel { tag: 1, payload: spec_chunk_bytes(pc) + spec_chunk_bytes(w) });
    // The outer payload decodes to the prompt chunk and the wrapper.
    lemma_two_chunks_decode(pc, w);
    let inner = seq![pc, w];
    assert(spec_decode(c.payload) == Ok::<Seq<ChunkModel>, Error>(inner));
    // The wrapper's payload decodes to the two choice chunks.
    lemma_two_chunks_decode(ca, cb);
    let cinner = seq![ca, cb];
    assert(spec_decode(w.payload) == Ok::<Seq<ChunkModel>, Error>(cinner));
    // Reading the choice chunks back gives the two choices.
    crate::text::lemma_chunk_text_round_trip(a.name);
    crate::text::lemma_chunk_text_round_trip(b.name);
    assert(cinner.drop_first() =~= seq![cb]);
    assert(seq![cb].drop_first() =~= Seq::<ChunkModel>::empty());
    let am = ChoiceModel { name: chunk_text(ca.payload), correct: ca.tag == 1 };
    let bm = ChoiceModel { name: chunk_text(cb.payload), correct: cb.tag == 1 };
    assert(am == a);
    assert(bm == b);
    assert(Seq::<ChoiceModel>::empty().push(am) =~= seq![a]);
    assert(seq![a].push(bm) =~= seq![a, b]);
    assert(spec_choices_fold(cinner, Seq::<ChoiceModel>::empty()) == spec_choices_fold(
        seq![cb],
        seq![a],
    ));
    assert(seq![cb].drop_first() =~= Seq::<ChunkModel>::empty());
    assert(spec_choices_fold(seq![cb], seq![a]) == spec_choices_fold(
        Seq::<ChunkModel>::empty(),
        seq![a, b],
    ));
    assert(spec_choices_fold(cinner, Seq::<ChoiceModel>::empty()) == Ok::<
        Seq<ChoiceModel>,
        Error,
    >(seq![a, b]));
    // The question fold collects prompt and choices.
    let acc1 = QAcc { prompt: Some(q.prompt), choices: Seq::empty() };
    assert(spec_question_step(1, pc, init_qacc()) == Ok::<QAcc, Error>(acc1));
    let acc2 = QAcc { prompt: Some(q.prompt), choices: seq![a, b] };
    assert(spec_question_step(1, w, acc1) == Ok::<QAcc, Error>(acc2));
    assert(inner.drop_first() =~= seq![w]);
    assert(spec_question_fold(1, inner, init_qacc()) == spec_question_fold(
        1,
        seq![w],
        acc1,
    ));
    assert(seq![w].drop_first() =~= Seq::<ChunkModel>::empty());
    assert(spec_question_fold(1, seq![w], acc1) == spec_question_fold(
        1,
        Seq::<ChunkModel>::empty(),
        acc2,
    ));
    assert(spec_question_fold(1, inner, init_qacc()) == Ok::<QAcc, Error>(acc2));
    assert(spec_question_finalize(1, acc2) == Ok::<QuestionModel, Error>(
        QuestionModel { kind: QuestionKindModel::TrueOrFalse(a, b), prompt: q.prompt },
    ));
    assert((QuestionModel {
        kind: QuestionKindModel::TrueOrFalse(a, b),
        prompt: q.prompt,
    }) =~= q);
}

/// The essay case of the question round trip.
#[verifier::rlimit(100)]
proof fn lemma_question_round_trip_essay(q: QuestionModel, c: ChunkModel)
    requires
        q.kind is Essay,
        spec_question_to_chunk(q) == Ok::<ChunkModel, Error>(c),
    ensures
        spec_question_from_chunk(c) == Ok::<QuestionModel, Error>(q),
{
    let pc = ChunkModel { tag: 0, payload: encode_utf8(q.prompt) };
    crate::text::lemma_chunk_text_round_trip(q.prompt);
    assert(c == ChunkModel { tag: 3, payload: spec_chunk_bytes(pc) });
    lemma_one_chunk_decode(pc);
    let inner = seq![pc];
    assert(spec_decode(c.payload) == Ok::<Seq<ChunkModel>, Error>(inner));
    let acc1 = QAcc { prompt: Some(q.prompt), choices: Seq::empty() };
    assert(spec_question_step(3, pc, init_qacc()) == Ok::<QAcc, Error>(acc1));
    assert(inner.drop_first() =~= Seq::<ChunkModel>::empty());
    assert(spec_question_fold(3, inner, init_qacc()) == spec_question_fold(
        3,
        Seq::<ChunkModel>::empty(),
        acc1,
    ));
    assert(spec_question_fold(3, inner, init_qacc()) == Ok::<QAcc, Error>(acc1));
    assert(spec_question_finalize(3, acc1) == Ok::<QuestionModel, Error>(
        QuestionModel { kind: QuestionKindModel::Essay, prompt: q.prompt },
    ));
    assert((QuestionModel { kind: QuestionKindModel::Essay, prompt: q.prompt }) =~= q);
}

/// Question round trip: decoding an encoded question gives it back.  Only
/// true-or-false and essay questions can be encoded at all.
pub proof fn lemma_question_round_trip(q: QuestionModel, c: ChunkModel)
    requires
        !(q.kind is MultipleChoice),
        spec_question_to_chunk(q) == Ok::<ChunkModel, Error>(c),
    ensures
        spec_question_from_chunk(c) == Ok::<QuestionModel, Error>(q),
{
    match q.kind {
        QuestionKindModel::TrueOrFalse(a, b) => {
            lemma_question_round_trip_tf(q, a, b, c);
        },
        QuestionKindModel::MultipleChoice(_) => {
            assert(false);
        },
        QuestionKindModel::Essay => {
            lemma_question_round_trip_essay(q, c);
        },
    }
}

/// Folding the chunks of encoded questions onto an accumulator appends
/// exactly those questions, in order, and touches nothing else.
proof fn lemma_questions_round_trip_fold(
    qs: Seq<QuestionModel>,
    qcs: Seq<ChunkModel>,
    acc: ChunksAcc,
)
    requires
        spec_questions_to_chunks(qs) == Ok::<Seq<ChunkModel>, Error>(qcs),
        forall|i: int| 0 <= i < qs.len() ==> !((#[trigger] qs[i]).kind is MultipleChoice),
    ensures
        spec_chunks_fold(qcs, acc) == Ok::<ChunksAcc, Error>(
            ChunksAcc { questions: acc.questions + qs, ..acc },
        ),
    decreases qs.len(),
{
    if qs.len() == 0 {
        assert(qcs =~= Seq::<ChunkModel>::empty());
        assert(acc.questions + qs =~= acc.questions);
        assert((ChunksAcc { questions: acc.questions + qs, ..acc }) =~= acc);
    } else {
        let q0 = qs[0];
        match spec_question_to_chunk(q0) {
            Ok(c) => {
                lemma_question_round_trip(q0, c);
                assert(c.tag == 1 || c.tag == 3);
                let acc2 = ChunksAcc { questions: acc.questions.push(q0), ..acc };
                assert(spec_chunks_step(c, acc) == Ok::<ChunksAcc, Error>(acc2));
                match spec_questions_to_chunks(qs.drop_first()) {
                    Ok(rest) => {
                        assert(qcs == seq![c] + rest);
                        assert(qcs[0] == c);
                        assert(qcs.drop_first() =~= rest);
                        assert forall|i: int| 0 <= i < qs.drop_first().len() implies !((
                        #[trigger] qs.drop_first()[i]).kind is MultipleChoice) by {
                            assert(qs.drop_first()[i] == qs[i + 1]);
                        }
                        lemma_questions_round_trip_fold(qs.drop_first(), rest, acc2);
                        assert(acc.questions.push(q0) + qs.drop_first() =~= acc.questions + qs);
                        assert((ChunksAcc {
                            questions: acc2.questions + qs.drop_first(),
                            ..acc2
                        }) =~= (ChunksAcc { questions: acc.questions + qs, ..acc }));
                    },
                    Err(_) => {
                        assert(false);
                    },
                }
            },
            Err(_) => {
                assert(false);
            },
        }
    }
}

/// Record round trip: any record with no identifier and no multiple-choice
/// question that encodes at all decodes back to itself, field for field,
/// question order included.  (A present identifier does not round-trip: it is
/// written as raw bytes but read back as base-62 text.)
pub proof fn lemma_tryout_round_trip(t: TryoutModel, cs: Seq<ChunkModel>)
    requires
        t.id is None,
        forall|i: int| 0 <= i < t.questions.len() ==> !((
        #[trigger] t.questions[i]).kind is MultipleChoice),
        spec_tryout_to_chunks(t) == Ok::<Seq<ChunkModel>, Error>(cs),
    ensures
        spec_tryout_from_chunks(cs) == Ok::<TryoutModel, Error>(t),
{
    let idc = ChunkModel { tag: 16, payload: Seq::empty() };
    let tc = ChunkModel { tag: 17, payload: encode_utf8(t.title) };
    let dc = ChunkModel { tag: 18, payload: encode_utf8(t.description) };
    assert(spec_id_payload(t.id) =~= Seq::<u8>::empty());
    match spec_questions_to_chunks(t.questions) {
        Ok(qcs) => {
            assert(cs == seq![idc, tc, dc] + qcs);
            crate::ident::lemma_empty_id_payload();
            crate::text::lemma_chunk_text_round_trip(t.title);
            crate::text::lemma_chunk_text_round_trip(t.description);
            let acc1 = ChunksAcc {
                id: Some(None),
                title: None,
                description: None,
                questions: Seq::empty(),
            };
            let acc2 = ChunksAcc { title: Some(t.title), ..acc1 };
            let acc3 = ChunksAcc { description: Some(t.description), ..acc2 };
            assert(cs[0] == idc);
            assert(spec_chunks_step(idc, init_chunks_acc()) == Ok::<ChunksAcc, Error>(acc1));
            assert(cs.drop_first()[0] == tc);
            assert(spec_chunks_step(tc, acc1) == Ok::<ChunksAcc, Error>(acc2));
            assert(cs.drop_first().drop_first()[0] == dc);
            assert(spec_chunks_step(dc, acc2) == Ok::<ChunksAcc, Error>(acc3));
            assert(cs.drop_first().drop_first().drop_first() =~= qcs);
            lemma_questions_round_trip_fold(t.questions, qcs, acc3);
            assert(Seq::<QuestionModel>::empty() + t.questions =~= t.questions);
            assert(spec_chunks_fold(cs, init_chunks_acc()) == spec_chunks_fold(
                cs.drop_first(),
                acc1,
            ));
            assert(spec_chunks_fold(cs.drop_first(), acc1) == spec_chunks_fold(
                cs.drop_first().drop_first(),
                acc2,
            ));
            assert(spec_chunks_fold(cs.drop_first().drop_first(), acc2) == spec_chunks_fold(
                qcs,
                acc3,
            ));
            assert((ChunksAcc { questions: acc3.questions + t.questions, ..acc3 }) =~= (ChunksAcc {
                id: Some(None),
                title: Some(t.title),
                description: Some(t.description),
                questions: t.questions,
            }));
            assert(spec_chunks_fold(cs, init_chunks_acc()) == Ok::<ChunksAcc, Error>(
                ChunksAcc {
                    id: Some(None),
                    title: Some(t.title),
                    description: Some(t.description),
                    questions: t.questions,
                },
            ));
            assert((TryoutModel {
                id: None,
                title: t.title,
                description: t.description,
                questions: t.questions,
            }) =~= t);
        },
        Err(_) => {
            assert(false);
        },
    }
}

/// Every chunk an encoded record holds fits the wire size field.
proof fn lemma_questions_chunks_wf(qs: Seq<QuestionModel>, qcs: Seq<ChunkModel>)
    requires
        spec_questions_to_chunks(qs) == Ok::<Seq<ChunkModel>, Error>(qcs),
    ensures
        forall|i: int| 0 <= i < qcs.len() ==> crate::chunk::chunk_model_wf(#[trigger] qcs[i]),
    decreases qs.len(),
{
    if qs.len() == 0 {
        assert(qcs =~= Seq::<ChunkModel>::empty());
    } else {
        match spec_question_to_chunk(qs[0]) {
            Ok(c) => {
                match spec_questions_to_chunks(qs.drop_first()) {
                    Ok(rest) => {
                        lemma_questions_chunks_wf(qs.drop_first(), rest);
                        assert(qcs == seq![c] + rest);
                        assert forall|i: int| 0 <= i < qcs.len() implies crate::chunk::chunk_model_wf(
                            #[trigger] qcs[i],
                        ) by {
                            if i == 0 {
                                assert(qcs[0] == c);
                            } else {
                                assert(qcs[i] == rest[i - 1]);
                            }
                        }
                    },
                    Err(_) => {
                        assert(false);
                    },
                }
            },
            Err(_) => {
                assert(false);
            },
        }
    }
}

/// Record round trip through wire bytes, composing the codec round trip with
/// the record round trip.
pub proof fn lemma_tryout_bytes_round_trip(t: TryoutModel, b: Seq<u8>)
    requires
        t.id is None,
        forall|i: int| 0 <= i < t.questions.len() ==> !((
        #[trigger] t.questions[i]).kind is MultipleChoice),
        spec_tryout_to_bytes(t) == Ok::<Seq<u8>, Error>(b),
    ensures
        spec_tryout_from_bytes(b) == Ok::<TryoutModel, Error>(t),
{
    match spec_tryout_to_chunks(t) {
        Ok(cs) => {
            match spec_questions_to_chunks(t.questions) {
                Ok(qcs) => {
                    lemma_questions_chunks_wf(t.questions, qcs);
                    assert forall|i: int| 0 <= i < cs.len() implies crate::chunk::chunk_model_wf(
                        #[trigger] cs[i],
                    ) by {
                        if i >= 3 {
                            assert(cs[i] == qcs[i - 3]);
                        }
                    }
                    crate::chunk::lemma_codec_round_trip(cs);
                    lemma_tryout_round_trip(t, cs);
                },
                Err(_) => {
                    assert(false);
                },
            }
        },
        Err(_) => {
            assert(false);
        },
    }
}

/// Once an identifier chunk has been taken, any further tag-16 chunk makes
/// the whole decode fail.
proof fn lemma_fold_id_seen_err(cs: Seq<ChunkModel>, acc: ChunksAcc, k: int)
    requires
        acc.id is Some,
        0 <= k < cs.len(),
        cs[k].tag == 16,
    ensures
        spec_chunks_fold(cs, acc) is Err,
    decreases cs.len(),
{
    match spec_chunks_step(cs[0], acc) {
        Ok(a2) => {
            assert(a2.id is Some);
            assert(k != 0);
            assert(cs.drop_first()[k - 1] == cs[k]);
            lemma_fold_id_seen_err(cs.drop_first(), a2, k - 1);
        },
        Err(_) => {},
    }
}

proof fn lemma_fold_two_ids_err(cs: Seq<ChunkModel>, acc: ChunksAcc, i: int, j: int)
    requires
        0 <= i < j < cs.len(),
        cs[i].tag == 16,
        cs[j].tag == 16,
    ensures
        spec_chunks_fold(cs, acc) is Err,
    decreases cs.len(),
{
    match spec_chunks_step(cs[0], acc) {
        Ok(a2) => {
            if i == 0 {
                assert(a2.id is Some);
                assert(cs.drop_first()[j - 1] == cs[j]);
                lemma_fold_id_seen_err(cs.drop_first(), a2, j - 1);
            } else {
                assert(cs.drop_first()[i - 1] == cs[i]);
                assert(cs.drop_first()[j - 1] == cs[j]);
                lemma_fold_two_ids_err(cs.drop_first(), a2, i - 1, j - 1);
            }
        },
        Err(_) => {},
    }
}

/// Duplicate singleton: a chunk sequence holding two identifier chunks never
/// decodes to a record, whatever surrounds them.  (The error is
/// `DuplicateField` at the second identifier chunk unless an earlier chunk
/// already failed for its own reason.)
pub proof fn lemma_duplicate_id_chunks(cs: Seq<ChunkModel>, i: int, j: int)
    requires
        0 <= i < j < cs.len(),
        cs[i].tag == 16,
        cs[j].tag == 16,
    ensures
        spec_tryout_from_chunks(cs) is Err,
{
    lemma_fold_two_ids_err(cs, init_chunks_acc(), i, j);
}

/// Folding a concatenation folds the first part, then the second.
proof fn lemma_chunks_fold_append(a: Seq<ChunkModel>, b: Seq<ChunkModel>, acc: ChunksAcc)
    ensures
        spec_chunks_fold(a + b, acc) == (match spec_chunks_fold(a, acc) {
            Ok(m) => spec_chunks_fold(b, m),
            Err(e) => Err::<ChunksAcc, Error>(e),
        }),
    decreases a.len(),
{
    if a.len() == 0 {
        assert(a + b =~= b);
    } else {
        assert((a + b)[0] == a[0]);
        match spec_chunks_step(a[0], acc) {
            Ok(m) => {
                assert((a + b).drop_first() =~= a.drop_first() + b);
                lemma_chunks_fold_append(a.drop_first(), b, m);
            },
            Err(_) => {},
        }
    }
}

/// A fold that went through keeps the identifier once taken.
proof fn lemma_fold_keeps_id(cs: Seq<ChunkModel>, acc: ChunksAcc, m: ChunksAcc)
    requires
        acc.id is Some,
        spec_chunks_fold(cs, acc) == Ok::<ChunksAcc, Error>(m),
    ensures
        m.id is Some,
    decreases cs.len(),
{
    if cs.len() > 0 {
        match spec_chunks_step(cs[0], acc) {
            Ok(a2) => {
                assert(a2.id is Some);
                lemma_fold_keeps_id(cs.drop_first(), a2, m);
            },
            Err(_) => {},
        }
    }
}

/// A fold that went through past an identifier chunk has taken it.
proof fn lemma_fold_sets_id(cs: Seq<ChunkModel>, acc: ChunksAcc, k: int, m: ChunksAcc)
    requires
        0 <= k < cs.len(),
        cs[k].tag == 16,
        spec_chunks_fold(cs, acc) == Ok::<ChunksAcc, Error>(m),
    ensures
        m.id is Some,
    decreases cs.len(),
{
    match spec_chunks_step(cs[0], acc) {
        Ok(a2) => {
            if k == 0 {
                assert(a2.id is Some);
                lemma_fold_keeps_id(cs.drop_first(), a2, m);
            } else {
                assert(cs.drop_first()[k - 1] == cs[k]);
                lemma_fold_sets_id(cs.drop_first(), a2, k - 1, m);
            }
        },
        Err(_) => {},
    }
}

/// Duplicate singleton, exact error: when everything before the second
/// identifier chunk decodes cleanly, the failure is `DuplicateField`.
pub proof fn lemma_duplicate_id_chunk_error(cs: Seq<ChunkModel>, i: int, j: int)
    requires
        0 <= i < j < cs.len(),
        cs[i].tag == 16,
        cs[j].tag == 16,
        spec_chunks_fold(cs.take(j), init_chunks_acc()) is Ok,
    ensures
        spec_tryout_from_chunks(cs) == Err::<TryoutModel, Error>(Error::DuplicateField),
{
    match spec_chunks_fold(cs.take(j), init_chunks_acc()) {
        Ok(m) => {
            assert(cs.take(j)[i] == cs[i]);
            lemma_fold_sets_id(cs.take(j), init_chunks_acc(), i, m);
            lemma_chunks_fold_append(cs.take(j), cs.skip(j), init_chunks_acc());
            assert(cs.take(j) + cs.skip(j) =~= cs);
            assert(cs.skip(j)[0] == cs[j]);
            assert(spec_chunks_step(cs[j], m) == Err::<ChunksAcc, Error>(Error::DuplicateField));
        },
        Err(_) => {},
    }
}

/// A fold over chunks none of which carries the identifier tag leaves the
/// identifier as it stood.
proof fn lemma_fold_id_unchanged(cs: Seq<ChunkModel>, acc: ChunksAcc, m: ChunksAcc)
    requires
        forall|i: int| 0 <= i < cs.len() ==> (#[trigger] cs[i]).tag != 16,
        spec_chunks_fold(cs, acc) == Ok::<ChunksAcc, Error>(m),
    ensures
        m.id == acc.id,
    decreases cs.len(),
{
    if cs.len() > 0 {
        match spec_chunks_step(cs[0], acc) {
            Ok(a2) => {
                assert(a2.id == acc.id);
                assert forall|i: int| 0 <= i < cs.drop_first().len() implies (#[trigger] cs
                    .drop_first()[i]).tag != 16 by {
                    assert(cs.drop_first()[i] == cs[i + 1]);
                }
                lemma_fold_id_unchanged(cs.drop_first(), a2, m);
            },
            Err(_) => {},
        }
    }
}

/// A record holding exactly one identifier chunk takes its identifier from
/// that chunk's payload alone, whatever surrounds it.
pub proof fn lemma_single_id_chunk(cs: Seq<ChunkModel>, j: int, t: TryoutModel)
    requires
        0 <= j < cs.len(),
        cs[j].tag == 16,
        forall|i: int| 0 <= i < cs.len() && i != j ==> (#[trigger] cs[i]).tag != 16,
        spec_tryout_from_chunks(cs) == Ok::<TryoutModel, Error>(t),
    ensures
        spec_id_decode(cs[j].payload) == Ok::<Option<u128>, Error>(t.id),
{
    lemma_chunks_fold_append(cs.take(j), cs.skip(j), init_chunks_acc());
    assert(cs.take(j) + cs.skip(j) =~= cs);
    match spec_chunks_fold(cs.take(j), init_chunks_acc()) {
        Ok(m1) => {
            assert forall|i: int| 0 <= i < cs.take(j).len() implies (#[trigger] cs.take(j)[i]).tag
                != 16 by {
                assert(cs.take(j)[i] == cs[i]);
            }
            lemma_fold_id_unchanged(cs.take(j), init_chunks_acc(), m1);
            assert(m1.id is None);
            assert(cs.skip(j)[0] == cs[j]);
            match spec_chunks_step(cs[j], m1) {
                Ok(a2) => {
                    match spec_id_decode(cs[j].payload) {
                        Ok(i0) => {
                            assert(a2.id == Some(i0));
                            assert(cs.skip(j).drop_first() =~= cs.skip(j + 1));
                            match spec_chunks_fold(cs.skip(j + 1), a2) {
                                Ok(mf) => {
                                    assert forall|i: int|
                                        0 <= i < cs.skip(j + 1).len() implies (#[trigger] cs.skip(
                                        j + 1,
                                    )[i]).tag != 16 by {
                                        assert(cs.skip(j + 1)[i] == cs[i + j + 1]);
                                    }
                                    lemma_fold_id_unchanged(cs.skip(j + 1), a2, mf);
                                    assert(mf.id == Some(i0));
                                },
                                Err(_) => {
                                    assert(false);
                                },
                            }
                        },
                        Err(_) => {
                            assert(false);
                        },
                    }
                },
                Err(_) => {
                    assert(false);
                },
            }
        },
        Err(_) => {
            assert(false);
        },
    }
}

/// An identifier chunk with an empty payload gives a record with no
/// identifier, whatever surrounds it: absence is not an error.
pub proof fn lemma_empty_id_chunk_record(cs: Seq<ChunkModel>, j: int, t: TryoutModel)
    requires
        0 <= j < cs.len(),
        cs[j].tag == 16,
        cs[j].payload.len() == 0,
        forall|i: int| 0 <= i < cs.len() && i != j ==> (#[trigger] cs[i]).tag != 16,
        spec_tryout_from_chunks(cs) == Ok::<TryoutModel, Error>(t),
    ensures
        t.id is None,
{
    lemma_single_id_chunk(cs, j, t);
    assert(cs[j].payload =~= Seq::<u8>::empty());
    crate::ident::lemma_empty_id_payload();
}

/// An identifier chunk whose payload is well-formed base-62 text gives a
/// record carrying exactly that value, whatever surrounds it.
pub proof fn lemma_id_chunk_value_record(cs: Seq<ChunkModel>, j: int, t: TryoutModel, s: Seq<char>)
    requires
        0 <= j < cs.len(),
        cs[j].tag == 16,
        cs[j].payload == encode_utf8(s),
        s.len() > 0,
        base62_all_valid(s),
        base62_value(s) <= u128::MAX,
        forall|i: int| 0 <= i < cs.len() && i != j ==> (#[trigger] cs[i]).tag != 16,
        spec_tryout_from_chunks(cs) == Ok::<TryoutModel, Error>(t),
    ensures
        t.id == Some(base62_value(s) as u128),
{
    lemma_single_id_chunk(cs, j, t);
    crate::ident::lemma_id_payload_value(s);
}

/// The first identifier chunk with a malformed non-empty payload aborts the
/// whole decode with `InvalidIdFormat`, when nothing earlier failed.
pub proof fn lemma_malformed_id_chunk_error(cs: Seq<ChunkModel>, j: int)
    requires
        0 <= j < cs.len(),
        cs[j].tag == 16,
        forall|i: int| 0 <= i < j ==> (#[trigger] cs[i]).tag != 16,
        spec_chunks_fold(cs.take(j), init_chunks_acc()) is Ok,
        spec_id_decode(cs[j].payload) == Err::<Option<u128>, Error>(Error::InvalidIdFormat),
    ensures
        spec_tryout_from_chunks(cs) == Err::<TryoutModel, Error>(Error::InvalidIdFormat),
{
    lemma_chunks_fold_append(cs.take(j), cs.skip(j), init_chunks_acc());
    assert(cs.take(j) + cs.skip(j) =~= cs);
    match spec_chunks_fold(cs.take(j), init_chunks_acc()) {
        Ok(m1) => {
            assert forall|i: int| 0 <= i < cs.take(j).len() implies (#[trigger] cs.take(j)[i]).tag
                != 16 by {
                assert(cs.take(j)[i] == cs[i]);
            }
            lemma_fold_id_unchanged(cs.take(j), init_chunks_acc(), m1);
            assert(m1.id is None);
            assert(cs.skip(j)[0] == cs[j]);
            assert(spec_chunks_step(cs[j], m1) == Err::<ChunksAcc, Error>(Error::InvalidIdFormat));
        },
        Err(_) => {},
    }
}

/// True-or-false cardinality end to end on the chunk-decode path: a tag-1
/// question chunk whose inner chunks yield fewer than two choices fails with
/// `NotEnoughChoices`.
pub proof fn lemma_tf_chunk_needs_two(c: ChunkModel, inner: Seq<ChunkModel>, acc: QAcc)
    requires
        c.tag == 1,
        spec_decode(c.payload) == Ok::<Seq<ChunkModel>, Error>(inner),
        spec_question_fold(1, inner, init_qacc()) == Ok::<QAcc, Error>(acc),
        acc.choices.len() < 2,
    ensures
        spec_question_from_chunk(c) == Err::<QuestionModel, Error>(Error::NotEnoughChoices),
{
}

/// True-or-false cardinality end to end on the chunk-decode path: a tag-1
/// question chunk whose inner chunks yield three or more choices fails with
/// `TooManyChoices`.
pub proof fn lemma_tf_chunk_rejects_extra(c: ChunkModel, inner: Seq<ChunkModel>, acc: QAcc)
    requires
        c.tag == 1,
        spec_decode(c.payload) == Ok::<Seq<ChunkModel>, Error>(inner),
        spec_question_fold(1, inner, init_qacc()) == Ok::<QAcc, Error>(acc),
        acc.choices.len() > 2,
    ensures
        spec_question_from_chunk(c) == Err::<QuestionModel, Error>(Error::TooManyChoices),
{
}

/// True-or-false cardinality on the chunk-decode path: exactly two collected
/// choices are required — more fail with `TooManyChoices`, fewer with
/// `NotEnoughChoices`.
pub proof fn lemma_true_or_false_cardinality(acc: QAcc)
    ensures
        acc.choices.len() > 2 ==> spec_question_finalize(1, acc) == Err::<QuestionModel, Error>(
            Error::TooManyChoices,
        ),
        acc.choices.len() < 2 ==> spec_question_finalize(1, acc) == Err::<QuestionModel, Error>(
            Error::NotEnoughChoices,
        ),
        acc.choices.len() == 2 ==> (spec_question_finalize(1, acc) matches Ok(q) && q.kind
            == QuestionKindModel::TrueOrFalse(acc.choices[0], acc.choices[1])),
{
}

/// Used by `to_chunks`: emitting one more question chunk commutes with
/// collecting the chunks already emitted.
proof fn lemma_compose_question_chunks(prev: Seq<ChunkModel>, c: ChunkModel, qs: Seq<QuestionModel>)
    ensures
        (match spec_questions_to_chunks(qs) {
            Ok(rest) => Ok::<Seq<ChunkModel>, Error>(prev.push(c) + rest),
            Err(e) => Err::<Seq<ChunkModel>, Error>(e),
        }) == (match (match spec_questions_to_chunks(qs) {
            Ok(rest) => Ok::<Seq<ChunkModel>, Error>(seq![c] + rest),
            Err(e) => Err::<Seq<ChunkModel>, Error>(e),
        }) {
            Ok(rest) => Ok::<Seq<ChunkModel>, Error>(prev + rest),
            Err(e) => Err::<Seq<ChunkModel>, Error>(e),
        }),
{
    match spec_questions_to_chunks(qs) {
        Ok(rest) => {
            assert(prev.push(c) + rest =~= prev + (seq![c] + rest));
        },
        Err(_) => {},
    }
}

} // verus!
