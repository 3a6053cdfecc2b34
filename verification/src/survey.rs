//! The survey model: an ordered registry of questions and a table of
//! respondent answers, with search, distribution and subset queries.

use vstd::prelude::*;

use crate::analysis::{
    bump_count, clamp_usize, entries_sum, entry_views, lemma_clamp_inc, lemma_sum_ge_vcount,
    lemma_vcount_at, lemma_vcount_pos, unique_keys, vcount, AnswerDistribution, Subset,
};
use crate::error::SurveyError;
use crate::text::{
    contains_chars, contains_seq, is_valid_answer, is_valid_answer_str, lemma_lex_total,
    lemma_lex_trans, lex_le, lex_le_chars, load_pieces, lower_of, lowercase, multi_pieces,
    split_load, split_multi, str_eq, str_views, to_char_vec, trim_spec, trim_str,
};

verus! {

/// How a question's answers are interpreted. Only `MultipleChoice`
/// answers carry several `;`/`,`-delimited values; the other kinds hold
/// exactly one value per respondent.
#[derive(Debug, Clone, Copy, PartialEq, Eq, Structural)]
pub enum QuestionType {
    SingleChoice,
    MultipleChoice,
    Text,
    Numeric,
}

/// One question of the survey: a dense ordinal id, its display text, its
/// kind, and the option values observed while loading.
#[derive(Debug)]
pub struct Question {
    pub id: usize,
    pub text: String,
    pub question_type: QuestionType,
    pub options: Vec<String>,
}

/// The mathematical value of a `Question`.
#[verifier::ext_equal]
pub ghost struct QuestionV {
    pub id: usize,
    pub text: Seq<char>,
    pub question_type: QuestionType,
    pub options: Seq<Seq<char>>,
}

impl View for Question {
    type V = QuestionV;

    open spec fn view(&self) -> QuestionV {
        QuestionV {
            id: self.id,
            text: self.text@,
            question_type: self.question_type,
            options: str_views(self.options@),
        }
    }
}

impl Clone for Question {
    fn clone(&self) -> (r: Self)
        ensures
            r@ == self@,
    {
        let r = Question {
            id: self.id,
            text: self.text.clone(),
            question_type: self.question_type,
            options: clone_strings(&self.options),
        };
        r
    }
}

fn clone_strings(v: &Vec<String>) -> (r: Vec<String>)
    ensures
        r@ == v@,
{
    let n = v.len();
    let mut r: Vec<String> = Vec::new();
    let mut i: usize = 0;
    while i < n
        invariant
            n == v@.len(),
            i <= n,
            r@.len() == i,
            forall|k: int| 0 <= k < i ==> r@[k] == v@[k],
        decreases n - i,
    {
        r.push(v[i].clone());
        i = i + 1;
    }
    assert(r@ =~= v@);
    r
}

/// One respondent's raw answer to one question.
#[derive(Debug)]
pub struct Answer {
    pub respondent_id: usize,
    pub question_id: usize,
    pub value: String,
}

/// The mathematical value of an `Answer`.
#[verifier::ext_equal]
pub ghost struct AnswerV {
    pub respondent_id: usize,
    pub question_id: usize,
    pub value: Seq<char>,
}

impl View for Answer {
    type V = AnswerV;

    open spec fn view(&self) -> AnswerV {
        AnswerV {
            respondent_id: self.respondent_id,
            question_id: self.question_id,
            value: self.value@,
        }
    }
}

impl Clone for Answer {
    fn clone(&self) -> (r: Self)
        ensures
            r@ == self@,
    {
        Answer {
            respondent_id: self.respondent_id,
            question_id: self.question_id,
            value: self.value.clone(),
        }
    }
}

/// The views of a sequence of questions.
pub open spec fn q_views(qs: Seq<Question>) -> Seq<QuestionV> {
    qs.map_values(|q: Question| q@)
}

/// The views of a sequence of answers.
pub open spec fn a_views(others: Seq<Answer>) -> Seq<AnswerV> {
    others.map_values(|a: Answer| a@)
}

/// A loaded dataset: questions in column order, answers in row-major
/// order, and the number of respondent rows. Respondent ids are the dense
/// integers `0 .. respondent_count`; both structures are immutable once
/// built, so every query is a pure read.
#[derive(Debug)]
pub struct Survey {
    questions: Vec<Question>,
    answers: Vec<Answer>,
    respondent_count: usize,
}

/// The mathematical value of a `Survey`.
#[verifier::ext_equal]
pub ghost struct SurveyV {
    pub questions: Seq<QuestionV>,
    pub answers: Seq<AnswerV>,
    pub respondent_count: usize,
}

impl View for Survey {
    type V = SurveyV;

    closed spec fn view(&self) -> SurveyV {
        SurveyV {
            questions: q_views(self.questions@),
            answers: a_views(self.answers@),
            respondent_count: self.respondent_count,
        }
    }
}

/// The kind a question label suggests, judged on its lowercase folding:
/// phrases inviting several selections first, then numeric-flavored
/// words, then free-text markers, and a single choice otherwise.
pub open spec fn infer_kind(l: Seq<char>) -> QuestionType {
    if contains_seq(l, "select all"@) || contains_seq(l, "multiple"@) {
        QuestionType::MultipleChoice
    } else if contains_seq(l, "age"@) || contains_seq(l, "years"@) || contains_seq(l, "salary"@) {
        QuestionType::Numeric
    } else if contains_seq(l, "describe"@) || contains_seq(l, "other"@) || contains_seq(
        l,
        "comment"@,
    ) {
        QuestionType::Text
    } else {
        QuestionType::SingleChoice
    }
}

/// Whether an answer value selects `option`. Multiple-choice answers
/// match by substring containment (so "Java" also matches "JavaScript" —
/// a documented simplification, not a tokenized membership test); every
/// other kind matches by exact equality of the stored value.
pub open spec fn subset_matches(kind: QuestionType, value: Seq<char>, option: Seq<char>) -> bool {
    match kind {
        QuestionType::MultipleChoice => contains_seq(value, option),
        _ => value == option,
    }
}

/// The respondent ids of the answers to question `qid` that select
/// `option`, in answer order.
pub open spec fn subset_ids(
    answers: Seq<AnswerV>,
    qid: usize,
    kind: QuestionType,
    option: Seq<char>,
) -> Seq<usize>
    decreases answers.len(),
{
    if answers.len() == 0 {
        Seq::<usize>::empty()
    } else {
        let rest = subset_ids(answers.drop_last(), qid, kind, option);
        let a = answers.last();
        if a.question_id == qid && subset_matches(kind, a.value, option) {
            rest.push(a.respondent_id)
        } else {
            rest
        }
    }
}

/// An answer is counted by a distribution when it belongs to the
/// question and actually carries information: neither blank after
/// trimming nor the `"NA"` sentinel. (A missing answer is simply absent
/// from the table.)
pub open spec fn is_counted(a: AnswerV, qid: usize) -> bool {
    a.question_id == qid && is_valid_answer(a.value)
}

/// The option values one counted answer contributes: a multiple-choice
/// answer contributes each of its delimited values, every other kind
/// contributes the whole trimmed value once.
pub open spec fn answer_pieces(kind: QuestionType, v: Seq<char>) -> Seq<Seq<char>> {
    match kind {
        QuestionType::MultipleChoice => multi_pieces(v),
        _ => seq![trim_spec(v)],
    }
}

/// How often `opt` occurs among the pieces `ps`.
pub open spec fn count_occ(ps: Seq<Seq<char>>, opt: Seq<char>) -> nat
    decreases ps.len(),
{
    if ps.len() == 0 {
        0
    } else {
        count_occ(ps.drop_last(), opt) + (if ps.last() == opt {
            1nat
        } else {
            0
        })
    }
}

/// How many responses to question `qid` record the option value `opt`.
pub open spec fn option_count(
    answers: Seq<AnswerV>,
    qid: usize,
    kind: QuestionType,
    opt: Seq<char>,
) -> nat
    decreases answers.len(),
{
    if answers.len() == 0 {
        0
    } else {
        option_count(answers.drop_last(), qid, kind, opt) + (if is_counted(answers.last(), qid) {
            count_occ(answer_pieces(kind, answers.last().value), opt)
        } else {
            0
        })
    }
}

/// How many answers to question `qid` are counted: the percentage
/// denominator.
pub open spec fn response_total(answers: Seq<AnswerV>, qid: usize) -> nat
    decreases answers.len(),
{
    if answers.len() == 0 {
        0
    } else {
        response_total(answers.drop_last(), qid) + (if is_counted(answers.last(), qid) {
            1nat
        } else {
            0
        })
    }
}

/// Every answer that a multiple-choice distribution counts contributes
/// at least one option value. Fails only for degenerate values made of
/// delimiters alone, which are non-blank yet split into nothing.
pub open spec fn all_counted_contribute(answers: Seq<AnswerV>, qid: usize, kind: QuestionType) -> bool {
    forall|j: int|
        0 <= j < answers.len() && is_counted(#[trigger] answers[j], qid) ==> answer_pieces(
            kind,
            answers[j].value,
        ).len() > 0
}

/// Search is case-insensitive and substring-based: a question matches
/// when the lowercase folding of its text contains the lowercase folding
/// of the term. An empty term matches every question.
pub open spec fn question_matches(q: QuestionV, term: Seq<char>) -> bool {
    contains_seq(lower_of(q.text), lower_of(term))
}

/// The questions matching `term`, in registry order.
pub open spec fn matching_questions(qs: Seq<QuestionV>, term: Seq<char>) -> Seq<QuestionV>
    decreases qs.len(),
{
    if qs.len() == 0 {
        Seq::<QuestionV>::empty()
    } else {
        let rest = matching_questions(qs.drop_last(), term);
        if question_matches(qs.last(), term) {
            rest.push(qs.last())
        } else {
            rest
        }
    }
}

/// The `(question id, option)` pairs of one question whose first
/// `upto` options match `term`, case-insensitively by substring.
pub open spec fn option_hits(id: usize, opts: Seq<Seq<char>>, term: Seq<char>) -> Seq<
    (usize, Seq<char>),
>
    decreases opts.len(),
{
    if opts.len() == 0 {
        Seq::<(usize, Seq<char>)>::empty()
    } else {
        let rest = option_hits(id, opts.drop_last(), term);
        if contains_seq(lower_of(opts.last()), lower_of(term)) {
            rest.push((id, opts.last()))
        } else {
            rest
        }
    }
}

/// All `(question id, option)` pairs whose option matches `term`, in
/// registry order and, within one question, in stored option order.
pub open spec fn matching_options(qs: Seq<QuestionV>, term: Seq<char>) -> Seq<(usize, Seq<char>)>
    decreases qs.len(),
{
    if qs.len() == 0 {
        Seq::<(usize, Seq<char>)>::empty()
    } else {
        matching_options(qs.drop_last(), term) + option_hits(
            qs.last().id,
            qs.last().options,
            term,
        )
    }
}

proof fn lemma_count_occ_single(t: Seq<char>, opt: Seq<char>)
    ensures
        count_occ(seq![t], opt) == (if t == opt {
            1nat
        } else {
            0
        }),
{
    let s = seq![t];
    assert(s.drop_last() =~~= Seq::<Seq<char>>::empty());
    assert(count_occ(Seq::<Seq<char>>::empty(), opt) == 0);
    assert(count_occ(s, opt) == count_occ(s.drop_last(), opt) + (if s.last() == opt {
        1nat
    } else {
        0
    }));
}

proof fn lemma_response_total_le(answers: Seq<AnswerV>, qid: usize)
    ensures
        response_total(answers, qid) <= answers.len(),
    decreases answers.len(),
{
    if answers.len() > 0 {
        lemma_response_total_le(answers.drop_last(), qid);
    }
}

/// The character contents of a table of cells.
pub open spec fn row_views(rows: Seq<Vec<String>>) -> Seq<Seq<Seq<char>>> {
    rows.map_values(|r: Vec<String>| str_views(r@))
}

/// The kind named by a schema code: `"SC"`, `"MC"` or `"TE"`; anything
/// else falls back to free text.
pub open spec fn kind_code(s: Seq<char>) -> QuestionType {
    if s == "SC"@ {
        QuestionType::SingleChoice
    } else if s == "MC"@ {
        QuestionType::MultipleChoice
    } else {
        QuestionType::Text
    }
}

/// Only single- and multiple-choice questions accumulate observed
/// option values while loading.
pub open spec fn splits_kind(k: QuestionType) -> bool {
    k == QuestionType::SingleChoice || k == QuestionType::MultipleChoice
}

/// The questions a header row yields before any schema override: one
/// per column, with the inferred kind and no options yet.
pub open spec fn base_questions(header: Seq<Seq<char>>) -> Seq<QuestionV> {
    Seq::new(
        header.len(),
        |j: int|
            QuestionV {
                id: j as usize,
                text: header[j],
                question_type: infer_kind(lower_of(header[j])),
                options: Seq::<Seq<char>>::empty(),
            },
    )
}

/// One schema row `(column, text, kind code)` overrides the text and
/// kind of every question whose header cell equals `column`; shorter
/// rows are ignored.
pub open spec fn apply_row(qs: Seq<QuestionV>, header: Seq<Seq<char>>, row: Seq<Seq<char>>) -> Seq<
    QuestionV,
> {
    if row.len() >= 3 {
        Seq::new(
            qs.len(),
            |j: int|
                if j < header.len() && header[j] == row[0] {
                    QuestionV {
                        text: row[1],
                        question_type: kind_code(row[2]),
                        ..qs[j]
                    }
                } else {
                    qs[j]
                },
        )
    } else {
        qs
    }
}

/// All schema rows applied in order; a later row overrides an earlier
/// one for the same column.
pub open spec fn apply_schema(
    qs: Seq<QuestionV>,
    header: Seq<Seq<char>>,
    schema: Seq<Seq<Seq<char>>>,
) -> Seq<QuestionV>
    decreases schema.len(),
{
    if schema.len() == 0 {
        qs
    } else {
        apply_row(apply_schema(qs, header, schema.drop_last()), header, schema.last())
    }
}

/// A cell keeps a value when its trimmed content is non-empty and not
/// the `"NA"` sentinel; what is stored is the trimmed content.
pub open spec fn keeps_value(cell: Seq<char>) -> bool {
    trim_spec(cell).len() > 0 && trim_spec(cell) != "NA"@
}

/// The option values one cell contributes to its question's observed
/// options: its load pieces when the question's kind accumulates
/// options and the cell keeps a value, nothing otherwise.
pub open spec fn cell_pieces(cell: Seq<char>, splits: bool) -> Seq<Seq<char>> {
    if keeps_value(cell) && splits {
        load_pieces(trim_spec(cell))
    } else {
        Seq::<Seq<char>>::empty()
    }
}

/// The option values column `c` contributes over the data rows before
/// row `upto`, in row order.
pub open spec fn col_pieces(rows: Seq<Seq<Seq<char>>>, c: int, upto: int, splits: bool) -> Seq<
    Seq<char>,
>
    decreases upto,
{
    if upto <= 1 {
        Seq::<Seq<char>>::empty()
    } else {
        col_pieces(rows, c, upto - 1, splits) + (if c < rows[upto - 1].len() {
            cell_pieces(rows[upto - 1][c], splits)
        } else {
            Seq::<Seq<char>>::empty()
        })
    }
}

/// The values kept once each, in order of first appearance.
pub open spec fn dedup(ps: Seq<Seq<char>>) -> Seq<Seq<char>>
    decreases ps.len(),
{
    if ps.len() == 0 {
        Seq::<Seq<char>>::empty()
    } else {
        let rest = dedup(ps.drop_last());
        if rest.contains(ps.last()) {
            rest
        } else {
            rest.push(ps.last())
        }
    }
}

/// The answers one data row yields: one per cell that keeps a value,
/// with the cell's column as question id and the trimmed content as
/// value.
pub open spec fn row_answers(row: Seq<Seq<char>>, rid: usize) -> Seq<AnswerV>
    decreases row.len(),
{
    if row.len() == 0 {
        Seq::<AnswerV>::empty()
    } else {
        row_answers(row.drop_last(), rid) + (if keeps_value(row.last()) {
            seq![
                AnswerV {
                    respondent_id: rid,
                    question_id: (row.len() - 1) as usize,
                    value: trim_spec(row.last()),
                },
            ]
        } else {
            Seq::<AnswerV>::empty()
        })
    }
}

/// The answers of the data rows before row `upto`, in row-major order;
/// respondent ids are the dense 0-based data row ordinals.
pub open spec fn answers_from(rows: Seq<Seq<Seq<char>>>, upto: int) -> Seq<AnswerV>
    decreases upto,
{
    if upto <= 1 {
        Seq::<AnswerV>::empty()
    } else {
        answers_from(rows, upto - 1) + row_answers(rows[upto - 1], (upto - 2) as usize)
    }
}

/// The questions a raw table and a schema yield: header questions with
/// schema overrides applied, each carrying the deduplicated option
/// values its column's answers were observed to hold.
pub open spec fn loaded_questions(rows: Seq<Seq<Seq<char>>>, schema: Seq<Seq<Seq<char>>>) -> Seq<
    QuestionV,
> {
    let header = rows[0];
    let overridden = apply_schema(base_questions(header), header, schema);
    Seq::new(
        overridden.len(),
        |j: int|
            QuestionV {
                options: dedup(
                    col_pieces(
                        rows,
                        j,
                        rows.len() as int,
                        splits_kind(overridden[j].question_type),
                    ),
                ),
                ..overridden[j]
            },
    )
}

/// The schema rows that take part in overriding: everything after the
/// schema sheet's own header row.
pub open spec fn schema_data(schema: Seq<Seq<Seq<char>>>) -> Seq<Seq<Seq<char>>> {
    if schema.len() >= 1 {
        schema.skip(1)
    } else {
        schema
    }
}

proof fn lemma_apply_schema_len(qs: Seq<QuestionV>, header: Seq<Seq<char>>, schema: Seq<Seq<Seq<char>>>)
    ensures
        apply_schema(qs, header, schema).len() == qs.len(),
    decreases schema.len(),
{
    if schema.len() > 0 {
        lemma_apply_schema_len(qs, header, schema.drop_last());
    }
}

proof fn lemma_col_pieces_nosplit(rows: Seq<Seq<Seq<char>>>, c: int, upto: int)
    ensures
        col_pieces(rows, c, upto, false) == Seq::<Seq<char>>::empty(),
    decreases upto,
{
    if upto > 1 {
        lemma_col_pieces_nosplit(rows, c, upto - 1);
        assert(col_pieces(rows, c, upto, false) =~~= Seq::<Seq<char>>::empty());
    }
}

proof fn lemma_row_answers_props(row: Seq<Seq<char>>, rid: usize)
    requires
        row.len() <= usize::MAX,
    ensures
        forall|k: int|
            0 <= k < row_answers(row, rid).len() ==> (#[trigger] row_answers(row, rid)[k]).respondent_id
                == rid,
        forall|k: int|
            0 <= k < row_answers(row, rid).len() ==> (#[trigger] row_answers(row, rid)[k]).question_id
                < row.len(),
        forall|k1: int, k2: int|
            0 <= k1 < k2 < row_answers(row, rid).len() ==> row_answers(row, rid)[k1].question_id
                < row_answers(row, rid)[k2].question_id,
    decreases row.len(),
{
    if row.len() > 0 {
        lemma_row_answers_props(row.drop_last(), rid);
        let prev = row_answers(row.drop_last(), rid);
        let cur = row_answers(row, rid);
        assert forall|k: int|
            0 <= k < cur.len() implies (#[trigger] cur[k]).respondent_id == rid && cur[k].question_id
            < row.len() by {
            if k < prev.len() {
                assert(cur[k] == prev[k]);
            } else {
                assert(cur[k].question_id == row.len() - 1);
            }
        }
        assert forall|k1: int, k2: int| 0 <= k1 < k2 < cur.len() implies cur[k1].question_id
            < cur[k2].question_id by {
            assert(cur[k1] == prev[k1]);
            if k2 < prev.len() {
                assert(cur[k2] == prev[k2]);
            } else {
                assert(cur[k2].question_id == row.len() - 1);
                assert(cur[k1].question_id < row.drop_last().len());
            }
        }
    }
}

proof fn lemma_answers_from_props(rows: Seq<Seq<Seq<char>>>, upto: int)
    requires
        1 <= upto <= rows.len(),
        rows.len() <= usize::MAX,
        forall|j: int| 0 <= j < rows.len() ==> (#[trigger] rows[j]).len() <= usize::MAX,
    ensures
        forall|k: int|
            0 <= k < answers_from(rows, upto).len() ==> (#[trigger] answers_from(rows, upto)[k]).respondent_id
                + 2 <= upto,
        forall|k1: int, k2: int|
            0 <= k1 < k2 < answers_from(rows, upto).len() ==> (answers_from(rows, upto)[k1].question_id
                == answers_from(rows, upto)[k2].question_id ==> answers_from(
                rows,
                upto,
            )[k1].respondent_id < answers_from(rows, upto)[k2].respondent_id),
    decreases upto,
{
    if upto > 1 {
        lemma_answers_from_props(rows, upto - 1);
        lemma_row_answers_props(rows[upto - 1], (upto - 2) as usize);
        let prev = answers_from(rows, upto - 1);
        let ra = row_answers(rows[upto - 1], (upto - 2) as usize);
        let cur = answers_from(rows, upto);
        assert forall|k: int| 0 <= k < cur.len() implies (#[trigger] cur[k]).respondent_id + 2
            <= upto by {
            if k < prev.len() {
                assert(cur[k] == prev[k]);
            } else {
                assert(cur[k] == ra[k - prev.len()]);
            }
        }
        assert forall|k1: int, k2: int| 0 <= k1 < k2 < cur.len() implies (cur[k1].question_id
            == cur[k2].question_id ==> cur[k1].respondent_id < cur[k2].respondent_id) by {
            if k2 < prev.len() {
                assert(cur[k1] == prev[k1]);
                assert(cur[k2] == prev[k2]);
            } else if k1 < prev.len() {
                assert(cur[k1] == prev[k1]);
                assert(cur[k2] == ra[k2 - prev.len()]);
            } else {
                assert(cur[k1] == ra[k1 - prev.len()]);
                assert(cur[k2] == ra[k2 - prev.len()]);
            }
        }
    }
}

proof fn lemma_subset_ids_increasing(
    answers: Seq<AnswerV>,
    qid: usize,
    kind: QuestionType,
    option: Seq<char>,
)
    requires
        forall|k1: int, k2: int|
            0 <= k1 < k2 < answers.len() ==> (answers[k1].question_id == answers[k2].question_id
                ==> answers[k1].respondent_id < answers[k2].respondent_id),
    ensures
        forall|u: int, v: int|
            0 <= u < v < subset_ids(answers, qid, kind, option).len() ==> subset_ids(
                answers,
                qid,
                kind,
                option,
            )[u] < subset_ids(answers, qid, kind, option)[v],
        forall|u: int|
            #![trigger subset_ids(answers, qid, kind, option)[u]]
            0 <= u < subset_ids(answers, qid, kind, option).len() ==> exists|i: int|
                #![auto]
                0 <= i < answers.len() && answers[i].question_id == qid
                    && answers[i].respondent_id == subset_ids(answers, qid, kind, option)[u],
    decreases answers.len(),
{
    if answers.len() > 0 {
        lemma_subset_ids_increasing(answers.drop_last(), qid, kind, option);
        let prev = subset_ids(answers.drop_last(), qid, kind, option);
        let res = subset_ids(answers, qid, kind, option);
        let a = answers.last();
        assert forall|u: int| #![trigger res[u]] 0 <= u < res.len() implies exists|i: int|
            #![auto]
            0 <= i < answers.len() && answers[i].question_id == qid && answers[i].respondent_id
                == res[u] by {
            if u < prev.len() {
                let i = choose|i: int|
                    #![auto]
                    0 <= i < answers.drop_last().len() && answers.drop_last()[i].question_id == qid
                        && answers.drop_last()[i].respondent_id == prev[u];
                assert(answers[i].question_id == qid && answers[i].respondent_id == res[u]);
            } else {
                assert(answers[answers.len() - 1].question_id == qid && answers[answers.len()
                    - 1].respondent_id == res[u]);
            }
        }
        assert forall|u: int, v: int| 0 <= u < v < res.len() implies res[u] < res[v] by {
            if v == prev.len() {
                // every earlier id belongs to an earlier answer to the
                // same question, so it is strictly smaller
                let i = choose|i: int|
                    #![auto]
                    0 <= i < answers.drop_last().len() && answers.drop_last()[i].question_id == qid
                        && answers.drop_last()[i].respondent_id == prev[u];
                assert(answers[i].question_id == a.question_id);
            }
        }
    }
}

/// Every subset drawn from a dataset that `from_rows` or
/// `from_schema_rows` assembled is a set in the strict sense: its
/// respondent ids are strictly increasing — so pairwise distinct — and
/// every one lies below the dataset's respondent count.
pub proof fn lemma_loaded_subset_is_set(
    rows: Seq<Seq<Seq<char>>>,
    qid: usize,
    kind: QuestionType,
    option: Seq<char>,
)
    requires
        1 <= rows.len() <= usize::MAX,
        forall|j: int| 0 <= j < rows.len() ==> (#[trigger] rows[j]).len() <= usize::MAX,
    ensures
        ({
            let ids = subset_ids(answers_from(rows, rows.len() as int), qid, kind, option);
            &&& forall|u: int, v: int| 0 <= u < v < ids.len() ==> ids[u] < ids[v]
            &&& ids.no_duplicates()
            &&& forall|u: int| 0 <= u < ids.len() ==> (#[trigger] ids[u]) + 1 < rows.len()
        }),
{
    let answers = answers_from(rows, rows.len() as int);
    lemma_answers_from_props(rows, rows.len() as int);
    lemma_subset_ids_increasing(answers, qid, kind, option);
    let ids = subset_ids(answers, qid, kind, option);
    assert forall|u: int| 0 <= u < ids.len() implies (#[trigger] ids[u]) + 1 < rows.len() by {
        let i = choose|i: int|
            #![auto]
            0 <= i < answers.len() && answers[i].question_id == qid && answers[i].respondent_id
                == ids[u];
        assert(answers[i].respondent_id + 2 <= rows.len());
    }
}

fn contains_string(v: &Vec<String>, s: &String) -> (r: bool)
    ensures
        r == str_views(v@).contains(s@),
{
    let n = v.len();
    let mut i: usize = 0;
    while i < n
        invariant
            n == v@.len(),
            i <= n,
            forall|k: int| 0 <= k < i ==> str_views(v@)[k] != s@,
        decreases n - i,
    {
        if str_eq(v[i].as_str(), s.as_str()) {
            assert(str_views(v@)[i as int] == s@);
            return true;
        }
        i = i + 1;
    }
    false
}

impl QuestionType {
    /// The kind named by a schema code, `"TE"` and anything unknown
    /// falling back to free text.
    pub fn from_code(code: &str) -> (k: QuestionType)
        ensures
            k == kind_code(code@),
    {
        if str_eq(code, "SC") {
            QuestionType::SingleChoice
        } else if str_eq(code, "MC") {
            QuestionType::MultipleChoice
        } else {
            QuestionType::Text
        }
    }
}

impl<'a> From<&'a str> for QuestionType {
    /// The kind a schema code names, as `from_code` decides it.
    fn from(code: &str) -> (r: Self)
        ensures
            r == kind_code(code@),
    {
        QuestionType::from_code(code)
    }
}

impl<'a> vstd::std_specs::convert::FromSpecImpl<&'a str> for QuestionType {
    open spec fn obeys_from_spec() -> bool {
        true
    }

    open spec fn from_spec(code: &'a str) -> Self {
        kind_code(code@)
    }
}

impl Survey {
    /// Build a survey directly from its parts. The caller supplies what an
    /// external loader produced; `from_rows` assembles the same structures
    /// from a raw cell table.
    pub fn new(questions: Vec<Question>, answers: Vec<Answer>, respondent_count: usize) -> (s:
        Survey)
        ensures
            s@.questions == q_views(questions@),
            s@.answers == a_views(answers@),
            s@.respondent_count == respondent_count,
    {
        Survey { questions, answers, respondent_count }
    }

    /// A best-effort guess of a question's kind from its header text,
    /// used when the source supplies no explicit kind; an explicit kind
    /// from a schema always takes precedence over this heuristic.
    pub fn infer_question_type(header: &str) -> (k: QuestionType)
        ensures
            k == infer_kind(lower_of(header@)),
    {
        let low = lowercase(header);
        let lv = to_char_vec(low.as_str());
        if contains_chars(&lv, &to_char_vec("select all")) || contains_chars(
            &lv,
            &to_char_vec("multiple"),
        ) {
            QuestionType::MultipleChoice
        } else if contains_chars(&lv, &to_char_vec("age")) || contains_chars(
            &lv,
            &to_char_vec("years"),
        ) || contains_chars(&lv, &to_char_vec("salary")) {
            QuestionType::Numeric
        } else if contains_chars(&lv, &to_char_vec("describe")) || contains_chars(
            &lv,
            &to_char_vec("other"),
        ) || contains_chars(&lv, &to_char_vec("comment")) {
            QuestionType::Text
        } else {
            QuestionType::SingleChoice
        }
    }

    /// All questions, in column order.
    pub fn questions(&self) -> (r: &[Question])
        ensures
            q_views(r@) == self@.questions,
    {
        self.questions.as_slice()
    }

    /// All answers, in row-major ingestion order.
    pub fn answers(&self) -> (r: &[Answer])
        ensures
            a_views(r@) == self@.answers,
    {
        self.answers.as_slice()
    }

    /// The number of respondent rows in the dataset.
    pub fn respondent_count(&self) -> (r: usize)
        ensures
            r == self@.respondent_count,
    {
        self.respondent_count
    }

    /// The questions whose text contains `term`, case-insensitively, in
    /// registry order. An empty term matches every question; the term is
    /// taken literally, never as a pattern.
    pub fn search_questions(&self, term: &str) -> (r: Vec<Question>)
        ensures
            q_views(r@) == matching_questions(self@.questions, term@),
    {
        let term_low = lowercase(term);
        let tl = to_char_vec(term_low.as_str());
        let n = self.questions.len();
        let mut r: Vec<Question> = Vec::new();
        proof {
            assert(self@.questions.take(0) =~~= Seq::<QuestionV>::empty());
            assert(q_views(r@) =~~= matching_questions(self@.questions.take(0), term@));
        }
        let mut i: usize = 0;
        while i < n
            invariant
                n == self@.questions.len(),
                i <= n,
                tl@ == lower_of(term@),
                q_views(r@) == matching_questions(self@.questions.take(i as int), term@),
            decreases n - i,
        {
            proof {
                let pfx = self@.questions.take(i + 1);
                assert(pfx.drop_last() =~~= self@.questions.take(i as int));
                assert(pfx.last() == self@.questions[i as int]);
            }
            let q_low = lowercase(self.questions[i].text.as_str());
            let ql = to_char_vec(q_low.as_str());
            if contains_chars(&ql, &tl) {
                let q = self.questions[i].clone();
                proof {
                    assert(q_views(r@.push(q)) =~~= q_views(r@).push(q@));
                }
                r.push(q);
            }
            i = i + 1;
        }
        proof {
            assert(self@.questions.take(n as int) =~~= self@.questions);
        }
        r
    }

    /// The `(question id, option)` pairs over every question's observed
    /// options whose option contains `term`, case-insensitively.
    pub fn search_options(&self, term: &str) -> (r: Vec<(usize, String)>)
        ensures
            r@.map_values(|e: (usize, String)| (e.0, e.1@)) == matching_options(
                self@.questions,
                term@,
            ),
    {
        let term_low = lowercase(term);
        let tl = to_char_vec(term_low.as_str());
        let n = self.questions.len();
        let mut r: Vec<(usize, String)> = Vec::new();
        proof {
            assert(self@.questions.take(0) =~~= Seq::<QuestionV>::empty());
            assert(r@.map_values(|e: (usize, String)| (e.0, e.1@)) =~~= matching_options(
                self@.questions.take(0),
                term@,
            ));
        }
        let mut i: usize = 0;
        while i < n
            invariant
                n == self@.questions.len(),
                i <= n,
                tl@ == lower_of(term@),
                r@.map_values(|e: (usize, String)| (e.0, e.1@)) == matching_options(
                    self@.questions.take(i as int),
                    term@,
                ),
            decreases n - i,
        {
            proof {
                let pfx = self@.questions.take(i + 1);
                assert(pfx.drop_last() =~~= self@.questions.take(i as int));
                assert(pfx.last() == self@.questions[i as int]);
            }
            let question = &self.questions[i];
            let qid = question.id;
            let m = question.options.len();
            proof {
                assert(self@.questions[i as int].options.take(0) =~~= Seq::<Seq<char>>::empty());
                assert(r@.map_values(|e: (usize, String)| (e.0, e.1@)) + option_hits(
                    qid,
                    self@.questions[i as int].options.take(0),
                    term@,
                ) =~~= r@.map_values(|e: (usize, String)| (e.0, e.1@)));
            }
            let mut j: usize = 0;
            while j < m
                invariant
                    n == self@.questions.len(),
                    i < n,
                    m == self@.questions[i as int].options.len(),
                    qid == self@.questions[i as int].id,
                    question == &self.questions[i as int],
                    j <= m,
                    tl@ == lower_of(term@),
                    r@.map_values(|e: (usize, String)| (e.0, e.1@)) == matching_options(
                        self@.questions.take(i as int),
                        term@,
                    ) + option_hits(qid, self@.questions[i as int].options.take(j as int), term@),
                decreases m - j,
            {
                proof {
                    let opfx = self@.questions[i as int].options.take(j + 1);
                    assert(opfx.drop_last() =~~= self@.questions[i as int].options.take(j as int));
                    assert(opfx.last() == self@.questions[i as int].options[j as int]);
                }
                let o_low = lowercase(question.options[j].as_str());
                let ol = to_char_vec(o_low.as_str());
                if contains_chars(&ol, &tl) {
                    let e = (qid, question.options[j].clone());
                    proof {
                        assert(r@.push(e).map_values(|x: (usize, String)| (x.0, x.1@)) =~~=
                        r@.map_values(|x: (usize, String)| (x.0, x.1@)).push((e.0, e.1@)));
                    }
                    r.push(e);
                }
                j = j + 1;
            }
            proof {
                assert(self@.questions[i as int].options.take(m as int) =~~= self@.questions[i
                    as int].options);
            }
            i = i + 1;
        }
        proof {
            assert(self@.questions.take(n as int) =~~= self@.questions);
        }
        r
    }

    /// The subset of respondents whose answer to `question_id` selects
    /// `option`: substring containment for multiple-choice questions,
    /// exact equality otherwise. Fails exactly when the question id is
    /// unknown; a zero-match subset is a valid empty result.
    pub fn create_subset(&self, question_id: usize, option: &str) -> (r: Result<
        Subset,
        SurveyError,
    >)
        ensures
            r is Ok <==> question_id < self@.questions.len(),
            r is Err ==> (r->Err_0 matches SurveyError::QuestionNotFound(q) && q == question_id),
            r is Ok ==> ({
                let s = r->Ok_0@;
                &&& s.question_id == question_id
                &&& s.option == option@
                &&& s.total_respondents == self@.respondent_count
                &&& s.respondent_ids == subset_ids(
                    self@.answers,
                    question_id,
                    self@.questions[question_id as int].question_type,
                    option@,
                )
            }),
    {
        if question_id >= self.questions.len() {
            return Err(SurveyError::QuestionNotFound(question_id));
        }
        let kind = self.questions[question_id].question_type;
        let is_mc = match kind {
            QuestionType::MultipleChoice => true,
            _ => false,
        };
        let opt_chars = to_char_vec(option);
        let mut ids: Vec<usize> = Vec::new();
        let n = self.answers.len();
        proof {
            assert(self@.answers.take(0) =~~= Seq::<AnswerV>::empty());
            assert(ids@ =~= subset_ids(self@.answers.take(0), question_id, kind, option@));
        }
        let mut i: usize = 0;
        while i < n
            invariant
                n == self@.answers.len(),
                i <= n,
                kind == self@.questions[question_id as int].question_type,
                ids@ == subset_ids(self@.answers.take(i as int), question_id, kind, option@),
            decreases n - i,
        {
            proof {
                let pfx = self@.answers.take(i + 1);
                assert(pfx.drop_last() =~~= self@.answers.take(i as int));
                assert(pfx.last() == self@.answers[i as int]);
            }
            let a = &self.answers[i];
            if a.question_id == question_id {
                let hit = if is_mc {
                    let vchars = to_char_vec(a.value.as_str());
                    contains_chars(&vchars, &opt_chars)
                } else {
                    str_eq(a.value.as_str(), option)
                };
                if hit {
                    ids.push(a.respondent_id);
                }
            }
            i = i + 1;
        }
        proof {
            assert(self@.answers.take(n as int) =~~= self@.answers);
        }
        Ok(
            Subset {
                question_id,
                option: option.to_owned(),
                respondent_ids: ids,
                total_respondents: self.respondent_count,
            },
        )
    }

    /// The answer frequency table of question `question_id`. Blank and
    /// `"NA"` values are skipped; a multiple-choice answer contributes
    /// one count per delimited value yet raises the response total by
    /// exactly one, so single-choice counts sum to the total while
    /// multiple-choice counts may exceed it. Counts saturate at
    /// `usize::MAX`. Fails exactly when the question id is unknown:
    /// every current kind has frequency semantics, so
    /// `InvalidQuestionType` stays reserved for kinds a future schema
    /// may add.
    pub fn get_distribution(&self, question_id: usize) -> (r: Result<
        AnswerDistribution,
        SurveyError,
    >)
        ensures
            r is Ok <==> question_id < self@.questions.len(),
            r is Err ==> (r->Err_0 matches SurveyError::QuestionNotFound(q) && q == question_id),
            r is Ok ==> ({
                let d = r->Ok_0@;
                let kind = self@.questions[question_id as int].question_type;
                &&& d.question_id == question_id
                &&& d.question_text == self@.questions[question_id as int].text
                &&& d.question_type == kind
                &&& d.total_responses as nat == response_total(self@.answers, question_id)
                &&& unique_keys(d.entries)
                &&& forall|opt: Seq<char>|
                    #![auto]
                    vcount(d.entries, opt) == clamp_usize(
                        option_count(self@.answers, question_id, kind, opt),
                    )
                &&& forall|k: int|
                    0 <= k < d.entries.len() ==> (#[trigger] d.entries[k]).1 as nat == clamp_usize(
                        option_count(self@.answers, question_id, kind, d.entries[k].0),
                    ) && option_count(self@.answers, question_id, kind, d.entries[k].0) > 0
                &&& (kind != QuestionType::MultipleChoice ==> entries_sum(d.entries)
                    == response_total(self@.answers, question_id))
                &&& (kind == QuestionType::MultipleChoice && all_counted_contribute(
                    self@.answers,
                    question_id,
                    kind,
                ) ==> response_total(self@.answers, question_id) <= entries_sum(d.entries))
            }),
    {
        if question_id >= self.questions.len() {
            return Err(SurveyError::QuestionNotFound(question_id));
        }
        let kind = self.questions[question_id].question_type;
        let is_mc = match kind {
            QuestionType::MultipleChoice => true,
            _ => false,
        };
        let ghost av = self@.answers;
        let mut counts: Vec<(String, usize)> = Vec::new();
        let mut total: usize = 0;
        let n = self.answers.len();
        proof {
            assert(av.take(0) =~~= Seq::<AnswerV>::empty());
            assert(entry_views(counts@) =~~= Seq::<(Seq<char>, usize)>::empty());
        }
        let mut i: usize = 0;
        while i < n
            invariant
                n == av.len(),
                av == self@.answers,
                kind == self@.questions[question_id as int].question_type,
                is_mc == (kind == QuestionType::MultipleChoice),
                i <= n,
                unique_keys(entry_views(counts@)),
                forall|k: int| 0 <= k < counts@.len() ==> (#[trigger] counts@[k]).1 >= 1,
                forall|opt: Seq<char>|
                    #![auto]
                    vcount(entry_views(counts@), opt) == clamp_usize(
                        option_count(av.take(i as int), question_id, kind, opt),
                    ),
                total as nat == response_total(av.take(i as int), question_id),
                !is_mc ==> entries_sum(entry_views(counts@)) == total as nat,
                (is_mc && all_counted_contribute(av, question_id, kind)) ==> total as nat
                    <= entries_sum(entry_views(counts@)),
            decreases n - i,
        {
            proof {
                let pfx = av.take(i + 1);
                assert(pfx.drop_last() =~~= av.take(i as int));
                assert(pfx.last() == av[i as int]);
                assert(av[i as int] == self.answers@[i as int]@);
                lemma_response_total_le(av.take(i as int), question_id);
            }
            let a = &self.answers[i];
            if a.question_id == question_id && is_valid_answer_str(a.value.as_str()) {
                assert(is_counted(av[i as int], question_id));
                total = total + 1;
                if is_mc {
                    let pieces = split_multi(a.value.as_str());
                    let ghost ps = multi_pieces(av[i as int].value);
                    let m = pieces.len();
                    proof {
                        assert(ps.take(0) =~~= Seq::<Seq<char>>::empty());
                    }
                    let mut j: usize = 0;
                    while j < m
                        invariant
                            m == ps.len(),
                            str_views(pieces@) == ps,
                            j <= m,
                            unique_keys(entry_views(counts@)),
                            forall|k: int| 0 <= k < counts@.len() ==> (#[trigger] counts@[k]).1 >= 1,
                            forall|opt: Seq<char>|
                                #![auto]
                                vcount(entry_views(counts@), opt) == clamp_usize(
                                    option_count(av.take(i as int), question_id, kind, opt)
                                        + count_occ(ps.take(j as int), opt),
                                ),
                            all_counted_contribute(av, question_id, kind) ==> total as nat
                                <= entries_sum(entry_views(counts@)) + (if j == 0 {
                                1nat
                            } else {
                                0
                            }),
                        decreases m - j,
                    {
                        proof {
                            let pp = ps.take(j + 1);
                            assert(pp.drop_last() =~~= ps.take(j as int));
                            assert(pp.last() == ps[j as int]);
                            assert(ps[j as int] == pieces@[j as int]@);
                        }
                        let key = pieces[j].clone();
                        let ghost es_before = entry_views(counts@);
                        let ghost before_key = vcount(es_before, key@);
                        bump_count(&mut counts, key);
                        proof {
                            assert forall|opt: Seq<char>| #![auto]
                                vcount(entry_views(counts@), opt) == clamp_usize(
                                    option_count(av.take(i as int), question_id, kind, opt)
                                        + count_occ(ps.take(j + 1), opt),
                                ) by {
                                if opt == ps[j as int] {
                                    lemma_clamp_inc(
                                        option_count(av.take(i as int), question_id, kind, opt)
                                            + count_occ(ps.take(j as int), opt),
                                    );
                                }
                            }
                            if before_key >= usize::MAX as nat {
                                lemma_sum_ge_vcount(es_before, ps[j as int]);
                            }
                        }
                        j = j + 1;
                    }
                    proof {
                        assert(ps.take(m as int) =~~= ps);
                        if all_counted_contribute(av, question_id, kind) {
                            assert(is_counted(av[i as int], question_id));
                            assert(answer_pieces(kind, av[i as int].value).len() > 0);
                        }
                    }
                } else {
                    let key = trim_str(a.value.as_str());
                    let ghost es_before = entry_views(counts@);
                    proof {
                        lemma_sum_ge_vcount(es_before, key@);
                    }
                    bump_count(&mut counts, key);
                    proof {
                        let tv = trim_spec(av[i as int].value);
                        assert forall|opt: Seq<char>| #![auto]
                            vcount(entry_views(counts@), opt) == clamp_usize(
                                option_count(av.take(i + 1), question_id, kind, opt),
                            ) by {
                            lemma_count_occ_single(tv, opt);
                            if opt == tv {
                                lemma_clamp_inc(
                                    option_count(av.take(i as int), question_id, kind, opt),
                                );
                            }
                        }
                    }
                }
            } else {
                assert(!is_counted(av[i as int], question_id));
            }
            i = i + 1;
        }
        proof {
            assert(av.take(n as int) =~~= av);
            assert forall|k: int|
                0 <= k < entry_views(counts@).len() implies (#[trigger] entry_views(counts@)[k]).1
                as nat == clamp_usize(
                option_count(av, question_id, kind, entry_views(counts@)[k].0),
            ) && option_count(av, question_id, kind, entry_views(counts@)[k].0) > 0 by {
                lemma_vcount_at(entry_views(counts@), k);
            }
        }
        let q = &self.questions[question_id];
        Ok(
            AnswerDistribution {
                question_id,
                question_text: q.text.clone(),
                question_type: kind,
                distribution: counts,
                total_responses: total,
            },
        )
    }

    /// All distinct option values observed in the answers to question
    /// `question_id`, sorted ascending: the values with a positive
    /// count in its distribution. Fails exactly when the question id is
    /// unknown.
    pub fn get_question_options(&self, question_id: usize) -> (r: Result<Vec<String>, SurveyError>)
        ensures
            r is Ok <==> question_id < self@.questions.len(),
            r is Err ==> (r->Err_0 matches SurveyError::QuestionNotFound(q) && q == question_id),
            r is Ok ==> ({
                let vs = str_views(r->Ok_0@);
                let kind = self@.questions[question_id as int].question_type;
                &&& forall|p: Seq<char>|
                    #![auto]
                    vs.contains(p) <==> option_count(self@.answers, question_id, kind, p) > 0
                &&& vs.no_duplicates()
                &&& forall|i: int, j: int| 0 <= i < j < vs.len() ==> lex_le(vs[i], vs[j])
            }),
    {
        let dist = match self.get_distribution(question_id) {
            Ok(d) => d,
            Err(e) => {
                return Err(e);
            },
        };
        let ghost kind = self@.questions[question_id as int].question_type;
        let ghost keys = entry_views(dist.distribution@);
        let n = dist.distribution.len();
        let mut out: Vec<String> = Vec::new();
        let mut k: usize = 0;
        while k < n
            invariant
                n == keys.len(),
                keys == entry_views(dist.distribution@),
                unique_keys(keys),
                forall|t: int|
                    0 <= t < keys.len() ==> (#[trigger] keys[t]).1 as nat == clamp_usize(
                        option_count(self@.answers, question_id, kind, keys[t].0),
                    ) && option_count(self@.answers, question_id, kind, keys[t].0) > 0,
                k <= n,
                str_views(out@).no_duplicates(),
                forall|i: int, j: int|
                    0 <= i < j < out@.len() ==> lex_le(str_views(out@)[i], str_views(out@)[j]),
                forall|t: int| 0 <= t < k ==> str_views(out@).contains((#[trigger] keys[t]).0),
                forall|i: int|
                    #![trigger str_views(out@)[i]]
                    0 <= i < out@.len() ==> exists|t: int|
                        #![auto]
                        0 <= t < k && keys[t].0 == str_views(out@)[i],
            decreases n - k,
        {
            let key = dist.distribution[k].0.clone();
            assert(key@ == keys[k as int].0);
            // the key is new: entry keys are pairwise distinct and `out`
            // holds only keys already processed
            assert(!str_views(out@).contains(key@)) by {
                if str_views(out@).contains(key@) {
                    let i = choose|i: int|
                        0 <= i < out@.len() && str_views(out@)[i] == key@;
                    let t = choose|t: int| 0 <= t < k && (#[trigger] keys[t]).0 == str_views(
                        out@,
                    )[i];
                    assert(keys[t].0 == keys[k as int].0);
                }
            }
            let kc = to_char_vec(key.as_str());
            let m = out.len();
            let mut pos: usize = 0;
            while pos < m && lex_le_chars(&to_char_vec(out[pos].as_str()), &kc)
                invariant
                    m == out@.len(),
                    kc@ == key@,
                    pos <= m,
                    forall|t: int| 0 <= t < pos ==> lex_le(str_views(out@)[t], key@),
                decreases m - pos,
            {
                pos = pos + 1;
            }
            let ghost old_vs = str_views(out@);
            let ghost old_items = out@;
            let ghost key_g = key;
            proof {
                if pos < m {
                    lemma_lex_total(old_vs[pos as int], key@);
                }
                assert forall|t: int| pos <= t < m implies lex_le(key_g@, old_vs[t]) by {
                    if t > pos {
                        lemma_lex_trans(key_g@, old_vs[pos as int], old_vs[t]);
                    }
                }
            }
            out.insert(pos, key);
            proof {
                old_items.insert_ensures(pos as int, key_g);
                assert(str_views(out@) =~~= old_vs.insert(pos as int, key_g@));
                old_vs.insert_ensures(pos as int, key_g@);
                let vs = str_views(out@);
                assert forall|i: int, j: int| 0 <= i < j < vs.len() implies lex_le(
                    vs[i],
                    vs[j],
                ) by {
                    if i < pos && j > pos {
                        lemma_lex_trans(vs[i], key_g@, vs[j]);
                    }
                }
                assert forall|i: int, j: int| 0 <= i < j < vs.len() implies vs[i] != vs[j] by {
                    if i == pos || j == pos {
                        assert(!old_vs.contains(key_g@));
                        if i == pos {
                            assert(old_vs[j - 1] == vs[j]);
                            assert(old_vs.contains(old_vs[j - 1]));
                        } else {
                            assert(old_vs[i] == vs[i]);
                            assert(old_vs.contains(old_vs[i]));
                        }
                    }
                }
                assert forall|t: int| 0 <= t < k + 1 implies str_views(out@).contains(
                    (#[trigger] keys[t]).0,
                ) by {
                    if t == k {
                        assert(str_views(out@)[pos as int] == key_g@);
                    } else {
                        let i = choose|i: int| 0 <= i < old_vs.len() && old_vs[i] == keys[t].0;
                        if i < pos {
                            assert(str_views(out@)[i] == keys[t].0);
                        } else {
                            assert(str_views(out@)[i + 1] == keys[t].0);
                        }
                    }
                }
                assert forall|i: int| #![trigger str_views(out@)[i]] 0 <= i < out@.len() implies
                    exists|t: int|
                        #![auto]
                        0 <= t < k + 1 && keys[t].0 == str_views(out@)[i] by {
                    let vs = str_views(out@);
                    if i == pos {
                        assert(keys[k as int].0 == vs[i]);
                    } else if i < pos {
                        assert(old_vs[i] == vs[i]);
                        let t = choose|t: int| 0 <= t < k && (#[trigger] keys[t]).0 == old_vs[i];
                        assert(keys[t].0 == vs[i]);
                    } else {
                        assert(old_vs[i - 1] == vs[i]);
                        let t = choose|t: int|
                            0 <= t < k && (#[trigger] keys[t]).0 == old_vs[i - 1];
                        assert(keys[t].0 == vs[i]);
                    }
                }
            }
            k = k + 1;
        }
        proof {
            let vs = str_views(out@);
            assert forall|p: Seq<char>| #![auto]
                vs.contains(p) <==> option_count(self@.answers, question_id, kind, p) > 0 by {
                if vs.contains(p) {
                    let i = choose|i: int| 0 <= i < vs.len() && vs[i] == p;
                    let t = choose|t: int| 0 <= t < n && (#[trigger] keys[t]).0 == vs[i];
                    assert(option_count(self@.answers, question_id, kind, keys[t].0) > 0);
                }
                if option_count(self@.answers, question_id, kind, p) > 0 {
                    assert(vcount(keys, p) == clamp_usize(
                        option_count(self@.answers, question_id, kind, p),
                    ));
                    lemma_vcount_pos(keys, p);
                    let t = choose|t: int| 0 <= t < keys.len() && (#[trigger] keys[t]).0 == p;
                    assert(vs.contains(keys[t].0));
                }
            }
        }
        Ok(out)
    }

    /// Assemble a survey from a raw cell table alone: the first row is
    /// the header, every question's kind is inferred from its header
    /// text. Fails when the table has no header row, or no data rows.
    pub fn from_rows(rows: Vec<Vec<String>>) -> (r: Result<Survey, SurveyError>)
        ensures
            r is Ok <==> rows@.len() >= 2,
            rows@.len() == 0 ==> r->Err_0 is DataParsingError,
            rows@.len() == 1 ==> r->Err_0 is EmptyDataset,
            r is Ok ==> ({
                let s = r->Ok_0@;
                &&& s.questions == loaded_questions(row_views(rows@), Seq::<Seq<Seq<char>>>::empty())
                &&& s.answers == answers_from(row_views(rows@), rows@.len() as int)
                &&& s.respondent_count + 1 == rows@.len()
            }),
    {
        let schema: Vec<Vec<String>> = Vec::new();
        proof {
            assert(row_views(schema@) =~~= Seq::<Seq<Seq<char>>>::empty());
            assert(schema_data(row_views(schema@)) =~~= Seq::<Seq<Seq<char>>>::empty());
        }
        Self::from_schema_rows(schema, rows)
    }

    /// Assemble a survey from a schema table (rows of `column`, `text`,
    /// `kind code`, after its own header row) and a raw cell table whose
    /// first row names each column. A schema entry overrides the
    /// inferred kind and the header text of its column; columns without
    /// one keep the heuristic. Fails when the raw table has no header
    /// row, or no data rows.
    pub fn from_schema_rows(schema_rows: Vec<Vec<String>>, rows: Vec<Vec<String>>) -> (r: Result<
        Survey,
        SurveyError,
    >)
        ensures
            r is Ok <==> rows@.len() >= 2,
            rows@.len() == 0 ==> r->Err_0 is DataParsingError,
            rows@.len() == 1 ==> r->Err_0 is EmptyDataset,
            r is Ok ==> ({
                let s = r->Ok_0@;
                &&& s.questions == loaded_questions(
                    row_views(rows@),
                    schema_data(row_views(schema_rows@)),
                )
                &&& s.answers == answers_from(row_views(rows@), rows@.len() as int)
                &&& s.respondent_count + 1 == rows@.len()
            }),
    {
        let nrows = rows.len();
        if nrows == 0 {
            return Err(
                SurveyError::DataParsingError(String::from_str("no header row in the raw data")),
            );
        }
        if nrows == 1 {
            return Err(SurveyError::EmptyDataset);
        }
        let ghost rv = row_views(rows@);
        let ghost header = rv[0];
        let ghost base = base_questions(header);

        // header row: one question per column, kind inferred
        let header_row = &rows[0];
        let ncols = header_row.len();
        let mut questions: Vec<Question> = Vec::new();
        let mut j: usize = 0;
        while j < ncols
            invariant
                ncols == header.len(),
                header == str_views(rows@[0]@),
                header_row == &rows[0],
                j <= ncols,
                questions@.len() == j,
                forall|k: int| 0 <= k < j ==> q_views(questions@)[k] == base[k],
            decreases ncols - j,
        {
            let text = header_row[j].clone();
            let kind = Survey::infer_question_type(text.as_str());
            let q = Question { id: j, text, question_type: kind, options: Vec::new() };
            proof {
                assert(str_views(q.options@) =~~= Seq::<Seq<char>>::empty());
                assert(q@ == base[j as int]);
            }
            questions.push(q);
            j = j + 1;
        }
        proof {
            assert(q_views(questions@) =~= base);
        }

        // schema overrides: (column, text, kind code) rows after the
        // schema's own header row; the last row for a column wins
        let ghost sv = row_views(schema_rows@);
        let ns = schema_rows.len();
        let mut s_i: usize = 1;
        while s_i < ns
            invariant
                ncols == header.len(),
                header == str_views(rows@[0]@),
                ns == schema_rows@.len(),
                1 <= s_i,
                ns >= 1 ==> s_i <= ns,
                sv == row_views(schema_rows@),
                questions@.len() == ncols,
                ns >= 1 ==> q_views(questions@) == apply_schema(
                    base,
                    header,
                    sv.subrange(1, s_i as int),
                ),
                ns == 0 ==> q_views(questions@) == base,
            decreases ns - s_i,
        {
            let ghost prev = q_views(questions@);
            let row = &schema_rows[s_i];
            proof {
                assert(sv[s_i as int] == str_views(row@));
            }
            if row.len() >= 3 {
                let mut cj: usize = 0;
                while cj < ncols
                    invariant
                        ncols == header.len(),
                        header == str_views(rows@[0]@),
                        ns == schema_rows@.len(),
                        1 <= s_i < ns,
                        sv == row_views(schema_rows@),
                        row == &schema_rows[s_i as int],
                        row@.len() >= 3,
                        sv[s_i as int] == str_views(row@),
                        prev.len() == ncols,
                        cj <= ncols,
                        questions@.len() == ncols,
                        forall|k: int| cj <= k < ncols ==> q_views(questions@)[k] == prev[k],
                        forall|k: int|
                            0 <= k < cj ==> q_views(questions@)[k] == apply_row(
                                prev,
                                header,
                                sv[s_i as int],
                            )[k],
                    decreases ncols - cj,
                {
                    let ghost qsnap = questions@;
                    if str_eq(rows[0][cj].as_str(), row[0].as_str()) {
                        let kc = QuestionType::from_code(row[2].as_str());
                        let newq = Question {
                            id: questions[cj].id,
                            text: row[1].clone(),
                            question_type: kc,
                            options: clone_strings(&questions[cj].options),
                        };
                        proof {
                            assert(header[cj as int] == sv[s_i as int][0]);
                            assert(newq@ == QuestionV {
                                text: sv[s_i as int][1],
                                question_type: kind_code(sv[s_i as int][2]),
                                ..prev[cj as int]
                            });
                        }
                        questions.set(cj, newq);
                    } else {
                        proof {
                            assert(header[cj as int] != sv[s_i as int][0]);
                        }
                    }
                    proof {
                        assert(sv[s_i as int].len() >= 3);
                        assert(q_views(questions@)[cj as int] == apply_row(
                            prev,
                            header,
                            sv[s_i as int],
                        )[cj as int]);
                        assert forall|k: int| 0 <= k < cj implies q_views(questions@)[k]
                            == apply_row(prev, header, sv[s_i as int])[k] by {
                            assert(questions@[k] == qsnap[k]);
                            assert(q_views(qsnap)[k] == apply_row(prev, header, sv[s_i as int])[k]);
                        }
                        assert forall|k: int| cj + 1 <= k < ncols implies q_views(questions@)[k]
                            == prev[k] by {
                            assert(questions@[k] == qsnap[k]);
                            assert(q_views(qsnap)[k] == prev[k]);
                        }
                    }
                    cj = cj + 1;
                }
                proof {
                    assert(q_views(questions@) =~= apply_row(prev, header, sv[s_i as int]));
                }
            } else {
                proof {
                    assert(apply_row(prev, header, sv[s_i as int]) == prev);
                }
            }
            proof {
                assert(sv.subrange(1, s_i + 1).drop_last() =~~= sv.subrange(1, s_i as int));
                assert(sv.subrange(1, s_i + 1).last() == sv[s_i as int]);
            }
            s_i = s_i + 1;
        }
        let ghost overridden = apply_schema(base, header, schema_data(sv));
        proof {
            if ns >= 1 {
                assert(sv.subrange(1, ns as int) =~~= schema_data(sv));
            } else {
                assert(sv =~~= Seq::<Seq<Seq<char>>>::empty());
                assert(schema_data(sv) =~~= Seq::<Seq<Seq<char>>>::empty());
            }
            assert(q_views(questions@) == overridden);
            lemma_apply_schema_len(base, header, schema_data(sv));
        }

        // answers: row-major, dense 0-based respondent ids
        let mut answers: Vec<Answer> = Vec::new();
        let mut i: usize = 1;
        proof {
            assert(a_views(answers@) =~~= answers_from(rv, 1));
        }
        while i < nrows
            invariant
                nrows == rows@.len(),
                rv == row_views(rows@),
                1 <= i <= nrows,
                a_views(answers@) == answers_from(rv, i as int),
            decreases nrows - i,
        {
            let row = &rows[i];
            let m = row.len();
            proof {
                assert(rv[i as int] == str_views(row@));
                assert(rv[i as int].take(0) =~~= Seq::<Seq<char>>::empty());
            }
            let mut cj: usize = 0;
            while cj < m
                invariant
                    nrows == rows@.len(),
                    rv == row_views(rows@),
                    1 <= i < nrows,
                    row == &rows[i as int],
                    m == rv[i as int].len(),
                    cj <= m,
                    a_views(answers@) == answers_from(rv, i as int) + row_answers(
                        rv[i as int].take(cj as int),
                        (i - 1) as usize,
                    ),
                decreases m - cj,
            {
                proof {
                    let pfx = rv[i as int].take(cj + 1);
                    assert(pfx.drop_last() =~~= rv[i as int].take(cj as int));
                    assert(pfx.last() == rv[i as int][cj as int]);
                }
                let t = trim_str(row[cj].as_str());
                if t.unicode_len() > 0 && !str_eq(t.as_str(), "NA") {
                    let a = Answer { respondent_id: i - 1, question_id: cj, value: t };
                    proof {
                        assert(a_views(answers@.push(a)) =~~= a_views(answers@).push(a@));
                    }
                    answers.push(a);
                }
                cj = cj + 1;
            }
            proof {
                assert(rv[i as int].take(m as int) =~~= rv[i as int]);
            }
            i = i + 1;
        }

        // options: per column, the deduplicated pieces its kept cells
        // were observed to hold, for the kinds that accumulate them
        let mut final_questions: Vec<Question> = Vec::new();
        let ghost loaded = loaded_questions(rv, schema_data(sv));
        let mut fj: usize = 0;
        while fj < ncols
            invariant
                nrows == rows@.len(),
                2 <= nrows,
                rv == row_views(rows@),
                ncols == header.len(),
                questions@.len() == ncols,
                q_views(questions@) == overridden,
                overridden.len() == ncols,
                loaded == loaded_questions(rv, schema_data(sv)),
                overridden == apply_schema(base, header, schema_data(sv)),
                header == rv[0],
                fj <= ncols,
                final_questions@.len() == fj,
                forall|k: int| 0 <= k < fj ==> q_views(final_questions@)[k] == loaded[k],
            decreases ncols - fj,
        {
            let splits = match questions[fj].question_type {
                QuestionType::SingleChoice => true,
                QuestionType::MultipleChoice => true,
                _ => false,
            };
            proof {
                assert(splits == splits_kind(overridden[fj as int].question_type));
            }
            let mut opts: Vec<String> = Vec::new();
            if splits {
                proof {
                    assert(str_views(opts@) =~~= dedup(col_pieces(rv, fj as int, 1, true)));
                }
                let mut oi: usize = 1;
                while oi < nrows
                    invariant
                        nrows == rows@.len(),
                        rv == row_views(rows@),
                        1 <= oi <= nrows,
                        str_views(opts@) == dedup(col_pieces(rv, fj as int, oi as int, true)),
                    decreases nrows - oi,
                {
                    proof {
                        assert(rv[oi as int] == str_views(rows@[oi as int]@));
                    }
                    let row = &rows[oi];
                    if fj < row.len() {
                        let t = trim_str(row[fj].as_str());
                        let ghost cp = cell_pieces(rv[oi as int][fj as int], true);
                        if t.unicode_len() > 0 && !str_eq(t.as_str(), "NA") {
                            let pieces = split_load(t.as_str());
                            proof {
                                assert(cp == load_pieces(t@));
                                assert(str_views(pieces@) == cp);
                                assert(col_pieces(rv, fj as int, oi as int, true) + cp.take(0)
                                    =~~= col_pieces(rv, fj as int, oi as int, true));
                            }
                            let np = pieces.len();
                            let mut pk: usize = 0;
                            while pk < np
                                invariant
                                    np == cp.len(),
                                    str_views(pieces@) == cp,
                                    pk <= np,
                                    str_views(opts@) == dedup(
                                        col_pieces(rv, fj as int, oi as int, true) + cp.take(
                                            pk as int,
                                        ),
                                    ),
                                decreases np - pk,
                            {
                                proof {
                                    let whole = col_pieces(rv, fj as int, oi as int, true)
                                        + cp.take(pk + 1);
                                    assert(whole.drop_last() =~~= col_pieces(
                                        rv,
                                        fj as int,
                                        oi as int,
                                        true,
                                    ) + cp.take(pk as int));
                                    assert(whole.last() == cp[pk as int]);
                                }
                                let p = pieces[pk].clone();
                                if !contains_string(&opts, &p) {
                                    proof {
                                        assert(str_views(opts@.push(p)) =~~= str_views(
                                            opts@,
                                        ).push(p@));
                                    }
                                    opts.push(p);
                                }
                                pk = pk + 1;
                            }
                            proof {
                                assert(cp.take(np as int) =~~= cp);
                                assert(col_pieces(rv, fj as int, oi + 1, true) =~~= col_pieces(
                                    rv,
                                    fj as int,
                                    oi as int,
                                    true,
                                ) + cp);
                            }
                        } else {
                            proof {
                                assert(cp =~~= Seq::<Seq<char>>::empty());
                                assert(col_pieces(rv, fj as int, oi + 1, true) =~~= col_pieces(
                                    rv,
                                    fj as int,
                                    oi as int,
                                    true,
                                ));
                            }
                        }
                    } else {
                        proof {
                            assert(col_pieces(rv, fj as int, oi + 1, true) =~~= col_pieces(
                                rv,
                                fj as int,
                                oi as int,
                                true,
                            ));
                        }
                    }
                    oi = oi + 1;
                }
            } else {
                proof {
                    lemma_col_pieces_nosplit(rv, fj as int, nrows as int);
                    assert(str_views(opts@) =~~= dedup(
                        col_pieces(rv, fj as int, nrows as int, false),
                    ));
                }
            }
            let fq = Question {
                id: questions[fj].id,
                text: questions[fj].text.clone(),
                question_type: questions[fj].question_type,
                options: opts,
            };
            proof {
                assert(fq@ == loaded[fj as int]);
            }
            final_questions.push(fq);
            fj = fj + 1;
        }
        proof {
            assert(q_views(final_questions@) =~= loaded);
        }
        Ok(Survey { questions: final_questions, answers, respondent_count: nrows - 1 })
    }
}

} // verus!
