use survey_analyzer::error::SurveyError;
use survey_analyzer::survey::{Answer, Question, QuestionType, Survey};

fn sample_survey() -> Survey {
    let questions = vec![
        Question {
            id: 0,
            text: "What is your age?".to_string(),
            question_type: QuestionType::SingleChoice,
            options: vec![],
        },
        Question {
            id: 1,
            text: "What languages do you use?".to_string(),
            question_type: QuestionType::MultipleChoice,
            options: vec![],
        },
    ];
    let answers = vec![
        Answer { respondent_id: 0, question_id: 0, value: "25-34".to_string() },
        Answer { respondent_id: 0, question_id: 1, value: "Python;JavaScript;Rust".to_string() },
        Answer { respondent_id: 1, question_id: 0, value: "35-44".to_string() },
        Answer { respondent_id: 1, question_id: 1, value: "Java;Python".to_string() },
        Answer { respondent_id: 2, question_id: 0, value: "25-34".to_string() },
        Answer { respondent_id: 2, question_id: 1, value: "Python;Go".to_string() },
    ];
    Survey::new(questions, answers, 3)
}

#[test]
fn test_question_type_inference() {
    assert!(matches!(
        Survey::infer_question_type("Select all that apply"),
        QuestionType::MultipleChoice
    ));
    assert!(matches!(
        Survey::infer_question_type("What is your age?"),
        QuestionType::Numeric
    ));
    assert!(matches!(
        Survey::infer_question_type("Please describe"),
        QuestionType::Text
    ));
    assert!(matches!(
        Survey::infer_question_type("What is your role?"),
        QuestionType::SingleChoice
    ));
}

#[test]
fn test_search_functionality() {
    let questions = vec![
        Question {
            id: 0,
            text: "What programming language do you use?".to_string(),
            question_type: QuestionType::SingleChoice,
            options: vec!["Rust".to_string(), "Python".to_string()],
        },
        Question {
            id: 1,
            text: "How many years of experience?".to_string(),
            question_type: QuestionType::Numeric,
            options: vec![],
        },
    ];

    let survey = Survey::new(questions, vec![], 0);

    let results = survey.search_questions("programming");
    assert_eq!(results.len(), 1);
    assert_eq!(results[0].id, 0);

    let option_results = survey.search_options("rust");
    assert_eq!(option_results.len(), 1);
    assert_eq!(option_results[0], (0, "Rust".to_string()));
}

#[test]
fn test_search_questions() {
    let survey = sample_survey();
    let results = survey.search_questions("What is your age");
    assert_eq!(results.len(), 1);
    assert_eq!(results[0].id, 0);
}

#[test]
fn test_search_is_case_insensitive_substring() {
    let questions = vec![Question {
        id: 0,
        text: "What LanguageHaveWorkedWith do you use?".to_string(),
        question_type: QuestionType::MultipleChoice,
        options: vec![],
    }];
    let survey = Survey::new(questions, vec![], 0);
    // both sides are folded: the question text has no lowercase
    // "language", and the second term is not lowercase itself
    assert_eq!(survey.search_questions("language").len(), 1);
    assert_eq!(survey.search_questions("LANGUAGE").len(), 1);
    assert_eq!(survey.search_questions("cobol").len(), 0);
    // an empty term matches everything
    assert_eq!(survey.search_questions("").len(), 1);
}

#[test]
fn test_create_subset() {
    let survey = sample_survey();

    // single choice: exact match
    let subset = survey.create_subset(0, "25-34").unwrap();
    assert_eq!(subset.size(), 2);

    // multiple choice: substring containment
    let subset = survey.create_subset(1, "Python").unwrap();
    assert_eq!(subset.size(), 3); // all respondents mention Python

    let subset = survey.create_subset(1, "Rust").unwrap();
    assert_eq!(subset.size(), 1); // only the first respondent
}

#[test]
fn test_subset_containment_matches_java_inside_javascript() {
    // multiple-choice matching is substring containment, not a
    // tokenized membership test
    let survey = sample_survey();
    let subset = survey.create_subset(1, "Java").unwrap();
    assert_eq!(subset.size(), 2); // "JavaScript" also contains "Java"
    assert!(subset.contains_respondent(0));
    assert!(subset.contains_respondent(1));
}

#[test]
fn test_get_question_options() {
    let survey = sample_survey();

    let options = survey.get_question_options(0).unwrap();
    assert_eq!(options.len(), 2);
    assert!(options.contains(&"25-34".to_string()));
    assert!(options.contains(&"35-44".to_string()));

    let options = survey.get_question_options(1).unwrap();
    assert_eq!(options.len(), 5);
    assert!(options.contains(&"Python".to_string()));
    assert!(options.contains(&"JavaScript".to_string()));
    assert!(options.contains(&"Rust".to_string()));
    assert!(options.contains(&"Java".to_string()));
    assert!(options.contains(&"Go".to_string()));
    // deterministic: ascending order
    let mut sorted = options.clone();
    sorted.sort();
    assert_eq!(options, sorted);
}

#[test]
fn test_distribution_single_choice_counts_sum_to_total() {
    let survey = sample_survey();
    let dist = survey.get_distribution(0).unwrap();
    assert_eq!(dist.total_responses, 3);
    let sum: usize = dist.distribution.iter().map(|e| e.1).sum();
    assert_eq!(sum, dist.total_responses);
    let counts: Vec<(String, usize)> = dist.distribution.clone();
    assert!(counts.contains(&("25-34".to_string(), 2)));
    assert!(counts.contains(&("35-44".to_string(), 1)));
}

#[test]
fn test_distribution_multiple_choice_counts_reach_total() {
    let survey = sample_survey();
    let dist = survey.get_distribution(1).unwrap();
    assert_eq!(dist.total_responses, 3);
    let sum: usize = dist.distribution.iter().map(|e| e.1).sum();
    assert!(dist.total_responses <= sum);
    assert_eq!(sum, 7);
    let counts: Vec<(String, usize)> = dist.distribution.clone();
    assert!(counts.contains(&("Python".to_string(), 3)));
    assert!(counts.contains(&("JavaScript".to_string(), 1)));
    // percentage relative to total respondents, not to the sum
    let python = dist.distribution.iter().find(|e| e.0 == "Python").unwrap();
    assert_eq!(
        survey_analyzer::analysis::percent_x100(python.1, dist.total_responses),
        10000
    );
}

#[test]
fn test_distribution_skips_blank_and_na() {
    let questions = vec![Question {
        id: 0,
        text: "Role".to_string(),
        question_type: QuestionType::SingleChoice,
        options: vec![],
    }];
    let answers = vec![
        Answer { respondent_id: 0, question_id: 0, value: "Dev".to_string() },
        Answer { respondent_id: 1, question_id: 0, value: "   ".to_string() },
        Answer { respondent_id: 2, question_id: 0, value: "NA".to_string() },
        Answer { respondent_id: 3, question_id: 0, value: "  Dev ".to_string() },
    ];
    let survey = Survey::new(questions, answers, 4);
    let dist = survey.get_distribution(0).unwrap();
    assert_eq!(dist.total_responses, 2);
    assert_eq!(dist.distribution, vec![("Dev".to_string(), 2)]);
}

#[test]
fn test_unknown_question_id_is_an_error() {
    let survey = sample_survey();
    assert!(matches!(
        survey.get_distribution(99),
        Err(SurveyError::QuestionNotFound(99))
    ));
    assert!(matches!(
        survey.create_subset(7, "Rust"),
        Err(SurveyError::QuestionNotFound(7))
    ));
    assert!(matches!(
        survey.get_question_options(2),
        Err(SurveyError::QuestionNotFound(2))
    ));
}

#[test]
fn test_from_rows_builds_model() {
    let rows = vec![
        vec!["What is your role?".to_string(), "Select all languages used".to_string()],
        vec!["Dev".to_string(), "Python;Rust".to_string()],
        vec!["QA".to_string(), "Java".to_string()],
        vec!["Dev".to_string(), "NA".to_string()],
    ];
    let survey = Survey::from_rows(rows).unwrap();
    assert_eq!(survey.respondent_count(), 3);

    let questions = survey.questions();
    assert_eq!(questions.len(), 2);
    assert_eq!(questions[0].id, 0);
    assert_eq!(questions[0].text, "What is your role?");
    assert!(matches!(questions[0].question_type, QuestionType::SingleChoice));
    assert!(matches!(questions[1].question_type, QuestionType::MultipleChoice));
    // options observed while loading, first-seen order, deduplicated
    assert_eq!(questions[0].options, vec!["Dev".to_string(), "QA".to_string()]);
    assert_eq!(
        questions[1].options,
        vec!["Python".to_string(), "Rust".to_string(), "Java".to_string()]
    );

    // blank and "NA" cells produce no answer
    assert_eq!(survey.answers().len(), 5);
    assert_eq!(survey.answers()[0].value, "Dev");

    let dist = survey.get_distribution(0).unwrap();
    assert_eq!(dist.total_responses, 3);
    let dist = survey.get_distribution(1).unwrap();
    assert_eq!(dist.total_responses, 2);
}

#[test]
fn test_from_rows_trims_cells() {
    let rows = vec![
        vec!["Role".to_string()],
        vec!["  Dev  ".to_string()],
    ];
    let survey = Survey::from_rows(rows).unwrap();
    assert_eq!(survey.answers()[0].value, "Dev");
}

#[test]
fn test_from_rows_error_cases() {
    assert!(matches!(
        Survey::from_rows(vec![]),
        Err(SurveyError::DataParsingError(_))
    ));
    assert!(matches!(
        Survey::from_rows(vec![vec!["only a header".to_string()]]),
        Err(SurveyError::EmptyDataset)
    ));
}

#[test]
fn test_schema_overrides_inferred_kind() {
    let schema = vec![
        vec!["column".to_string(), "question".to_string(), "type".to_string()],
        vec!["Q2".to_string(), "Which languages do you use?".to_string(), "MC".to_string()],
    ];
    let rows = vec![
        vec!["Q1".to_string(), "Q2".to_string()],
        vec!["25-34".to_string(), "Python;Rust".to_string()],
        vec!["35-44".to_string(), "Python".to_string()],
    ];
    let survey = Survey::from_schema_rows(schema, rows).unwrap();
    let questions = survey.questions();
    // Q1 has no schema entry: heuristic applies to the bare header
    assert!(matches!(questions[0].question_type, QuestionType::SingleChoice));
    assert_eq!(questions[0].text, "Q1");
    // Q2 takes text and kind from the schema
    assert!(matches!(questions[1].question_type, QuestionType::MultipleChoice));
    assert_eq!(questions[1].text, "Which languages do you use?");

    let subset = survey.create_subset(1, "Rust").unwrap();
    assert_eq!(subset.size(), 1);
}

#[test]
fn test_question_type_codes() {
    assert!(matches!(QuestionType::from_code("SC"), QuestionType::SingleChoice));
    assert!(matches!(QuestionType::from_code("MC"), QuestionType::MultipleChoice));
    assert!(matches!(QuestionType::from_code("TE"), QuestionType::Text));
    assert!(matches!(QuestionType::from_code("??"), QuestionType::Text));
}

#[test]
fn test_subset_scenario_python_and_rust() {
    // three respondents answered the language question with
    // "Python;JavaScript;Rust", "Java;Python", "Python;Go"
    let survey = sample_survey();
    let python = survey.create_subset(1, "Python").unwrap();
    assert_eq!(python.size(), 3);
    // ids are the dense respondent ordinals, each present once
    assert_eq!(python.respondent_ids, vec![0, 1, 2]);
    assert_eq!(survey.create_subset(1, "Rust").unwrap().size(), 1);
}
