use survey_analyzer::analysis::{AnswerDistribution, Subset};
use survey_analyzer::error::SurveyError;
use survey_analyzer::survey::QuestionType;

// Percentages are integers in hundredths of a percent: 50.0% is 5000.

fn language_distribution() -> AnswerDistribution {
    AnswerDistribution {
        question_id: 1,
        question_text: "Favorite programming language".to_string(),
        question_type: QuestionType::SingleChoice,
        distribution: vec![
            ("Rust".to_string(), 150),
            ("Python".to_string(), 250),
            ("JavaScript".to_string(), 100),
        ],
        total_responses: 500,
    }
}

#[test]
fn test_answer_distribution() {
    let answer_dist = language_distribution();

    let most_popular = answer_dist.most_popular().unwrap();
    assert_eq!(most_popular.0, "Python");
    assert_eq!(most_popular.1, 250);

    let above_30 = answer_dist.above_threshold(3000);
    assert_eq!(above_30.len(), 2); // Python and Rust
}

#[test]
fn test_most_popular_values() {
    let answer_dist = language_distribution();
    let (option, count, pct) = answer_dist.most_popular().unwrap();
    assert_eq!(option, "Python");
    assert_eq!(count, 250);
    assert_eq!(pct, 5000); // 50.0%
}

#[test]
fn test_above_threshold_inclusive_boundary() {
    let answer_dist = language_distribution();
    // Rust sits exactly at 30.0%: the boundary is inclusive.
    let above = answer_dist.above_threshold(3000);
    let names: Vec<&str> = above.iter().map(|e| e.0.as_str()).collect();
    assert!(names.contains(&"Python"));
    assert!(names.contains(&"Rust"));
    assert!(!names.contains(&"JavaScript"));
    assert_eq!(above[0].2, 3000); // Rust: 30.0%, stored order kept
}

#[test]
fn test_distribution_analysis() {
    let answer_dist = AnswerDistribution {
        question_id: 1,
        question_text: "Test Question".to_string(),
        question_type: QuestionType::SingleChoice,
        distribution: vec![
            ("Option A".to_string(), 100),
            ("Option B".to_string(), 80),
            ("Option C".to_string(), 20),
        ],
        total_responses: 200,
    };

    let most_popular = answer_dist.most_popular().unwrap();
    assert_eq!(most_popular.0, "Option A");
    assert_eq!(most_popular.1, 100);
    assert_eq!(most_popular.2, 5000); // 50.0%

    let above_threshold = answer_dist.above_threshold(3000);
    assert_eq!(above_threshold.len(), 2); // Option A and B
}

#[test]
fn test_zero_total_means_zero_percentages() {
    let answer_dist = AnswerDistribution {
        question_id: 0,
        question_text: "Empty".to_string(),
        question_type: QuestionType::SingleChoice,
        distribution: vec![("X".to_string(), 5)],
        total_responses: 0,
    };
    let (_, _, pct) = answer_dist.most_popular().unwrap();
    assert_eq!(pct, 0);

    let subset = Subset {
        question_id: 0,
        option: "X".to_string(),
        respondent_ids: vec![1, 2],
        total_respondents: 0,
    };
    assert_eq!(subset.percentage(), 0);
}

#[test]
fn test_sorted_entries_order() {
    let answer_dist = AnswerDistribution {
        question_id: 0,
        question_text: "Order".to_string(),
        question_type: QuestionType::SingleChoice,
        distribution: vec![
            ("B".to_string(), 5),
            ("A".to_string(), 10),
            ("C".to_string(), 5),
            ("Aardvark".to_string(), 5),
        ],
        total_responses: 25,
    };
    let sorted = answer_dist.sorted_entries();
    let keys: Vec<&str> = sorted.iter().map(|e| e.0.as_str()).collect();
    // descending by count, ties ascending by option string
    assert_eq!(keys, vec!["A", "Aardvark", "B", "C"]);
}

#[test]
fn test_subset() {
    let subset = Subset {
        question_id: 1,
        option: "Rust".to_string(),
        respondent_ids: vec![1, 2, 3, 4, 5],
        total_respondents: 100,
    };

    assert_eq!(subset.size(), 5);
    assert_eq!(subset.percentage(), 500); // 5.0%
    assert!(subset.contains_respondent(3));
    assert!(!subset.contains_respondent(10));
}

#[test]
fn test_subset_intersection() {
    let subset1 = Subset {
        question_id: 1,
        option: "Rust".to_string(),
        respondent_ids: vec![1, 2, 3, 4, 5],
        total_respondents: 100,
    };

    let subset2 = Subset {
        question_id: 2,
        option: "Senior".to_string(),
        respondent_ids: vec![3, 4, 5, 6, 7],
        total_respondents: 100,
    };

    let intersection = subset1.intersect(&subset2);
    assert_eq!(intersection, vec![3, 4, 5]);
}

#[test]
fn test_subset_operations() {
    let subset1 = Subset {
        question_id: 1,
        option: "Rust".to_string(),
        respondent_ids: vec![1, 2, 3, 4, 5],
        total_respondents: 100,
    };

    let subset2 = Subset {
        question_id: 2,
        option: "Senior".to_string(),
        respondent_ids: vec![3, 4, 5, 6, 7],
        total_respondents: 100,
    };

    assert_eq!(subset1.size(), 5);
    assert_eq!(subset1.percentage(), 500); // 5.0%
    assert!(subset1.contains_respondent(3));
    assert!(!subset1.contains_respondent(10));

    let intersection = subset1.intersect(&subset2);
    assert_eq!(intersection, vec![3, 4, 5]);
    assert_eq!(intersection.len(), 3);
}

#[test]
fn test_intersection_commutative_as_set() {
    let a = Subset {
        question_id: 1,
        option: "Rust".to_string(),
        respondent_ids: vec![5, 1, 3, 2, 4],
        total_respondents: 10,
    };
    let b = Subset {
        question_id: 2,
        option: "Senior".to_string(),
        respondent_ids: vec![4, 6, 3, 7, 5],
        total_respondents: 10,
    };
    let mut ab = a.intersect(&b);
    let mut ba = b.intersect(&a);
    ab.sort();
    ba.sort();
    assert_eq!(ab, ba);
    assert_eq!(ab, vec![3, 4, 5]);
}

#[test]
fn test_intersection_collapses_duplicates() {
    let a = Subset {
        question_id: 1,
        option: "Rust".to_string(),
        respondent_ids: vec![2, 2, 1, 2],
        total_respondents: 10,
    };
    let b = Subset {
        question_id: 1,
        option: "Rust".to_string(),
        respondent_ids: vec![2, 9],
        total_respondents: 10,
    };
    assert_eq!(a.intersect(&b), vec![2]);
}

#[test]
fn test_subset_display_mentions_contents() {
    let subset = Subset {
        question_id: 1,
        option: "Rust".to_string(),
        respondent_ids: vec![1, 2, 3, 4, 5],
        total_respondents: 100,
    };
    let text = subset.display();
    assert!(text.contains("Subset for Question 1"));
    assert!(text.contains("Rust"));
    assert!(text.contains("5 respondents"));
    assert!(text.contains("5.0% of total"));
}

#[test]
fn test_distribution_display_mentions_contents() {
    let text = language_distribution().display();
    assert!(text.contains("Favorite programming language"));
    assert!(text.contains("Total Responses: 500"));
    assert!(text.contains("Python: 250 (50.0%)"));
}

#[test]
fn test_error_messages() {
    assert_eq!(
        SurveyError::QuestionNotFound(42).message(),
        "Question not found with ID: 42"
    );
    assert_eq!(
        SurveyError::InvalidQuestionType.message(),
        "Invalid question type for operation"
    );
    assert_eq!(
        SurveyError::OptionNotFound("Zig".to_string()).message(),
        "Option not found: Zig"
    );
    assert_eq!(SurveyError::EmptyDataset.message(), "Empty dataset");
}

#[test]
fn test_decimal_rendering() {
    assert_eq!(survey_analyzer::text::usize_to_string(0), "0");
    assert_eq!(survey_analyzer::text::usize_to_string(7), "7");
    assert_eq!(survey_analyzer::text::usize_to_string(12034), "12034");
}
