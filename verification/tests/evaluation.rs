use nearest_neighbor::error::ClassifyError;
use nearest_neighbor::evaluation::{evaluate, Evaluation};
use nearest_neighbor::example::Example;

fn record(label: i32, pixels: &[i32]) -> Example {
    Example { label, pixels: pixels.to_vec() }
}

fn accuracy(outcome: &Evaluation) -> f64 {
    100.0 * (outcome.correct as f64) / ((outcome.correct + outcome.wrong) as f64)
}

#[test]
fn evaluate_counts_three_of_four() {
    let training = vec![record(0, &[0, 0]), record(1, &[10, 10])];
    let validation = vec![
        record(0, &[1, 1]),
        record(1, &[9, 9]),
        record(1, &[2, 1]),
        record(0, &[-3, 0]),
    ];
    let outcome = evaluate(&training, &validation).unwrap();
    assert_eq!(outcome.predictions, vec![0, 1, 0, 0]);
    assert_eq!(outcome.correct, 3);
    assert_eq!(outcome.wrong, 1);
    assert_eq!(format!("{:.2}%", accuracy(&outcome)), "75.00%");
    assert_eq!(
        format!("{} correct, {} wrong = {:.2}%", outcome.correct, outcome.wrong, accuracy(&outcome)),
        "3 correct, 1 wrong = 75.00%"
    );
}

#[test]
fn evaluate_all_correct_and_all_wrong() {
    let training = vec![record(0, &[0]), record(1, &[10])];
    let right = vec![record(0, &[1]), record(1, &[8])];
    let outcome = evaluate(&training, &right).unwrap();
    assert_eq!((outcome.correct, outcome.wrong), (2, 0));
    assert_eq!(format!("{:.2}%", accuracy(&outcome)), "100.00%");
    let off = vec![record(1, &[1]), record(0, &[8]), record(2, &[5])];
    let outcome = evaluate(&training, &off).unwrap();
    assert_eq!(outcome.predictions, vec![0, 1, 0]);
    assert_eq!((outcome.correct, outcome.wrong), (0, 3));
    assert_eq!(format!("{:.2}%", accuracy(&outcome)), "0.00%");
}

#[test]
fn evaluate_on_an_empty_validation_set() {
    let training = vec![record(0, &[0, 0])];
    let outcome = evaluate(&training, &vec![]).unwrap();
    assert_eq!(outcome, Evaluation { predictions: vec![], correct: 0, wrong: 0 });
    assert!(accuracy(&outcome).is_nan());
    let outcome = evaluate(&vec![], &vec![]).unwrap();
    assert_eq!(outcome, Evaluation { predictions: vec![], correct: 0, wrong: 0 });
}

#[test]
fn evaluate_rejects_an_empty_training_set() {
    let validation = vec![record(0, &[1, 1])];
    assert_eq!(evaluate(&vec![], &validation), Err(ClassifyError::EmptyReferenceSet));
}

#[test]
fn evaluate_rejects_a_validation_record_of_another_length() {
    let training = vec![record(0, &[0, 0]), record(1, &[10, 10])];
    let validation = vec![record(0, &[1, 1]), record(1, &[9, 9, 9])];
    assert_eq!(evaluate(&training, &validation), Err(ClassifyError::DimensionMismatch));
}

#[test]
fn evaluate_predictions_agree_with_classify() {
    let training = vec![record(7, &[1, 0]), record(9, &[0, 1]), record(3, &[4, 4])];
    let validation = vec![record(7, &[0, 0]), record(3, &[3, 3]), record(9, &[0, 2])];
    let outcome = evaluate(&training, &validation).unwrap();
    for (i, v) in validation.iter().enumerate() {
        assert_eq!(
            Ok(outcome.predictions[i]),
            nearest_neighbor::classifier::classify(&training, &v.pixels)
        );
    }
    assert_eq!(outcome.predictions, vec![7, 3, 9]);
    assert_eq!((outcome.correct, outcome.wrong), (3, 0));
}
