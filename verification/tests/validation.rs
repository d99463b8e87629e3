use dns_live::querying::validate_answer;
use dns_live::querying::ValidationResult;
use dns_live::record::RecordType;
use dns_live::session::Answer;

#[test]
fn test_validate_answer_preset() {
    assert_eq!(
        validate_answer(
            &Answer::Preset {
                options: vec!["1.2.3.4".to_string()]
            },
            "1.2.3.4",
            None,
        ),
        ValidationResult::Matched
    );

    assert_eq!(
        validate_answer(
            &Answer::Preset {
                options: vec!["1.2.3.4".to_string()]
            },
            "1.2.3.5",
            None,
        ),
        ValidationResult::NotMatched
    );
}

#[test]
fn test_validate_answer_derived() {
    let records = vec!["1.1.1.1".to_string(), "1.0.0.1".to_string()];
    assert_eq!(
        validate_answer(
            &Answer::Derived {
                record_type: RecordType::A,
                query: "one.one.one.one.".to_string()
            },
            "1.1.1.1",
            Some(&records),
        ),
        ValidationResult::Matched
    );
    assert_eq!(
        validate_answer(
            &Answer::Derived {
                record_type: RecordType::A,
                query: "one.one.one.one.".to_string()
            },
            "1.0.0.1", // valid alternate A record
            Some(&records),
        ),
        ValidationResult::Matched
    );

    assert_eq!(
        validate_answer(
            &Answer::Derived {
                record_type: RecordType::A,
                query: "one.one.one.one.".to_string()
            },
            "1.2.3.4",
            Some(&records),
        ),
        ValidationResult::NotMatched
    );
}

#[test]
fn validate_trims_submission() {
    // Would fail if trimming handed the submission back unchanged.
    assert_eq!(
        validate_answer(
            &Answer::Preset {
                options: vec!["1.2.3.4".to_string()]
            },
            "  1.2.3.4\t\n",
            None,
        ),
        ValidationResult::Matched
    );
}

#[test]
fn validate_derived_without_lookup_is_indeterminate() {
    assert_eq!(
        validate_answer(
            &Answer::Derived {
                record_type: RecordType::A,
                query: "one.one.one.one.".to_string()
            },
            "1.1.1.1",
            None,
        ),
        ValidationResult::Indeterminate
    );
}

#[test]
fn validate_preset_ignores_lookup() {
    let records = vec!["9.9.9.9".to_string()];
    assert_eq!(
        validate_answer(
            &Answer::Preset {
                options: vec!["1.2.3.4".to_string()]
            },
            "9.9.9.9",
            Some(&records),
        ),
        ValidationResult::NotMatched
    );
}
