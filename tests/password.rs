use std::collections::HashSet;

use genpasswd::options::{validate_parameters, PasswordOptions, ValidationError};
use genpasswd::password::{format_password, generate_password};
use genpasswd::positions::generate_unique_positions;

fn options(sequences: usize, length: usize, digits: usize, uppercase: usize, separator: &str) -> PasswordOptions {
    PasswordOptions {
        sequences,
        length,
        digits,
        uppercase,
        separator: separator.to_string(),
    }
}

fn count_digits(s: &str) -> usize {
    s.chars().filter(|c| c.is_ascii_digit()).count()
}

fn count_upper(s: &str) -> usize {
    s.chars().filter(|c| c.is_ascii_uppercase()).count()
}

#[test]
fn capacity_exceeded_is_refused() {
    let opts = options(1, 2, 2, 1, "-");
    assert_eq!(validate_parameters(&opts), Err(ValidationError::CapacityExceeded));
}

#[test]
fn capacity_exactly_met_is_accepted() {
    assert_eq!(validate_parameters(&options(2, 3, 4, 2, "-")), Ok(()));
    assert_eq!(validate_parameters(&options(2, 3, 4, 3, "-")), Err(ValidationError::CapacityExceeded));
}

#[test]
fn empty_shapes_are_accepted_without_classes() {
    assert_eq!(validate_parameters(&options(0, 6, 0, 0, "-")), Ok(()));
    assert_eq!(validate_parameters(&options(3, 0, 0, 0, "-")), Ok(()));
    assert_eq!(validate_parameters(&options(0, 6, 1, 0, "-")), Err(ValidationError::CapacityExceeded));
    assert_eq!(validate_parameters(&options(3, 0, 0, 1, "-")), Err(ValidationError::CapacityExceeded));
}

#[test]
fn validation_of_huge_values_does_not_overflow() {
    assert_eq!(validate_parameters(&options(usize::MAX, usize::MAX, usize::MAX, usize::MAX, "-")), Ok(()));
    assert_eq!(validate_parameters(&options(1, 1, usize::MAX, usize::MAX, "-")), Err(ValidationError::CapacityExceeded));
    assert_eq!(validate_parameters(&options(1, usize::MAX, usize::MAX, 1, "-")), Err(ValidationError::CapacityExceeded));
}

#[test]
fn validation_repeats_its_outcome() {
    let good = options(3, 6, 1, 1, "-");
    let bad = options(1, 2, 2, 1, "-");
    assert_eq!(validate_parameters(&good), validate_parameters(&good));
    assert_eq!(validate_parameters(&bad), validate_parameters(&bad));
}

#[test]
fn error_message_describes_capacity() {
    assert_eq!(
        ValidationError::CapacityExceeded.message(),
        "The number of uppercase letters and digits exceeds the total number of characters."
    );
}

#[test]
fn default_shape_matches_pattern() {
    let opts = options(3, 6, 1, 1, "-");
    let password = generate_password(&opts);
    let parts: Vec<&str> = password.split('-').collect();
    assert_eq!(parts.len(), 3);
    for part in &parts {
        assert_eq!(part.chars().count(), 6);
        assert!(part.chars().all(|c| c.is_ascii_alphanumeric()));
    }
    assert_eq!(count_digits(&password), 1);
    assert_eq!(count_upper(&password), 1);
    assert_eq!(password.chars().filter(|c| c.is_ascii_lowercase()).count(), 16);
}

#[test]
fn characters_without_separators_have_total_length() {
    for (sequences, length, digits, uppercase) in [(1, 1, 0, 0), (4, 5, 3, 2), (2, 8, 8, 8), (5, 3, 15, 0)] {
        let opts = options(sequences, length, digits, uppercase, "::");
        let password = generate_password(&opts);
        let stream: String = password.split("::").collect();
        assert_eq!(stream.chars().count(), sequences * length);
        assert_eq!(password.split("::").count(), sequences);
        assert_eq!(count_digits(&stream), digits);
        assert_eq!(count_upper(&stream), uppercase);
        assert!(stream
            .chars()
            .all(|c| c.is_ascii_digit() || c.is_ascii_uppercase() || c.is_ascii_lowercase()));
    }
}

#[test]
fn full_capacity_leaves_no_lowercase() {
    let opts = options(2, 4, 5, 3, "");
    let password = generate_password(&opts);
    assert_eq!(password.chars().count(), 8);
    assert_eq!(count_digits(&password), 5);
    assert_eq!(count_upper(&password), 3);
}

#[test]
fn no_digits_and_no_uppercase_gives_lowercase() {
    let password = generate_password(&options(2, 5, 0, 0, " "));
    assert_eq!(password.chars().count(), 11);
    assert_eq!(password.chars().nth(5), Some(' '));
    assert!(password.split(' ').all(|p| p.chars().all(|c| c.is_ascii_lowercase())));
}

#[test]
fn zero_sequences_give_empty_password() {
    assert_eq!(generate_password(&options(0, 6, 0, 0, "-")), "");
}

#[test]
fn zero_length_gives_only_separators() {
    assert_eq!(generate_password(&options(3, 0, 0, 0, "-")), "--");
    assert_eq!(generate_password(&options(1, 0, 0, 0, "-")), "");
}

#[test]
fn format_cuts_and_joins() {
    let chars = vec!['a', 'b', 'c', 'd', 'e', 'f'];
    assert_eq!(format_password(&chars, 3, 2, &"-".to_string()), "ab-cd-ef");
    assert_eq!(format_password(&chars, 2, 3, &"<>".to_string()), "abc<>def");
    assert_eq!(format_password(&chars, 1, 6, &"-".to_string()), "abcdef");
    assert_eq!(format_password(&chars, 6, 1, &String::new()), "abcdef");
}

#[test]
fn format_of_empty_parts() {
    let none: Vec<char> = Vec::new();
    assert_eq!(format_password(&none, 0, 4, &"-".to_string()), "");
    assert_eq!(format_password(&none, 4, 0, &"+".to_string()), "+++");
}

#[test]
fn positions_are_distinct_free_and_recorded() {
    let mut rng = rand::thread_rng();
    let mut used: HashSet<usize> = HashSet::new();
    used.insert(0);
    used.insert(5);
    let picked = generate_unique_positions(4, 10, &mut rng, &mut used);
    assert_eq!(picked.len(), 4);
    assert!(picked.iter().all(|p| *p < 10 && *p != 0 && *p != 5));
    assert_eq!(used.len(), 6);
    assert!(picked.iter().all(|p| used.contains(p)));
}

#[test]
fn positions_fill_every_free_slot() {
    let mut rng = rand::thread_rng();
    let mut used: HashSet<usize> = HashSet::new();
    used.insert(2);
    let picked = generate_unique_positions(4, 5, &mut rng, &mut used);
    let expected: HashSet<usize> = [0, 1, 3, 4].into_iter().collect();
    assert_eq!(picked, expected);
    assert_eq!(used.len(), 5);
}

#[test]
fn no_positions_asked() {
    let mut rng = rand::thread_rng();
    let mut used: HashSet<usize> = HashSet::new();
    let picked = generate_unique_positions(0, 0, &mut rng, &mut used);
    assert!(picked.is_empty());
    assert!(used.is_empty());
}
