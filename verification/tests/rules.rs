use wfc_core::rules::MalformedRuleError;
use wfc_core::rules::Rule;
use wfc_core::rules::Rules;
use wfc_core::rules::score_rules;

#[test]
fn construct() {
    let pattern: [u16; 9] = [
        1, 2, 3,
        4, 5, 6,
        7, 8, 9,
    ];
    assert_eq!(
        Rule::new(pattern, 1),
        Rule { center: 5, around: [7, 8, 9, 6, 3, 2, 1, 4], score: 1 }
    )
}

#[test]
fn score_test() {
    let patterns: Vec<([u16; 9], i32)> = vec![
        (
            [
                1, 1, 1,
                1, 1, 1,
                1, 1, 1,
            ],
            1,
        ),
        (
            [
                1, 1, 1,
                1, 1, 1,
                1, 1, 2,
            ],
            2,
        ),
        (
            [
                1, 1, 2,
                1, 1, 1,
                1, 1, 1,
            ],
            3,
        ),
    ];
    let rules = Rules::new(&patterns).unwrap();
    let pattern = [
        &[1u16][..], &[1], &[1, 2],
        &[1], &[1], &[1],
        &[1], &[1], &[1],
    ];
    let neighbors = [
        pattern[6], pattern[7], pattern[8], pattern[5], pattern[2], pattern[1], pattern[0],
        pattern[3],
    ];
    assert_eq!(score_rules(&rules.0, &neighbors), 4)
}

#[test]
fn eval_cases() {
    let r = Rule::new([9, 9, 9, 9, 5, 9, 9, 9, 9], 1);
    // empty neighbor lists constrain nothing
    let empty: [&[u16]; 8] = [&[]; 8];
    assert!(r.eval(&empty));
    // a non-empty list must contain the expected id for its direction
    let hit: [&[u16]; 8] = [&[3, 9], &[], &[], &[], &[], &[], &[], &[]];
    assert!(r.eval(&hit));
    let miss: [&[u16]; 8] = [&[3, 8], &[], &[], &[], &[], &[], &[], &[]];
    assert!(!r.eval(&miss));
    assert_eq!(r.score_eval(&hit), 1);
    assert_eq!(r.score_eval(&miss), 0);
}

#[test]
fn rules_for_ranges() {
    let patterns: Vec<([u16; 9], i32)> = vec![
        ([1, 1, 1, 1, 2, 1, 1, 1, 1], 1),
        ([2, 2, 2, 2, 2, 2, 2, 2, 2], 1),
        ([3, 3, 3, 3, 2, 3, 3, 3, 3], 1),
        ([4, 4, 4, 4, 7, 4, 4, 4, 4], 1),
    ];
    let rules = Rules::new(&patterns).unwrap();
    let two = rules.rules_for(2);
    assert_eq!(two.len(), 3);
    assert!(two.iter().all(|r| r.center == 2));
    assert_eq!(rules.rules_for(7).len(), 1);
    assert_eq!(rules.rules_for(5).len(), 0);
}

#[test]
fn dedup_rules() {
    let patterns: Vec<([u16; 9], i32)> = vec![
        ([1, 1, 1, 1, 2, 1, 1, 1, 1], 1),
        ([1, 1, 1, 1, 2, 1, 1, 1, 1], 1),
    ];
    let rules = Rules::new(&patterns).unwrap();
    assert_eq!(rules.0.len(), 1);
}

#[test]
fn bulk_matches_per_rule() {
    let patterns: Vec<([u16; 9], i32)> = vec![
        ([1, 1, 1, 1, 1, 1, 1, 1, 1], 1),
        ([1, 1, 1, 1, 1, 1, 1, 1, 2], 2),
        ([1, 1, 2, 1, 1, 1, 1, 1, 1], 3),
    ];
    let rules = Rules::new(&patterns).unwrap();
    let pattern = [
        &[1u16][..], &[1], &[1, 2],
        &[1], &[1], &[1],
        &[1], &[1], &[1],
    ];
    let neighbors = [
        pattern[6], pattern[7], pattern[8], pattern[5], pattern[2], pattern[1], pattern[0],
        pattern[3],
    ];
    let totals = rules.score(&[1u16, 9], &neighbors);
    let manual: i32 = rules.rules_for(1).iter().map(|r| r.score_eval(&neighbors)).sum();
    assert_eq!(totals, vec![manual, 0]);
    assert_eq!(manual, 4);
}

#[test]
fn malformed_rules() {
    // a pattern centered on the void tile
    assert_eq!(Rules::new(&vec![([0u16; 9], 1)]).unwrap_err(), MalformedRuleError);
    // a negative score
    assert!(Rules::new(&vec![([1u16; 9], -1)]).is_err());
    // a score total beyond i32
    let big: Vec<([u16; 9], i32)> = vec![([1u16; 9], i32::MAX), ([2u16; 9], i32::MAX)];
    assert!(Rules::new(&big).is_err());
    // the same listing with modest scores is fine
    let ok: Vec<([u16; 9], i32)> = vec![([1u16; 9], 1), ([2u16; 9], 1)];
    assert!(Rules::new(&ok).is_ok());
}
