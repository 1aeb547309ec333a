use std::collections::{HashMap, HashSet};

use secret_santa::errors::AppError;
use secret_santa::matcher::{attribute_gift, attribute_gift_by_index};

fn names(list: &[&str]) -> Vec<String> {
    list.iter().map(|s| s.to_string()).collect()
}

fn pairs(list: &[(&str, &str)]) -> Vec<(String, String)> {
    list.iter().map(|(a, b)| (a.to_string(), b.to_string())).collect()
}

fn check_invariants(
    participants: &[String],
    couples: &[(String, String)],
    res: &[(String, String)],
) {
    // Completeness: the givers are exactly the participant set.
    let giver_set: HashSet<&String> = res.iter().map(|(g, _)| g).collect();
    let participant_set: HashSet<&String> = participants.iter().collect();
    assert_eq!(giver_set, participant_set);
    assert_eq!(res.len(), participants.len());

    // Every receiver is a participant, and nobody gives to themselves.
    for (giver, receiver) in res {
        assert!(participant_set.contains(receiver));
        assert_ne!(giver, receiver);
    }

    // Injectivity: every participant receives exactly once.
    for participant in participants {
        assert_eq!(res.iter().filter(|(_, r)| r == participant).count(), 1);
    }

    // Couple exclusion, in both directions.
    let map: HashMap<&String, &String> = res.iter().map(|(g, r)| (g, r)).collect();
    for (name1, name2) in couples {
        if let Some(r) = map.get(name1) {
            assert_ne!(*r, name2);
        }
        if let Some(r) = map.get(name2) {
            assert_ne!(*r, name1);
        }
    }
}

#[test]
fn can_attribute_gift_in_good_conditions() {
    let participants = names(&["Florent", "Jessica", "Coline", "Emilien", "Ambroise", "Bastien"]);
    let couples = pairs(&[("Florent", "Jessica"), ("Coline", "Emilien")]);
    let res = attribute_gift(&participants, &couples).unwrap();

    // Check couples don't give to each other
    let map: HashMap<String, String> = res.iter().cloned().collect();
    for (name1, name2) in &couples {
        assert_ne!(map.get(name1).unwrap(), name2);
        assert_ne!(map.get(name2).unwrap(), name1);
    }

    // Check nobody offer gift to himself
    for (giver, receiver) in &res {
        assert_ne!(giver, receiver)
    }

    // Check nobody get more than one gift
    for participant in &participants {
        assert_eq!(res.iter().map(|(_, r)| r).filter(|x| x == &participant).count(), 1)
    }
}

#[test]
fn fail_in_bad_conditions() {
    let participants = names(&["Florent", "Jessica", "Emilien"]);
    let couples = pairs(&[("Florent", "Jessica")]);
    let res = attribute_gift(&participants, &couples);
    assert_eq!(res, Err(AppError::AttemptsLimitReached))
}

#[test]
fn empty_participants_succeed() {
    let res = attribute_gift(&Vec::new(), &Vec::new());
    assert_eq!(res, Ok(Vec::new()));
}

#[test]
fn single_participant_fails() {
    let participants = names(&["Solo"]);
    let res = attribute_gift(&participants, &Vec::new());
    assert_eq!(res, Err(AppError::AttemptsLimitReached));
}

#[test]
fn two_participants_fail_by_reciprocity() {
    // The only derangement of two people pairs them with each other, which
    // the matcher never does.
    let participants = names(&["Ana", "Bea"]);
    let res = attribute_gift(&participants, &Vec::new());
    assert_eq!(res, Err(AppError::AttemptsLimitReached));
}

#[test]
fn full_invariants_hold_on_success() {
    let participants = names(&["Florent", "Jessica", "Coline", "Emilien", "Ambroise", "Bastien"]);
    let couples = pairs(&[("Florent", "Jessica"), ("Coline", "Emilien")]);
    let res = attribute_gift(&participants, &couples).unwrap();
    check_invariants(&participants, &couples, &res);
}

#[test]
fn reinvocation_gives_independently_valid_results() {
    let participants = names(&["Florent", "Jessica", "Coline", "Emilien", "Ambroise", "Bastien"]);
    let couples = pairs(&[("Florent", "Jessica"), ("Coline", "Emilien")]);
    let first = attribute_gift(&participants, &couples).unwrap();
    let second = attribute_gift(&participants, &couples).unwrap();
    check_invariants(&participants, &couples, &first);
    check_invariants(&participants, &couples, &second);
}

#[test]
fn couple_naming_an_outsider_is_inert() {
    let participants = names(&["Ana", "Bea", "Carl", "Dora", "Emil"]);
    let couples = pairs(&[("Ana", "Nobody")]);
    let res = attribute_gift(&participants, &couples).unwrap();
    check_invariants(&participants, &couples, &res);
}

#[test]
fn no_reciprocal_pair_on_success() {
    let participants = names(&["Ana", "Bea", "Carl", "Dora", "Emil", "Fred", "Gina"]);
    let res = attribute_gift(&participants, &Vec::new()).unwrap();
    let map: HashMap<&String, &String> = res.iter().map(|(g, r)| (g, r)).collect();
    for (giver, receiver) in &res {
        assert_ne!(*map.get(&receiver).unwrap(), giver);
    }
}

#[test]
fn index_matcher_respects_all_rules() {
    let couples: Vec<(usize, usize)> = vec![(0, 1)];
    let asg = attribute_gift_by_index(5, &couples).unwrap();
    assert_eq!(asg.len(), 5);
    for (giver, &receiver) in asg.iter().enumerate() {
        assert!(receiver < 5);
        assert_ne!(receiver, giver);
        // no reciprocity
        assert_ne!(asg[receiver], giver);
    }
    // injectivity
    for r in 0..5 {
        assert_eq!(asg.iter().filter(|&&x| x == r).count(), 1);
    }
    // the couple is excluded in both directions
    assert_ne!(asg[0], 1);
    assert_ne!(asg[1], 0);
}

#[test]
fn index_matcher_empty_group_succeeds() {
    let asg = attribute_gift_by_index(0, &Vec::new());
    assert_eq!(asg, Ok(Vec::new()));
}

#[test]
fn error_message_suggests_remediation() {
    let msg = AppError::AttemptsLimitReached.message();
    assert_eq!(
        msg,
        "Failed to generate secret santa, please try to remove couples or add more people"
    );
}
