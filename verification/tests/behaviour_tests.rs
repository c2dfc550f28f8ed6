//! Tests of the selection behaviours as pure index policies.

use harplay::behaviour::ResponderBehaviour;
use harplay::behaviour::ResponderBehaviour::AlwaysFirst;
use harplay::behaviour::ResponderBehaviour::AlwaysLast;
use harplay::behaviour::ResponderBehaviour::Random;
use harplay::behaviour::ResponderBehaviour::SequentialClamping;
use harplay::behaviour::ResponderBehaviour::SequentialOnce;
use harplay::behaviour::ResponderBehaviour::SequentialWrapping;

fn check(variant: ResponderBehaviour, last: Option<usize>, length: usize, expected: Option<usize>) {
    assert_eq!(variant.choose_index(last, length), expected);
}

#[test]
fn zero_length_yields_none() {
    for variant in [
        AlwaysFirst,
        AlwaysLast,
        Random,
        SequentialClamping,
        SequentialOnce,
        SequentialWrapping,
    ] {
        check(variant, Some(0), 0, None);
        check(variant, Some(1), 0, None);
        check(variant, None, 0, None);
    }
}

#[test]
fn always_first_ignores_last() {
    check(AlwaysFirst, None, 1, Some(0));
    check(AlwaysFirst, Some(0), 1, Some(0));
    check(AlwaysFirst, Some(1), 1, Some(0));
    check(AlwaysFirst, Some(2), 1, Some(0));
    check(AlwaysFirst, Some(3), 1, Some(0));
    check(AlwaysFirst, Some(7), 9, Some(0));
}

#[test]
fn always_last_picks_final_index() {
    check(AlwaysLast, None, 1, Some(0));
    check(AlwaysLast, Some(3), 1, Some(0));
    check(AlwaysLast, Some(3), 2, Some(1));
    check(AlwaysLast, Some(3), 3, Some(2));
    check(AlwaysLast, Some(3), 4, Some(3));
    check(AlwaysLast, Some(3), 5, Some(4));
}

#[test]
fn sequential_wrapping_cycles() {
    check(SequentialWrapping, None, 4, Some(0));
    check(SequentialWrapping, Some(0), 4, Some(1));
    check(SequentialWrapping, Some(1), 4, Some(2));
    check(SequentialWrapping, Some(2), 4, Some(3));
    check(SequentialWrapping, Some(3), 4, Some(0));
    check(SequentialWrapping, Some(5), 4, Some(2));
    check(SequentialWrapping, Some(7), 4, Some(0));
}

#[test]
fn sequential_clamping_sticks_to_end() {
    check(SequentialClamping, None, 4, Some(0));
    check(SequentialClamping, Some(0), 4, Some(1));
    check(SequentialClamping, Some(1), 4, Some(2));
    check(SequentialClamping, Some(2), 4, Some(3));
    check(SequentialClamping, Some(3), 4, Some(3));
    check(SequentialClamping, Some(4), 4, Some(3));
    check(SequentialClamping, Some(9), 4, Some(3));
}

#[test]
fn sequential_once_exhausts_permanently() {
    check(SequentialOnce, None, 4, Some(0));
    check(SequentialOnce, Some(0), 4, Some(1));
    check(SequentialOnce, Some(1), 4, Some(2));
    check(SequentialOnce, Some(2), 4, Some(3));
    check(SequentialOnce, Some(3), 4, None);
    check(SequentialOnce, Some(4), 4, None);
    check(SequentialOnce, Some(9), 4, None);
}

#[test]
fn random_always_in_range_and_covers_all() {
    let length = 5;
    let mut seen = [false; 5];
    for _ in 0..10_000 {
        let choice = Random.choose_index(None, length);
        let index = choice.expect("a non-empty list always yields an index");
        assert!(index < length);
        seen[index] = true;
    }
    assert!(seen.iter().all(|s| *s));
}

#[test]
fn behaviour_names_parse_back() {
    let names = ResponderBehaviour::variants();
    assert_eq!(
        names,
        vec![
            "always-first",
            "always-last",
            "random",
            "sequential-clamping",
            "sequential-once",
            "sequential-wrapping",
        ]
    );
    for name in names {
        assert!(ResponderBehaviour::from_name(name).is_ok());
    }
    assert_eq!(
        "sequential-once".parse::<ResponderBehaviour>(),
        Ok(SequentialOnce)
    );
    assert_eq!(
        ResponderBehaviour::from_name("sequential"),
        Err("Unrecognized behaviour option")
    );
}
