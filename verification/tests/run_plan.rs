//! The fail-fast execution schedule.

use eriksync::next_command_index;

#[test]
fn starts_at_the_first_command() {
    assert_eq!(next_command_index(&Vec::new(), 3), Some(0));
}

#[test]
fn continues_while_commands_succeed() {
    assert_eq!(next_command_index(&vec![true], 3), Some(1));
    assert_eq!(next_command_index(&vec![true, true], 3), Some(2));
}

#[test]
fn stops_after_the_last_command() {
    assert_eq!(next_command_index(&vec![true, true, true], 3), None);
    assert_eq!(next_command_index(&Vec::new(), 0), None);
}

#[test]
fn stops_at_the_first_failure() {
    assert_eq!(next_command_index(&vec![true, false], 3), None);
    assert_eq!(next_command_index(&vec![false], 3), None);
}

#[test]
fn failing_second_command_runs_exactly_the_first_two() {
    // Three commands; the second exits non-zero. Drive the schedule the way
    // a runner would and record which commands start.
    let exits = vec![true, false, true];
    let mut results: Vec<bool> = Vec::new();
    let mut executed: Vec<usize> = Vec::new();
    while let Some(i) = next_command_index(&results, exits.len()) {
        executed.push(i);
        results.push(exits[i]);
    }
    assert_eq!(executed, vec![0, 1]);
}
