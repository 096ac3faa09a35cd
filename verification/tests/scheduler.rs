use parrun::engine::{Scheduler, TaskPhase};

fn commands(texts: &[&str]) -> Vec<String> {
    texts.iter().map(|t| t.to_string()).collect()
}

/// Runs every task of `s` to completion, in waves that never exceed the
/// permit budget, marking task `i` successful exactly when `success(i)`.
/// Returns the largest number of permits ever observed in flight.
fn drive_to_completion(s: &mut Scheduler, success: &dyn Fn(usize) -> bool) -> usize {
    let n = s.num_tasks();
    let mut most_in_flight = 0;
    let mut running: Vec<usize> = Vec::new();
    for i in 0..n {
        s.begin_wait_for_permit(i);
        if s.available_permits() == 0 {
            let done = running.remove(0);
            s.note_exit(done, success(done));
        }
        s.grant_permit(i);
        s.note_spawned(i);
        running.push(i);
        assert!(s.in_flight_now() <= s.max_parallel());
        if s.in_flight_now() > most_in_flight {
            most_in_flight = s.in_flight_now();
        }
    }
    for done in running {
        s.note_exit(done, success(done));
    }
    most_in_flight
}

#[test]
fn three_commands_one_failure() {
    let mut s = Scheduler::new(commands(&["true", "false", "true"]), 2);
    assert_eq!(s.num_tasks(), 3);
    drive_to_completion(&mut s, &|i| i != 1);
    assert!(s.all_terminated());
    let (failed, code) = s.finalize();
    assert_eq!(failed, vec![1]);
    assert_eq!(code, 1);
    assert_eq!(s.phase(0), TaskPhase::Succeeded);
    assert_eq!(s.phase(1), TaskPhase::Failed);
    assert_eq!(s.phase(2), TaskPhase::Succeeded);
}

#[test]
fn empty_command_list_exits_zero() {
    let s = Scheduler::new(Vec::new(), 4);
    assert_eq!(s.num_tasks(), 0);
    assert!(s.all_terminated());
    let (failed, code) = s.finalize();
    assert!(failed.is_empty());
    assert_eq!(code, 0);
}

#[test]
fn spawn_error_releases_the_permit() {
    let mut s = Scheduler::new(commands(&["echo hi", "echo ho"]), 1);
    s.begin_wait_for_permit(0);
    s.grant_permit(0);
    assert_eq!(s.available_permits(), 0);
    s.note_spawn_failed(0);
    assert_eq!(s.available_permits(), 1);
    s.begin_wait_for_permit(1);
    s.grant_permit(1);
    s.note_spawned(1);
    s.note_exit(1, true);
    assert!(s.all_terminated());
    let (failed, code) = s.finalize();
    assert_eq!(failed, vec![0]);
    assert_eq!(code, 1);
    assert_eq!(s.phase(0), TaskPhase::SpawnError);
}

#[test]
fn lost_wait_counts_as_failure() {
    let mut s = Scheduler::new(commands(&["true", "true"]), 2);
    s.begin_wait_for_permit(0);
    s.grant_permit(0);
    s.note_spawned(0);
    s.begin_wait_for_permit(1);
    s.grant_permit(1);
    s.note_spawned(1);
    s.note_exit(0, true);
    s.note_wait_lost(1);
    let (failed, code) = s.finalize();
    assert_eq!(failed, vec![1]);
    assert_eq!(code, 1);
    assert_eq!(s.phase(1), TaskPhase::Failed);
}

#[test]
fn hundred_tasks_never_exceed_four_permits() {
    let texts: Vec<String> = (0..100).map(|_| "sleep 0.01".to_string()).collect();
    let mut s = Scheduler::new(texts, 4);
    let most = drive_to_completion(&mut s, &|_| true);
    assert_eq!(most, 4);
    let (failed, code) = s.finalize();
    assert!(failed.is_empty());
    assert_eq!(code, 0);
}

#[test]
fn report_is_sorted_even_when_failures_arrive_out_of_order() {
    let mut s = Scheduler::new(commands(&["a", "b", "c"]), 3);
    for i in 0..3 {
        s.begin_wait_for_permit(i);
        s.grant_permit(i);
        s.note_spawned(i);
    }
    s.note_exit(2, false);
    s.note_exit(1, true);
    s.note_exit(0, false);
    assert_eq!(s.failed_so_far(), &vec![2, 0]);
    let (failed, code) = s.finalize();
    assert_eq!(failed, vec![0, 2]);
    assert_eq!(code, 1);
}

#[test]
fn identical_outcomes_give_identical_reports() {
    let fails = |i: usize| i % 3 == 0;
    let mut first = Scheduler::new(commands(&["a", "b", "c", "d", "e", "f", "g"]), 2);
    drive_to_completion(&mut first, &|i| !fails(i));
    let mut second = Scheduler::new(commands(&["a", "b", "c", "d", "e", "f", "g"]), 5);
    drive_to_completion(&mut second, &|i| !fails(i));
    assert_eq!(first.finalize(), second.finalize());
}

#[test]
fn commands_are_kept_verbatim() {
    let mut s = Scheduler::new(commands(&["echo 'a b'", ""]), 1);
    assert_eq!(s.command(0).as_str(), "echo 'a b'");
    assert_eq!(s.command(1).as_str(), "");
    drive_to_completion(&mut s, &|_| true);
    let (failed, code) = s.finalize();
    assert!(failed.is_empty());
    assert_eq!(code, 0);
}
