use parrun::naming::{ordinal_width, padded_ordinal, plan_sink_names, stderr_sink_name, stdout_sink_name};

#[test]
fn width_is_digit_count_of_largest_ordinal() {
    assert_eq!(ordinal_width(1), 1);
    assert_eq!(ordinal_width(9), 1);
    assert_eq!(ordinal_width(10), 1);
    assert_eq!(ordinal_width(11), 2);
    assert_eq!(ordinal_width(100), 2);
    assert_eq!(ordinal_width(101), 3);
    assert_eq!(ordinal_width(1000), 3);
    assert_eq!(ordinal_width(1001), 4);
}

#[test]
fn padding_fills_with_zeros() {
    assert_eq!(padded_ordinal(0, 1), "0");
    assert_eq!(padded_ordinal(7, 1), "7");
    assert_eq!(padded_ordinal(7, 2), "07");
    assert_eq!(padded_ordinal(7, 4), "0007");
    assert_eq!(padded_ordinal(12, 2), "12");
    assert_eq!(padded_ordinal(120, 3), "120");
}

#[test]
fn padding_keeps_lowest_digits_when_too_narrow() {
    assert_eq!(padded_ordinal(123, 2), "23");
}

#[test]
fn sink_names_carry_stream_suffixes() {
    assert_eq!(stdout_sink_name(7, 2), "07.stdout");
    assert_eq!(stderr_sink_name(7, 2), "07.stderr");
    assert_eq!(stdout_sink_name(0, 1), "0.stdout");
    assert_eq!(stderr_sink_name(0, 1), "0.stderr");
}

#[test]
fn plan_has_one_pair_per_task() {
    let plan = plan_sink_names(3);
    assert_eq!(plan.len(), 3);
    assert_eq!(plan[0].0, "0.stdout");
    assert_eq!(plan[0].1, "0.stderr");
    assert_eq!(plan[1].0, "1.stdout");
    assert_eq!(plan[1].1, "1.stderr");
    assert_eq!(plan[2].0, "2.stdout");
    assert_eq!(plan[2].1, "2.stderr");
}

#[test]
fn plan_uses_one_consistent_width() {
    let plan = plan_sink_names(11);
    assert_eq!(plan.len(), 11);
    for (out_name, err_name) in &plan {
        assert_eq!(out_name.len(), 2 + ".stdout".len());
        assert_eq!(err_name.len(), 2 + ".stderr".len());
    }
    assert_eq!(plan[7].0, "07.stdout");
    assert_eq!(plan[10].0, "10.stdout");
}

#[test]
fn names_sort_in_submission_order() {
    let plan = plan_sink_names(102);
    for i in 1..plan.len() {
        assert!(plan[i - 1].0 < plan[i].0);
        assert!(plan[i - 1].1 < plan[i].1);
    }
}
