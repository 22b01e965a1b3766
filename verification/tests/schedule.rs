use eternity_solver::config::{BREAK_INDEXES_ALLOWED, MAX_HEURISTIC_INDEX};
use eternity_solver::schedule::{
    break_schedule, contains_index, first_break_index, first_break_index_of, get_break_array,
    get_heuristic_array,
};

#[test]
fn break_array_from_two_indexes_over_six_steps() {
    assert_eq!(break_schedule(&[2, 4], 6), vec![0, 0, 1, 1, 2, 2]);
}

#[test]
fn break_schedule_counts_a_repeated_index_once() {
    assert_eq!(break_schedule(&[3, 3, 1], 5), vec![0, 1, 1, 2, 2]);
    assert_eq!(break_schedule(&[], 3), vec![0, 0, 0]);
    assert_eq!(break_schedule(&[9], 0), Vec::<u8>::new());
}

#[test]
fn standard_break_array_steps_up_at_the_ten_indexes() {
    let breaks = get_break_array();
    assert_eq!(breaks[0], 0);
    for step in 1..256 {
        let rise = breaks[step] - breaks[step - 1];
        if BREAK_INDEXES_ALLOWED.contains(&step) {
            assert_eq!(rise, 1);
        } else {
            assert_eq!(rise, 0);
        }
    }
    assert_eq!(breaks[200], 0);
    assert_eq!(breaks[201], 1);
    assert_eq!(breaks[238], 9);
    assert_eq!(breaks[239], 10);
    assert_eq!(breaks[255], 10);
    assert_eq!(breaks.to_vec(), break_schedule(&BREAK_INDEXES_ALLOWED, 256));
}

#[test]
fn first_break_index_is_the_smallest() {
    assert_eq!(first_break_index(), 201);
    assert_eq!(first_break_index_of(&[7, 3, 9]), 3);
    assert_eq!(first_break_index_of(&[]), 256);
}

#[test]
fn contains_index_finds_listed_steps() {
    assert!(contains_index(&[2, 4], 4));
    assert!(!contains_index(&[2, 4], 3));
    assert!(!contains_index(&[], 0));
}

#[test]
fn heuristic_array_has_the_expected_values() {
    let floor = get_heuristic_array();
    assert_eq!(floor.len(), 256);
    let expected: [(usize, i32); 16] = [
        (0, 0),
        (16, 0),
        (17, 2),
        (21, 14),
        (26, 28),
        (27, 29),
        (56, 70),
        (57, 71),
        (66, 80),
        (76, 89),
        (77, 89),
        (102, 105),
        (103, 106),
        (160, 119),
        (161, 0),
        (255, 0),
    ];
    for (step, value) in expected {
        assert_eq!(floor[step], value);
    }
}

#[test]
fn heuristic_array_is_zero_outside_and_rises_inside() {
    let floor = get_heuristic_array();
    for step in 0..=16 {
        assert_eq!(floor[step], 0);
    }
    for step in (MAX_HEURISTIC_INDEX + 1)..256 {
        assert_eq!(floor[step], 0);
    }
    for step in 17..MAX_HEURISTIC_INDEX {
        assert!(floor[step] <= floor[step + 1]);
    }
}

#[test]
fn heuristic_array_equals_the_rounded_down_single_precision_staircase() {
    let floor = get_heuristic_array();
    for i in 0..256usize {
        let expected = if i <= 16 {
            0
        } else if i <= 26 {
            ((i as f32 - 16.0) * 2.8) as i32
        } else if i <= 56 {
            (((i as f32 - 26.0) * 1.43333) + 28.0) as i32
        } else if i <= 76 {
            (((i as f32 - 56.0) * 0.9) + 71.0) as i32
        } else if i <= 102 {
            (((i as f32 - 76.0) * 0.6538) + 89.0) as i32
        } else if i <= 160 {
            (((i as f32 - 102.0) / 4.4615) + 106.0) as i32
        } else {
            0
        };
        assert_eq!(floor[i], expected);
    }
}
